# rustracer

The verified core of a ray tracer with a CPU path tracer and a Vulkan
back end.

`src/` holds the logic that does not compute in floating point, verified
with Verus:

- `image`: the RGB pixel buffer (row 0 stored last), `Image::compute` and
  the pixel iterator;
- `material`, `light`, `integrator`, `onb`: the material store and its ids,
  the light store and the uniform light sampler, and the containers whose
  shading code computes in `f32`;
- `bvh`: the flat node array of the bounding-volume hierarchy, the primitive
  order, the split of a node, the sort keys that order `f32` values, the
  layout of a built hierarchy and the breadth-first walk that finds a hit;
- `bvh_node`: the recursive hierarchy (each node halves its sorted range)
  and its depth-first walk;
- `mesh`: unrolling of indexed triangle meshes;
- `gpu`, `accel`: the Vulkan decisions (memory type, queue family, device,
  swapchain settings, descriptor slots, work groups, shader words, the
  per-frame plan, the accumulation pass and its state) and the planning of
  acceleration-structure builds.

`app/` is ordinary Rust around it: conversions between `ash` types and the
library's, the Vulkan calls around the device, swapchain, frame and shader
decisions, the `f32` geometry (boxes, the ray-box test), OBJ loading, and the serde and thiserror
forms of library types.  `tests/` exercises the library on concrete values.
