//! Verified core of a CPU/GPU ray tracer: pixel-buffer layout, the material
//! and light stores, the bounding-volume-hierarchy bookkeeping and the
//! Vulkan resource-selection decisions.
#![allow(unused_imports)]

pub mod gpu;
pub mod image;
pub mod bvh;
pub mod bvh_node;
pub mod integrator;
pub mod light;
pub mod material;
pub mod onb;
pub mod accel;
pub mod mesh;
