//! Decisions taken while setting up the Vulkan device, memory and swapchain.
//!
//! The Vulkan structures these decisions read are mirrored here as plain
//! values; flag sets are their raw bit masks.

use vstd::prelude::*;
use vstd::bytes::{spec_u32_from_le_bytes, u32_from_le_bytes};
use vstd::slice::slice_subrange;

verus! {

/// Side length, in pixels, of the square work group of the compute shaders.
pub const WORKGROUP_SIZE: u32 = 16;

/// Number of work groups needed to cover `size` pixels along one axis.
pub fn workgroup_count(size: u32) -> (count: u32)
    requires
        size >= 1,
    ensures
        count == 1 + (size - 1) / 16,
        (count - 1) * 16 < size <= count * 16,
{
    1 + (size - 1) / WORKGROUP_SIZE
}

/// The slot after `index` in a ring of `len` slots: the next frame in
/// flight, or the next point of the jitter sequence.
pub fn next_in_ring(index: usize, len: usize) -> (next: usize)
    requires
        len > 0,
        index < usize::MAX,
    ensures
        next == (index + 1) % (len as int),
        next < len,
{
    (index + 1) % len
}

/// The word stored little-endian in the `i`-th group of four bytes.
pub open spec fn word_le(bytes: Seq<u8>, i: int) -> u32 {
    spec_u32_from_le_bytes(bytes.subrange(4 * i, 4 * i + 4))
}

/// The word stored big-endian in the `i`-th group of four bytes.
pub open spec fn word_be(bytes: Seq<u8>, i: int) -> u32 {
    spec_u32_from_le_bytes(bytes.subrange(4 * i, 4 * i + 4).reverse())
}

/// `u32::from_ne_bytes`: the word whose representation in this machine's
/// memory is `bytes`.  Every target stores a word either little-endian or
/// big-endian, so the word is the little-endian reading of `bytes` or of
/// `bytes` reversed; which of the two is the machine's, the contract leaves
/// open.
#[verifier::external_body]
fn u32_from_native_bytes(bytes: [u8; 4]) -> (word: u32)
    ensures
        word == spec_u32_from_le_bytes(bytes@) || word == spec_u32_from_le_bytes(
            bytes@.reverse(),
        ),
{
    u32::from_ne_bytes(bytes)
}

/// The 32-bit words of shader code read from `bytes` as they lie in memory:
/// each word is taken from four consecutive bytes in the machine's byte order
/// (little-endian for every word, or big-endian for every word); trailing
/// bytes that do not fill a word are dropped.
pub fn shader_code_words(bytes: &Vec<u8>) -> (words: Vec<u32>)
    ensures
        words.len() == bytes.len() / 4,
        (forall|i: int| 0 <= i < words.len() ==> #[trigger] words[i] == word_le(bytes@, i)) || (
        forall|i: int| 0 <= i < words.len() ==> #[trigger] words[i] == word_be(bytes@, i)),
{
    let little = u32_from_native_bytes([1u8, 0u8, 0u8, 0u8]) == 1;
    let count = bytes.len() / 4;
    let mut words: Vec<u32> = Vec::with_capacity(count);
    let mut i: usize = 0;
    while i < count
        invariant
            count == bytes.len() / 4,
            i <= count,
            words.len() == i,
            little ==> forall|j: int| 0 <= j < i ==> #[trigger] words[j] == word_le(bytes@, j),
            !little ==> forall|j: int| 0 <= j < i ==> #[trigger] words[j] == word_be(bytes@, j),
        decreases count - i,
    {
        let word = if little {
            u32_from_le_bytes(slice_subrange(bytes.as_slice(), 4 * i, 4 * i + 4))
        } else {
            let reversed = vec![bytes[4 * i + 3], bytes[4 * i + 2], bytes[4 * i + 1], bytes[4 * i]];
            proof {
                assert(reversed@ =~= bytes@.subrange(4 * i, 4 * i + 4).reverse());
            }
            u32_from_le_bytes(reversed.as_slice())
        };
        words.push(word);
        i += 1;
    }
    words
}

/// Errors of the GPU back end.
pub enum GpuError<'a> {
    /// The command buffers are invalid: at least this many were expected.
    InvalidCommandBuffers(u32),
    /// The GPU ran out of memory.
    HostOutOfMemory,
    Message(&'a str),
}

/// Handle of a resource bound in the bindless descriptor set.
pub struct DescriptorHandle(u32);

impl DescriptorHandle {
    /// The handle value that names no resource.
    pub const INVALID: u32 = 0xFFFF_FFFF;

    /// The raw handle value.
    pub closed spec fn spec_id(&self) -> u32 {
        self.0
    }

    pub fn id(&self) -> (id: u32)
        ensures
            id == self.spec_id(),
    {
        self.0
    }
}

/// Reserves the next storage-image slot of the descriptor set: returns the
/// array element to write (the slot count before the call, truncated to
/// `u32`) and the handle handed back for the bound image, which is always 0.
pub fn bind_slot(storage_image_count: &mut usize) -> (bound: (u32, DescriptorHandle))
    requires
        *old(storage_image_count) < usize::MAX,
    ensures
        *final(storage_image_count) == *old(storage_image_count) + 1,
        bound.0 as int == *old(storage_image_count) as int % 0x1_0000_0000,
        bound.1.spec_id() == 0,
{
    let new_id = *storage_image_count;
    *storage_image_count += 1;
    let element = #[verifier::truncate] (new_id as u32);
    proof {
        let wide = new_id as u64;
        assert((wide as u32) as u64 == wide % 0x1_0000_0000) by (bit_vector);
        assert(new_id as u32 == wide as u32) by (bit_vector)
            requires
                wide == new_id as u64,
        ;
    }
    (element, DescriptorHandle(0))
}

/// Number of memory types a physical device reports at most.
pub const MAX_MEMORY_TYPES: usize = 32;

/// A memory type of the physical device.
pub struct MemoryType {
    pub property_flags: u32,
    pub heap_index: u32,
}

/// The memory types of a physical device; the first `memory_type_count`
/// entries of `memory_types` are valid.
pub struct PhysicalDeviceMemoryProperties {
    pub memory_type_count: u32,
    pub memory_types: Vec<MemoryType>,
}

/// What a resource needs from its memory; bit `i` of `memory_type_bits` is
/// set when memory type `i` may back it.
pub struct MemoryRequirements {
    pub size: u64,
    pub alignment: u64,
    pub memory_type_bits: u32,
}

/// Memory type `index` may back a resource with `memory_req` and has every
/// property in `flags`.
pub open spec fn memory_type_fits(
    memory_req: &MemoryRequirements,
    memory_prop: &PhysicalDeviceMemoryProperties,
    flags: u32,
    index: int,
) -> bool {
    &&& (memory_req.memory_type_bits >> (index as u32)) & 1 == 1
    &&& memory_prop.memory_types@[index].property_flags & flags == flags
}

/// The first valid memory type that may back a resource with `memory_req`
/// and has every property in `flags`, if any.
pub fn find_memorytype_index(
    memory_req: &MemoryRequirements,
    memory_prop: &PhysicalDeviceMemoryProperties,
    flags: u32,
) -> (index: Option<u32>)
    requires
        memory_prop.memory_type_count <= memory_prop.memory_types.len() <= MAX_MEMORY_TYPES,
    ensures
        match index {
            Some(i) => {
                &&& i < memory_prop.memory_type_count
                &&& memory_type_fits(memory_req, memory_prop, flags, i as int)
                &&& forall|j: int|
                    0 <= j < i ==> !#[trigger] memory_type_fits(memory_req, memory_prop, flags, j)
            },
            None => forall|j: int|
                0 <= j < memory_prop.memory_type_count ==> !#[trigger] memory_type_fits(
                    memory_req,
                    memory_prop,
                    flags,
                    j,
                ),
        },
{
    let count = memory_prop.memory_type_count as usize;
    let mut index: usize = 0;
    while index < count
        invariant
            count == memory_prop.memory_type_count,
            count <= memory_prop.memory_types.len() <= 32,
            index <= count,
            forall|j: int|
                0 <= j < index ==> !#[trigger] memory_type_fits(memory_req, memory_prop, flags, j),
        decreases count - index,
    {
        let shift = index as u32;
        let bits = memory_req.memory_type_bits;
        let property_flags = memory_prop.memory_types[index].property_flags;
        proof {
            assert(shift < 32 ==> (((1u32 << shift) & bits) != 0 <==> (bits >> shift) & 1 == 1))
                by (bit_vector);
        }
        if (1u32 << shift) & bits != 0 && property_flags & flags == flags {
            return Some(shift);
        }
        index += 1;
    }
    None
}

/// `flags` holds every bit of `required`.
pub open spec fn contains_flags(flags: u32, required: u32) -> bool {
    flags & required == required
}

/// The first queue family whose flags hold every bit of `queue_flags`, if
/// any.  `family_flags` lists the queue flags of each family of a physical
/// device in the order the device reports them.
pub fn query_queue(family_flags: &Vec<u32>, queue_flags: u32) -> (family: Option<usize>)
    ensures
        match family {
            Some(i) => {
                &&& i < family_flags.len()
                &&& contains_flags(family_flags[i as int], queue_flags)
                &&& forall|j: int|
                    0 <= j < i ==> !contains_flags(#[trigger] family_flags[j], queue_flags)
            },
            None => forall|j: int|
                0 <= j < family_flags.len() ==> !contains_flags(
                    #[trigger] family_flags[j],
                    queue_flags,
                ),
        },
{
    let mut index: usize = 0;
    while index < family_flags.len()
        invariant
            index <= family_flags.len(),
            forall|j: int| 0 <= j < index ==> !contains_flags(#[trigger] family_flags[j], queue_flags),
        decreases family_flags.len() - index,
    {
        if family_flags[index] & queue_flags == queue_flags {
            return Some(index);
        }
        index += 1;
    }
    None
}

/// Some queue family of the device with these family flags holds every bit
/// of `queue_flags`.
pub open spec fn device_has_queue(family_flags: Seq<u32>, queue_flags: u32) -> bool {
    exists|j: int| 0 <= j < family_flags.len() && contains_flags(#[trigger] family_flags[j], queue_flags)
}

/// The first physical device, in the order reported, with a queue family
/// whose flags hold every bit of `queue_flags`, together with the first such
/// family of that device.  `devices[d]` lists the queue flags of the
/// families of device `d`.
pub fn select_device_queue(devices: &Vec<Vec<u32>>, queue_flags: u32) -> (found: Option<
    (usize, usize),
>)
    ensures
        match found {
            Some((d, f)) => {
                &&& d < devices.len()
                &&& f < devices[d as int].len()
                &&& contains_flags(devices[d as int][f as int], queue_flags)
                &&& forall|j: int|
                    0 <= j < f ==> !contains_flags(#[trigger] devices[d as int][j], queue_flags)
                &&& forall|e: int|
                    0 <= e < d ==> !device_has_queue(#[trigger] devices[e]@, queue_flags)
            },
            None => forall|e: int|
                0 <= e < devices.len() ==> !device_has_queue(#[trigger] devices[e]@, queue_flags),
        },
{
    let mut d: usize = 0;
    while d < devices.len()
        invariant
            d <= devices.len(),
            forall|e: int| 0 <= e < d ==> !device_has_queue(#[trigger] devices[e]@, queue_flags),
        decreases devices.len() - d,
    {
        match query_queue(&devices[d], queue_flags) {
            Some(f) => {
                return Some((d, f));
            },
            None => {},
        }
        d += 1;
    }
    None
}

/// Family `f` of device `d` holds every bit of `queue_flags` in its queue
/// flags and can present to the surface.
pub open spec fn family_fits(
    devices: Seq<Vec<u32>>,
    support: Seq<Vec<bool>>,
    queue_flags: u32,
    d: int,
    f: int,
) -> bool {
    contains_flags(devices[d]@[f], queue_flags) && support[d]@[f]
}

/// The first physical device, in the order reported, with a queue family
/// whose flags hold every bit of `queue_flags` and that can present to the
/// surface, together with the first such family of that device.
/// `devices[d]` lists the queue flags of the families of device `d`, and
/// `support[d][f]` tells whether family `f` of device `d` can present.
pub fn select_surface_queue(devices: &Vec<Vec<u32>>, support: &Vec<Vec<bool>>, queue_flags: u32) -> (found:
    Option<(usize, usize)>)
    requires
        support.len() == devices.len(),
        forall|d: int| 0 <= d < devices.len() ==> #[trigger] support[d].len() == devices[d].len(),
    ensures
        match found {
            Some((d, f)) => {
                &&& d < devices.len()
                &&& f < devices[d as int].len()
                &&& family_fits(devices@, support@, queue_flags, d as int, f as int)
                &&& forall|j: int|
                    0 <= j < f ==> !#[trigger] family_fits(devices@, support@, queue_flags, d as int, j)
                &&& forall|e: int, j: int|
                    0 <= e < d && 0 <= j < devices[e].len() ==> !#[trigger] family_fits(
                        devices@,
                        support@,
                        queue_flags,
                        e,
                        j,
                    )
            },
            None => forall|e: int, j: int|
                0 <= e < devices.len() && 0 <= j < devices[e].len() ==> !#[trigger] family_fits(
                    devices@,
                    support@,
                    queue_flags,
                    e,
                    j,
                ),
        },
{
    let mut d: usize = 0;
    while d < devices.len()
        invariant
            d <= devices.len(),
            support.len() == devices.len(),
            forall|e: int| 0 <= e < devices.len() ==> #[trigger] support[e].len() == devices[e].len(),
            forall|e: int, j: int|
                0 <= e < d && 0 <= j < devices[e].len() ==> !#[trigger] family_fits(
                    devices@,
                    support@,
                    queue_flags,
                    e,
                    j,
                ),
        decreases devices.len() - d,
    {
        let families = &devices[d];
        let supported = &support[d];
        let mut f: usize = 0;
        while f < families.len()
            invariant
                d < devices.len(),
                support.len() == devices.len(),
                forall|e: int| 0 <= e < devices.len() ==> #[trigger] support[e].len() == devices[e].len(),
                families == devices[d as int],
                supported == support[d as int],
                supported.len() == families.len(),
                f <= families.len(),
                forall|e: int, j: int|
                    0 <= e < d && 0 <= j < devices[e].len() ==> !#[trigger] family_fits(
                        devices@,
                        support@,
                        queue_flags,
                        e,
                        j,
                    ),
                forall|j: int|
                    0 <= j < f ==> !#[trigger] family_fits(devices@, support@, queue_flags, d as int, j),
            decreases families.len() - f,
        {
            if families[f] & queue_flags == queue_flags && supported[f] {
                return Some((d, f));
            }
            f += 1;
        }
        d += 1;
    }
    None
}

/// What one frame of the presentation loop does once it has acquired
/// swapchain image `present_image`: it waits on and resets the fence of its
/// frame slot, submits that slot's command buffer waiting on the slot's
/// image-acquired semaphore and signalling the acquired image's
/// render-complete semaphore (and the slot's fence), then presents the image
/// waiting on that semaphore.
#[derive(Clone, Copy, Debug, PartialEq, Eq, Structural)]
pub struct FrameActions {
    pub fence: usize,
    pub command_buffer: usize,
    pub wait_semaphore: usize,
    pub signal_semaphore: usize,
    pub present_image: u32,
}

/// One step of the presentation loop in frame slot `frame_index` of
/// `frames_in_flight`.  `acquired_image` is the swapchain image acquired for
/// the frame, or `None` when there is no swapchain: then nothing is done and
/// the frame slot stays.  Otherwise the frame's actions use the slot's
/// fence, command buffer and image-acquired semaphore and the acquired
/// image's render-complete semaphore, and the loop moves to the next slot.
pub fn plan_frame(frame_index: usize, frames_in_flight: usize, acquired_image: Option<u32>) -> (step: (
    Option<FrameActions>,
    usize,
))
    requires
        frame_index < frames_in_flight,
    ensures
        match acquired_image {
            None => step.0 is None && step.1 == frame_index,
            Some(k) => {
                &&& step.0 == Some(
                    FrameActions {
                        fence: frame_index,
                        command_buffer: frame_index,
                        wait_semaphore: frame_index,
                        signal_semaphore: k as usize,
                        present_image: k,
                    },
                )
                &&& step.1 == (frame_index + 1) % (frames_in_flight as int)
            },
        },
        step.1 < frames_in_flight,
{
    match acquired_image {
        None => (None, frame_index),
        Some(k) => {
            let actions = FrameActions {
                fence: frame_index,
                command_buffer: frame_index,
                wait_semaphore: frame_index,
                signal_semaphore: k as usize,
                present_image: k,
            };
            (Some(actions), next_in_ring(frame_index, frames_in_flight))
        },
    }
}

/// Image layout whose contents are undefined.
pub const IMAGE_LAYOUT_UNDEFINED: i32 = 0;

/// Image layout usable for any access.
pub const IMAGE_LAYOUT_GENERAL: i32 = 1;

/// Push constants of the accumulation shader.
#[derive(Clone, Copy, Debug, PartialEq, Eq, Structural)]
pub struct AccumulatePushConstants {
    pub src: u32,
    pub accum: u32,
    pub size: Extent2D,
    pub frame: u32,
    pub clear: bool,
}

/// State of the accumulation pass across frames.
#[derive(Clone, Copy, Debug, PartialEq, Eq, Structural)]
pub struct AccumulateState {
    /// The accumulation target has not been transitioned yet.
    pub first_time: bool,
    /// The next pass starts the accumulation afresh.
    pub clear_accumulation: bool,
    pub frame: u32,
}

/// What one accumulation pass records: the layout the accumulation target
/// is transitioned from, the work groups dispatched and the push constants.
#[derive(Clone, Copy, Debug, PartialEq, Eq, Structural)]
pub struct AccumulatePass {
    pub old_layout: i32,
    pub workgroups_x: u32,
    pub workgroups_y: u32,
    pub push: AccumulatePushConstants,
}

/// Plans an accumulation pass of the image `src` into `accum`, both of
/// `size`: the target comes from the undefined layout on the first pass and
/// from the general layout afterwards; one work group per 16 by 16 pixels;
/// the push constants carry both handles, the size, the frame counter and
/// the clear flag as they were.  Afterwards the clear flag is off and no
/// pass is the first; the frame counter is left as it is.
pub fn accumulate_pass(
    state: &mut AccumulateState,
    src: &DescriptorHandle,
    accum: &DescriptorHandle,
    size: Extent2D,
) -> (pass: AccumulatePass)
    requires
        size.width >= 1,
        size.height >= 1,
    ensures
        pass.old_layout == if old(state).first_time {
            IMAGE_LAYOUT_UNDEFINED
        } else {
            IMAGE_LAYOUT_GENERAL
        },
        pass.workgroups_x == 1 + (size.width - 1) / 16,
        pass.workgroups_y == 1 + (size.height - 1) / 16,
        pass.push == (AccumulatePushConstants {
            src: src.spec_id(),
            accum: accum.spec_id(),
            size,
            frame: old(state).frame,
            clear: old(state).clear_accumulation,
        }),
        *final(state) == (AccumulateState {
            first_time: false,
            clear_accumulation: false,
            frame: old(state).frame,
        }),
{
    let old_layout = if state.first_time {
        IMAGE_LAYOUT_UNDEFINED
    } else {
        IMAGE_LAYOUT_GENERAL
    };
    let workgroups_x = workgroup_count(size.width);
    let workgroups_y = workgroup_count(size.height);
    let push = AccumulatePushConstants {
        src: src.id(),
        accum: accum.id(),
        size,
        frame: state.frame,
        clear: state.clear_accumulation,
    };
    *state = AccumulateState { first_time: false, clear_accumulation: false, frame: state.frame };
    AccumulatePass { old_layout, workgroups_x, workgroups_y, push }
}

impl AccumulateState {
    /// The state of a fresh ray tracer: the target has not been transitioned,
    /// the first pass clears the accumulation, and no frame is done yet.
    pub fn new() -> (state: Self)
        ensures
            state == (AccumulateState { first_time: true, clear_accumulation: true, frame: 0 }),
    {
        AccumulateState { first_time: true, clear_accumulation: true, frame: 0 }
    }
}

/// The step taken when the accumulated image has been copied to the
/// swapchain image: one more frame is done.
pub fn finish_frame(state: &mut AccumulateState)
    requires
        old(state).frame < u32::MAX,
    ensures
        *final(state) == (AccumulateState { frame: (old(state).frame + 1) as u32, ..*old(state) }),
{
    state.frame = state.frame + 1;
}

/// A camera movement asked for by a key.
#[derive(Clone, Copy, Debug, PartialEq, Eq, Structural)]
pub enum CameraMove {
    /// `w`: towards negative z.
    Forward,
    /// `s`: towards positive z.
    Back,
    /// `a`: towards negative x.
    Left,
    /// `d`: towards positive x.
    Right,
}

/// The movement key `key` asks for, if any.
pub open spec fn key_move(key: char) -> Option<CameraMove> {
    if key == 'w' {
        Some(CameraMove::Forward)
    } else if key == 's' {
        Some(CameraMove::Back)
    } else if key == 'a' {
        Some(CameraMove::Left)
    } else if key == 'd' {
        Some(CameraMove::Right)
    } else {
        None
    }
}

/// Only the four movement keys move the camera: `w` forward, `s` back, `a`
/// left and `d` right; every other key asks for no movement.
pub proof fn lemma_key_move(key: char)
    ensures
        (key_move(key) is Some) == (key == 'w' || key == 's' || key == 'a' || key == 'd'),
        key == 'w' ==> key_move(key) == Some(CameraMove::Forward),
        key == 's' ==> key_move(key) == Some(CameraMove::Back),
        key == 'a' ==> key_move(key) == Some(CameraMove::Left),
        key == 'd' ==> key_move(key) == Some(CameraMove::Right),
{
}

/// Handles a key press: a movement key moves the camera, which restarts the
/// accumulation; any other key changes nothing.
pub fn key_press(state: &mut AccumulateState, key: char) -> (movement: Option<CameraMove>)
    ensures
        movement == key_move(key),
        (movement is Some) == (key == 'w' || key == 's' || key == 'a' || key == 'd'),
        key == 'w' ==> movement == Some(CameraMove::Forward),
        key == 's' ==> movement == Some(CameraMove::Back),
        key == 'a' ==> movement == Some(CameraMove::Left),
        key == 'd' ==> movement == Some(CameraMove::Right),
        movement is None ==> *final(state) == *old(state),
        *final(state) == (if movement is Some {
            AccumulateState { clear_accumulation: true, ..*old(state) }
        } else {
            *old(state)
        }),
{
    let movement = if key == 'w' {
        Some(CameraMove::Forward)
    } else if key == 's' {
        Some(CameraMove::Back)
    } else if key == 'a' {
        Some(CameraMove::Left)
    } else if key == 'd' {
        Some(CameraMove::Right)
    } else {
        None
    };
    if movement.is_some() {
        state.clear_accumulation = true;
    }
    movement
}

/// Width and height of a surface or window, in pixels.
#[derive(Clone, Copy, Debug, PartialEq, Eq, Structural)]
pub struct Extent2D {
    pub width: u32,
    pub height: u32,
}

/// What the surface supports, as the presentation engine reports it.
pub struct SurfaceCapabilities {
    pub min_image_count: u32,
    /// 0 when there is no upper limit.
    pub max_image_count: u32,
    /// Width `u32::MAX` when the window decides the size.
    pub current_extent: Extent2D,
    pub supported_transforms: u32,
    pub current_transform: u32,
}

/// The identity surface transform bit.
pub const SURFACE_TRANSFORM_IDENTITY: u32 = 1;

/// Present mode that replaces a queued image with the newest one.
pub const PRESENT_MODE_MAILBOX: i32 = 1;

/// First-in first-out present mode, which every surface supports.
pub const PRESENT_MODE_FIFO: i32 = 2;

/// A pixel format and color space that the surface can present.
#[derive(Clone, Copy, Debug, PartialEq, Eq, Structural)]
pub struct SurfaceFormat {
    pub format: i32,
    pub color_space: i32,
}

/// The swapchain settings chosen from the surface's capabilities.
pub struct SwapchainPlan {
    pub format: SurfaceFormat,
    pub image_count: u32,
    pub extent: Extent2D,
    pub pre_transform: u32,
    pub present_mode: i32,
}

/// One image more than the minimum, unless that exceeds a nonzero maximum.
pub open spec fn desired_image_count(caps: &SurfaceCapabilities) -> u32 {
    if caps.max_image_count > 0 && caps.min_image_count + 1 > caps.max_image_count {
        caps.max_image_count
    } else {
        (caps.min_image_count + 1) as u32
    }
}

/// The window's size when the surface leaves the size to the window, else
/// the surface's current size.
pub open spec fn surface_resolution(caps: &SurfaceCapabilities, window: Extent2D) -> Extent2D {
    if caps.current_extent.width == u32::MAX {
        window
    } else {
        caps.current_extent
    }
}

/// The identity transform when supported, else the current transform.
pub open spec fn pre_transform(caps: &SurfaceCapabilities) -> u32 {
    if contains_flags(caps.supported_transforms, SURFACE_TRANSFORM_IDENTITY) {
        SURFACE_TRANSFORM_IDENTITY
    } else {
        caps.current_transform
    }
}

/// Mailbox when the surface offers it, else FIFO.
pub open spec fn present_mode(present_modes: Seq<i32>) -> i32 {
    if present_modes.contains(PRESENT_MODE_MAILBOX) {
        PRESENT_MODE_MAILBOX
    } else {
        PRESENT_MODE_FIFO
    }
}

/// The present mode chosen for a surface is mailbox exactly when mailbox is
/// among the modes it offers, and FIFO otherwise: neither the order of the
/// offered modes nor any other mode added to them changes the choice.
pub proof fn lemma_present_mode(modes: Seq<i32>, other: Seq<i32>, x: i32)
    ensures
        (present_mode(modes) == PRESENT_MODE_MAILBOX) == (exists|j: int|
            0 <= j < modes.len() && #[trigger] modes[j] == PRESENT_MODE_MAILBOX),
        present_mode(modes) != PRESENT_MODE_MAILBOX ==> present_mode(modes) == PRESENT_MODE_FIFO,
        x != PRESENT_MODE_MAILBOX ==> present_mode(modes.push(x)) == present_mode(modes),
        other.to_multiset() == modes.to_multiset() ==> present_mode(other) == present_mode(modes),
{
    broadcast use vstd::seq_lib::group_to_multiset_ensures;

    if x != PRESENT_MODE_MAILBOX {
        assert(modes.push(x).contains(PRESENT_MODE_MAILBOX) == modes.contains(PRESENT_MODE_MAILBOX)) by {
            if modes.push(x).contains(PRESENT_MODE_MAILBOX) {
                let j = choose|j: int| 0 <= j < modes.push(x).len() && modes.push(x)[j] == PRESENT_MODE_MAILBOX;
                assert(j < modes.len());
                assert(modes[j] == PRESENT_MODE_MAILBOX);
            }
            if modes.contains(PRESENT_MODE_MAILBOX) {
                let j = choose|j: int| 0 <= j < modes.len() && modes[j] == PRESENT_MODE_MAILBOX;
                assert(modes.push(x)[j] == PRESENT_MODE_MAILBOX);
            }
        }
    }
    if other.to_multiset() == modes.to_multiset() {
        assert(other.contains(PRESENT_MODE_MAILBOX) == (other.to_multiset().count(PRESENT_MODE_MAILBOX) > 0));
        assert(modes.contains(PRESENT_MODE_MAILBOX) == (modes.to_multiset().count(PRESENT_MODE_MAILBOX) > 0));
    }
}

/// Chooses the format, image count, extent, pre-transform and present mode
/// of a swapchain for a surface with capabilities `caps`, shown in a window
/// of size `window`, that offers `formats` (in the order reported; the first
/// one is taken) and `present_modes`.
pub fn plan_swapchain(
    caps: &SurfaceCapabilities,
    window: Extent2D,
    formats: &Vec<SurfaceFormat>,
    present_modes: &Vec<i32>,
) -> (plan: SwapchainPlan)
    requires
        formats.len() > 0,
        caps.min_image_count < u32::MAX,
    ensures
        plan.format == formats[0],
        plan.image_count == desired_image_count(caps),
        caps.max_image_count > 0 ==> plan.image_count <= caps.max_image_count,
        caps.max_image_count == 0 || caps.min_image_count < caps.max_image_count ==> plan.image_count
            > caps.min_image_count,
        plan.extent == surface_resolution(caps, window),
        plan.pre_transform == pre_transform(caps),
        plan.present_mode == present_mode(present_modes@),
        (plan.present_mode == PRESENT_MODE_MAILBOX) == (exists|j: int|
            0 <= j < present_modes.len() && #[trigger] present_modes[j] == PRESENT_MODE_MAILBOX),
        plan.present_mode == PRESENT_MODE_MAILBOX || plan.present_mode == PRESENT_MODE_FIFO,
        caps.max_image_count == 0 || caps.min_image_count + 1 <= caps.max_image_count
            ==> plan.image_count == caps.min_image_count + 1,
        caps.max_image_count > 0 && caps.min_image_count + 1 > caps.max_image_count
            ==> plan.image_count == caps.max_image_count,
        caps.current_extent.width == u32::MAX ==> plan.extent == window,
        caps.current_extent.width != u32::MAX ==> plan.extent == caps.current_extent,
        caps.supported_transforms & SURFACE_TRANSFORM_IDENTITY != 0 ==> plan.pre_transform
            == SURFACE_TRANSFORM_IDENTITY,
        caps.supported_transforms & SURFACE_TRANSFORM_IDENTITY == 0 ==> plan.pre_transform
            == caps.current_transform,
{
    let format = formats[0];
    let mut image_count = caps.min_image_count + 1;
    if caps.max_image_count > 0 && image_count > caps.max_image_count {
        image_count = caps.max_image_count;
    }
    let extent = if caps.current_extent.width == u32::MAX {
        window
    } else {
        caps.current_extent
    };
    proof {
        let t = caps.supported_transforms;
        assert((t & 1u32 == 1u32) == (t & 1u32 != 0)) by (bit_vector);
    }
    let transform = if caps.supported_transforms & SURFACE_TRANSFORM_IDENTITY
        == SURFACE_TRANSFORM_IDENTITY {
        SURFACE_TRANSFORM_IDENTITY
    } else {
        caps.current_transform
    };
    let mut mode = PRESENT_MODE_FIFO;
    let mut i: usize = 0;
    while i < present_modes.len()
        invariant
            i <= present_modes.len(),
            (mode == PRESENT_MODE_MAILBOX) == (exists|j: int|
                0 <= j < i && #[trigger] present_modes@[j] == PRESENT_MODE_MAILBOX),
            mode == PRESENT_MODE_FIFO || mode == PRESENT_MODE_MAILBOX,
        decreases present_modes.len() - i,
    {
        if present_modes[i] == PRESENT_MODE_MAILBOX {
            mode = PRESENT_MODE_MAILBOX;
        }
        i += 1;
    }
    SwapchainPlan { format, image_count, extent, pre_transform: transform, present_mode: mode }
}

} // verus!
