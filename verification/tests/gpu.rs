use rustracer::gpu::{finish_frame, key_press, CameraMove};
use rustracer::gpu::{
    bind_slot, find_memorytype_index, next_in_ring, plan_swapchain, query_queue, select_device_queue,
    workgroup_count, DescriptorHandle, Extent2D, MemoryRequirements, MemoryType,
    PhysicalDeviceMemoryProperties, SurfaceCapabilities, PRESENT_MODE_FIFO,
    PRESENT_MODE_MAILBOX, SurfaceFormat, select_surface_queue, plan_frame, FrameActions,
    accumulate_pass, AccumulateState, IMAGE_LAYOUT_GENERAL, IMAGE_LAYOUT_UNDEFINED,
};

#[test]
fn workgroups_cover_the_size() {
    assert_eq!(workgroup_count(1), 1);
    assert_eq!(workgroup_count(16), 1);
    assert_eq!(workgroup_count(17), 2);
    assert_eq!(workgroup_count(1920), 120);
    assert_eq!(workgroup_count(1080), 68);
}

fn props(flags: &[u32]) -> PhysicalDeviceMemoryProperties {
    PhysicalDeviceMemoryProperties {
        memory_type_count: flags.len() as u32,
        memory_types: flags
            .iter()
            .map(|f| MemoryType { property_flags: *f, heap_index: 0 })
            .collect(),
    }
}

fn req(bits: u32) -> MemoryRequirements {
    MemoryRequirements { size: 256, alignment: 16, memory_type_bits: bits }
}

#[test]
fn memory_type_first_fit() {
    let p = props(&[0b001, 0b110, 0b111, 0b110]);
    assert_eq!(find_memorytype_index(&req(0b1111), &p, 0b110), Some(1));
    assert_eq!(find_memorytype_index(&req(0b1101), &p, 0b110), Some(2));
    assert_eq!(find_memorytype_index(&req(0b1000), &p, 0b110), Some(3));
    assert_eq!(find_memorytype_index(&req(0b0001), &p, 0b110), None);
    assert_eq!(find_memorytype_index(&req(0b1111), &p, 0), Some(0));
}

#[test]
fn memory_types_beyond_count_are_ignored() {
    let mut p = props(&[0b10, 0b10]);
    p.memory_type_count = 1;
    assert_eq!(find_memorytype_index(&req(0b11), &p, 0b10), Some(0));
    assert_eq!(find_memorytype_index(&req(0b10), &p, 0b10), None);
}

#[test]
fn queue_family_first_fit() {
    let families = vec![0b0100, 0b0011, 0b0111];
    assert_eq!(query_queue(&families, 0b0001), Some(1));
    assert_eq!(query_queue(&families, 0b0100), Some(0));
    assert_eq!(query_queue(&families, 0b0101), Some(2));
    assert_eq!(query_queue(&families, 0b1000), None);
    assert_eq!(query_queue(&vec![], 0b0001), None);
}

#[test]
fn device_selection_takes_first_capable_device() {
    let devices = vec![vec![0b10, 0b100], vec![0b10, 0b11, 0b1], vec![0b1]];
    assert_eq!(select_device_queue(&devices, 0b1), Some((1, 1)));
    assert_eq!(select_device_queue(&devices, 0b1000), None);
    assert_eq!(select_device_queue(&vec![], 0b1), None);
}

fn caps(min: u32, max: u32, width: u32, supported: u32) -> SurfaceCapabilities {
    SurfaceCapabilities {
        min_image_count: min,
        max_image_count: max,
        current_extent: Extent2D { width, height: 600 },
        supported_transforms: supported,
        current_transform: 0b100,
    }
}

#[test]
fn swapchain_image_count() {
    let window = Extent2D { width: 800, height: 600 };
    assert_eq!(plan_swapchain(&caps(2, 0, 800, 1), window, &fmts(), &vec![]).image_count, 3);
    assert_eq!(plan_swapchain(&caps(2, 8, 800, 1), window, &fmts(), &vec![]).image_count, 3);
    assert_eq!(plan_swapchain(&caps(3, 3, 800, 1), window, &fmts(), &vec![]).image_count, 3);
}

#[test]
fn swapchain_extent_and_transform() {
    let window = Extent2D { width: 1024, height: 768 };
    let fixed = plan_swapchain(&caps(2, 0, 640, 0b101), window, &fmts(), &vec![]);
    assert_eq!(fixed.extent, Extent2D { width: 640, height: 600 });
    assert_eq!(fixed.pre_transform, 1);
    let free = plan_swapchain(&caps(2, 0, u32::MAX, 0b110), window, &fmts(), &vec![]);
    assert_eq!(free.extent, window);
    assert_eq!(free.pre_transform, 0b100);
}

#[test]
fn swapchain_present_mode() {
    let window = Extent2D { width: 1, height: 1 };
    let c = caps(2, 0, 1, 1);
    assert_eq!(plan_swapchain(&c, window, &fmts(), &vec![0, 2, 1, 3]).present_mode, PRESENT_MODE_MAILBOX);
    assert_eq!(plan_swapchain(&c, window, &fmts(), &vec![0, 2, 3]).present_mode, PRESENT_MODE_FIFO);
    assert_eq!(plan_swapchain(&c, window, &fmts(), &vec![]).present_mode, PRESENT_MODE_FIFO);
}

#[test]
fn bind_reserves_consecutive_slots() {
    let mut count = 0usize;
    let (first, handle) = bind_slot(&mut count);
    assert_eq!(first, 0);
    assert_eq!(handle.id(), 0);
    let (second, handle) = bind_slot(&mut count);
    assert_eq!(second, 1);
    assert_eq!(handle.id(), 0);
    assert_eq!(count, 2);
    assert_eq!(DescriptorHandle::INVALID, u32::MAX);
}

#[test]
fn ring_index_wraps() {
    assert_eq!(next_in_ring(0, 2), 1);
    assert_eq!(next_in_ring(1, 2), 0);
    assert_eq!(next_in_ring(7, 8), 0);
    assert_eq!(next_in_ring(3, 8), 4);
}

#[test]
fn shader_words_are_little_endian() {
    let bytes = vec![0x03, 0x02, 0x23, 0x07, 1, 0, 0, 0, 9];
    assert_eq!(rustracer::gpu::shader_code_words(&bytes), vec![0x0723_0203, 1]);
    assert!(rustracer::gpu::shader_code_words(&vec![1, 2, 3]).is_empty());
}

fn fmts() -> Vec<SurfaceFormat> {
    vec![SurfaceFormat { format: 44, color_space: 0 }, SurfaceFormat { format: 50, color_space: 0 }]
}

#[test]
fn swapchain_takes_first_format() {
    let window = Extent2D { width: 1, height: 1 };
    let plan = plan_swapchain(&caps(2, 0, 1, 1), window, &fmts(), &vec![]);
    assert_eq!(plan.format, SurfaceFormat { format: 44, color_space: 0 });
}

#[test]
fn surface_queue_needs_flags_and_support() {
    let devices = vec![vec![0b1, 0b1], vec![0b10, 0b11, 0b1]];
    let support = vec![vec![false, false], vec![true, false, true]];
    assert_eq!(select_surface_queue(&devices, &support, 0b1), Some((1, 2)));
    assert_eq!(select_surface_queue(&devices, &support, 0b10), Some((1, 0)));
    let none = vec![vec![false, false], vec![false, false, false]];
    assert_eq!(select_surface_queue(&devices, &none, 0b1), None);
}

#[test]
fn frame_plan_uses_slot_and_image() {
    let (actions, next) = plan_frame(1, 2, Some(5));
    assert_eq!(
        actions,
        Some(FrameActions {
            fence: 1,
            command_buffer: 1,
            wait_semaphore: 1,
            signal_semaphore: 5,
            present_image: 5,
        })
    );
    assert_eq!(next, 0);
    assert_eq!(plan_frame(1, 2, None), (None, 1));
}

#[test]
fn accumulate_pass_clears_once() {
    let mut state = AccumulateState { first_time: true, clear_accumulation: true, frame: 7 };
    let (src, accum) = (bind_slot(&mut 0usize).1, bind_slot(&mut 0usize).1);
    let first = accumulate_pass(&mut state, &src, &accum, Extent2D { width: 1920, height: 1080 });
    assert_eq!(first.old_layout, IMAGE_LAYOUT_UNDEFINED);
    assert_eq!((first.workgroups_x, first.workgroups_y), (120, 68));
    assert!(first.push.clear);
    assert_eq!(first.push.frame, 7);
    assert_eq!(first.push.size, Extent2D { width: 1920, height: 1080 });
    assert_eq!(state, AccumulateState { first_time: false, clear_accumulation: false, frame: 7 });
    let second = accumulate_pass(&mut state, &src, &accum, Extent2D { width: 16, height: 17 });
    assert_eq!(second.old_layout, IMAGE_LAYOUT_GENERAL);
    assert_eq!((second.workgroups_x, second.workgroups_y), (1, 2));
    assert!(!second.push.clear);
}

#[test]
fn frames_advance_and_keys_restart_accumulation() {
    let mut state = AccumulateState::new();
    assert_eq!(state, AccumulateState { first_time: true, clear_accumulation: true, frame: 0 });
    let src = bind_slot(&mut 0usize).1;
    let _ = accumulate_pass(&mut state, &src, &src, Extent2D { width: 8, height: 8 });
    finish_frame(&mut state);
    finish_frame(&mut state);
    assert_eq!(state, AccumulateState { first_time: false, clear_accumulation: false, frame: 2 });
    assert_eq!(key_press(&mut state, 'q'), None);
    assert!(!state.clear_accumulation);
    assert_eq!(key_press(&mut state, 'w'), Some(CameraMove::Forward));
    assert_eq!(key_press(&mut state, 's'), Some(CameraMove::Back));
    assert_eq!(key_press(&mut state, 'a'), Some(CameraMove::Left));
    assert_eq!(key_press(&mut state, 'd'), Some(CameraMove::Right));
    assert_eq!(state, AccumulateState { first_time: false, clear_accumulation: true, frame: 2 });
}
