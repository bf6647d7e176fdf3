use wgpu_buffer::subdivision::{
    dispatch_size, expand_contexts, CpuDetail, CpuDetailLevel, GpuDetail, GpuDetailLevel,
    SubdivisionContext,
};

#[test]
fn lib_test_subdivision_vertex_counts() {
    let expect = vec![3, 6, 15, 45, 153, 561, 2145, 8385];
    for (i, &value) in expect.iter().enumerate() {
        assert_eq!(value, GpuDetailLevel::vertices_per_subdivision(i));
    }
}

#[test]
fn lib_test_built_index_lut() {
    for i in 0..300 {
        let patch_id = i / 3;
        let offset = i % 3;
        assert_eq!(i, patch_id * 3 + offset);
    }
}

#[test]
fn vertex_counts_follow_the_triangle_formula() {
    for d in 0..20usize {
        let edge = (1usize << d) + 1;
        assert_eq!(GpuDetailLevel::vertices_per_subdivision(d), edge * (edge + 1) / 2);
    }
}

#[test]
fn gpu_presets() {
    let low = GpuDetailLevel::Low.parameters();
    assert_eq!((low.subdivisions, low.tile_cache_size), (3, 32));
    let medium = GpuDetailLevel::Medium.parameters();
    assert_eq!((medium.subdivisions, medium.tile_cache_size), (4, 64));
    let high = GpuDetailLevel::High.parameters();
    assert_eq!((high.subdivisions, high.tile_cache_size), (6, 128));
    let ultra = GpuDetailLevel::Ultra.parameters();
    assert_eq!((ultra.subdivisions, ultra.tile_cache_size), (7, 256));
}

#[test]
fn cpu_presets() {
    let low = CpuDetailLevel::Low.parameters();
    assert_eq!((low.max_level, low.desired_patch_count), (8, 200));
    let medium = CpuDetailLevel::Medium.parameters();
    assert_eq!((medium.max_level, medium.desired_patch_count), (15, 300));
    let high = CpuDetailLevel::High.parameters();
    assert_eq!((high.max_level, high.desired_patch_count), (16, 400));
    let ultra = CpuDetailLevel::Ultra.parameters();
    assert_eq!((ultra.max_level, ultra.desired_patch_count), (17, 500));
}

#[test]
fn subdivision_context_of_the_ultra_preset() {
    let ctx = SubdivisionContext::new(7);
    assert_eq!(ctx.target_stride, 8385);
    assert_eq!(ctx.target_subdivision_level, 7);
    assert_eq!(ctx.target_patch_subdivision_level(), 7);
    assert_eq!(ctx.target_vertex_count(500), 8385 * 500);
    assert_eq!(ctx.patch_vertex_buffer_offset(0), 0);
    assert_eq!(ctx.patch_vertex_buffer_offset(2), 16770);
}

#[test]
fn expansion_steps_skip_the_previous_level() {
    let steps = expand_contexts(3);
    assert_eq!(steps.len(), 3);
    let got: Vec<(u32, u32, u32)> = steps
        .iter()
        .map(|s| {
            (
                s.current_target_subdivision_level,
                s.skip_vertices_in_patch,
                s.compute_vertices_in_patch,
            )
        })
        .collect();
    assert_eq!(got, vec![(1, 3, 3), (2, 6, 9), (3, 15, 30)]);
    assert!(expand_contexts(0).is_empty());
}

#[test]
fn dispatch_sizes_are_at_least_one() {
    assert_eq!(dispatch_size(0), (1, 1));
    assert_eq!(dispatch_size(100), (100, 1));
    assert_eq!(dispatch_size(65536), (1, 1));
    assert_eq!(dispatch_size(65536 * 3 + 5), (5, 3));
}

#[test]
fn renderer_presets() {
    let low = CpuDetail::for_level(CpuDetailLevel::Low);
    assert_eq!((low.max_level, low.desired_patch_count), (11, 200));
    let ultra = CpuDetail::for_level(CpuDetailLevel::Ultra);
    assert_eq!((ultra.max_level, ultra.desired_patch_count), (17, 500));
    let low = GpuDetail::for_level(GpuDetailLevel::Low);
    assert_eq!((low.subdivisions, low.tile_cache_size), (4, 32));
    let medium = GpuDetail::for_level(GpuDetailLevel::Medium);
    assert_eq!((medium.subdivisions, medium.tile_cache_size), (5, 64));
    let high = GpuDetail::for_level(GpuDetailLevel::High);
    assert_eq!((high.subdivisions, high.tile_cache_size), (6, 128));
    let custom = GpuDetail::new(2, 8);
    assert_eq!((custom.subdivisions, custom.tile_cache_size), (2, 8));
    let custom = CpuDetail::new(3, 9);
    assert_eq!((custom.max_level, custom.desired_patch_count), (3, 9));
}
