use wgpu_buffer::atlas::array::{self, UploadState, UploadStep};
use wgpu_buffer::atlas::flat::{align, DirtyState, Frame, FlatLayout};
use wgpu_buffer::atlas::{self as plain};

/// A small deterministic generator of image sizes.
fn sizes(count: usize, lo: u32, hi: u32) -> Vec<(u32, u32)> {
    let mut state: u64 = 0x2545_f491_4f6c_dd1d;
    let mut out = Vec::new();
    for _ in 0..count {
        state = state.wrapping_mul(6364136223846793005).wrapping_add(1442695040888963407);
        let w = lo + ((state >> 33) as u32) % (hi - lo);
        state = state.wrapping_mul(6364136223846793005).wrapping_add(1442695040888963407);
        let h = lo + ((state >> 33) as u32) % (hi - lo);
        out.push((w, h));
    }
    out
}

#[test]
fn align_rounds_up_to_blocks() {
    assert_eq!(align(0), 0);
    assert_eq!(align(1), 16);
    assert_eq!(align(16), 16);
    assert_eq!(align(17), 32);
    assert_eq!(align(255), 256);
}

#[test]
fn flat_layout_widens_then_grows() {
    let mut layout = FlatLayout::new(256, 256);
    let f = layout.place(254, 254).unwrap();
    assert_eq!((f.s0, f.t1, f.s1, f.t0), (1, 1, 255, 255));
    assert_eq!(f.raw_base(), (1, 255));
    assert_eq!(layout.dirty_region(), DirtyState::Clean);
    let f = layout.place(24, 254).unwrap();
    assert_eq!((f.s0, f.t1, f.s1, f.t0), (1, 257, 25, 511));
    assert_eq!((layout.width(), layout.height()), (512, 512));
    assert_eq!(layout.dirty_region(), DirtyState::RecreateTexture((256, 256)));
    layout.mark_clean();
    assert_eq!(layout.dirty_region(), DirtyState::Clean);
    assert_eq!(layout.atlas_size(4), 512 * 512 * 4);
}

fn frames_meet(a: &Frame, b: &Frame) -> bool {
    a.s0 < b.s1 && b.s0 < a.s1 && a.t1 < b.t0 && b.t1 < a.t0
}

#[test]
fn flat_frames_stay_inside_the_atlas() {
    let mut layout = FlatLayout::new(1024, 2048);
    let mut frames = Vec::new();
    for (w, h) in sizes(320, 40, 200) {
        let f = layout.place(w, h).unwrap();
        assert!(f.s0 >= 1);
        assert!(f.t1 >= 1);
        assert!(f.s0 < f.s1);
        assert!(f.t1 < f.t0);
        assert!(f.s1 < layout.width());
        assert!(f.t0 < layout.height());
        assert_eq!(f.s1 - f.s0, w);
        assert_eq!(f.t0 - f.t1, h);
        frames.push(f);
    }
    for i in 0..frames.len() {
        for j in i + 1..frames.len() {
            assert!(!frames_meet(&frames[i], &frames[j]));
        }
    }
    assert_eq!((layout.width(), layout.height()), (2048, 4096));
}

#[test]
fn flat_last_column_widens_only_with_room() {
    let mut layout = FlatLayout::new(256, 256);
    let f = layout.place(100, 240).unwrap();
    assert_eq!((f.s0, f.t1, f.s1, f.t0), (1, 1, 101, 241));
    let f = layout.place(50, 10).unwrap();
    assert_eq!((f.s0, f.t1, f.s1, f.t0), (113, 1, 163, 11));
    assert_eq!(layout.width(), 256);
    let f = layout.place(143, 10).unwrap();
    assert_eq!((f.s0, f.t1, f.s1, f.t0), (113, 17, 256, 27));
    assert_eq!((layout.width(), layout.height()), (512, 512));
    assert_eq!(layout.dirty_region(), DirtyState::RecreateTexture((256, 256)));
}

#[test]
fn flat_frames_never_overlap() {
    let mut layout = FlatLayout::new(256, 256);
    let mut frames = Vec::new();
    for (w, h) in [(10, 250), (10, 10), (100, 250), (10, 10), (14, 10)] {
        frames.push(layout.place(w, h).unwrap());
    }
    let corners: Vec<(u32, u32, u32, u32)> = frames.iter().map(|f| (f.s0, f.t1, f.s1, f.t0)).collect();
    assert_eq!(
        corners,
        vec![(1, 1, 11, 251), (17, 1, 27, 11), (29, 1, 129, 251), (17, 17, 27, 27), (131, 1, 145, 11)]
    );
    for i in 0..frames.len() {
        for j in i + 1..frames.len() {
            assert!(!frames_meet(&frames[i], &frames[j]));
        }
    }
    assert_eq!((layout.width(), layout.height()), (256, 256));
}

#[test]
fn array_planes_fill_and_open() {
    let mut layout = array::PlaneLayout::new(256, 256);
    assert_eq!(layout.padding(), 1);
    assert_eq!(layout.buffer_offset(), 0);
    let p = layout.place(254, 254).unwrap();
    assert_eq!((p.x, p.y, p.plane), (1, 2, 0));
    let p = layout.place(24, 254).unwrap();
    assert_eq!((p.x, p.y, p.plane), (1, 2, 1));
    let p = layout.place(24, 254).unwrap();
    assert_eq!((p.x, p.y, p.plane), (26, 1, 1));
    assert_eq!(layout.buffer_offset(), 1);
    assert_eq!((layout.width(), layout.height()), (256, 256));
}

#[test]
fn array_frames_stay_inside_their_plane() {
    let mut layout = array::PlaneLayout::new(1024, 2048);
    let mut last_plane = 0;
    for (w, h) in sizes(320, 40, 200) {
        if let Ok(p) = layout.place(w, h) {
            assert!(p.x >= 1 && p.x + w <= 1024);
            assert!(p.y >= 1 && p.y + h <= 2048);
            assert!(p.plane >= last_plane);
            last_plane = p.plane;
        }
    }
    assert_eq!(layout.buffer_offset(), last_plane);
}

#[test]
fn plain_planes_open_when_full() {
    let mut layout = plain::PlaneLayout::new(256, 256);
    let p = layout.place(200, 200).unwrap();
    assert_eq!((p.x, p.y, p.plane), (1, 1, 0));
    let p = layout.place(200, 200).unwrap();
    assert_eq!((p.x, p.y, p.plane), (1, 1, 1));
    assert_eq!(layout.buffer_offset(), 1);
    let p = layout.place(254, 254).unwrap();
    assert_eq!((p.x, p.y, p.plane), (1, 1, 2));
    assert_eq!(layout.buffer_offset(), 2);
    let mut padded = plain::PlaneLayout::new(256, 256).with_padding(4);
    let p = padded.place(100, 100).unwrap();
    assert_eq!((p.x, p.y), (4, 4));
}

#[test]
fn test_upload() {
    let mut layout = plain::PlaneLayout::new(256, 256);
    let p = layout.place(254, 254).unwrap();
    assert_eq!((p.x, p.y, p.plane), (1, 1, 0));
    assert_eq!(layout.buffer_offset(), 0);
}

#[test]
fn plain_frames_stay_inside_their_plane() {
    let mut layout = plain::PlaneLayout::new(1024, 2048);
    for (w, h) in sizes(320, 40, 200) {
        if let Ok(p) = layout.place(w, h) {
            assert!(p.x >= 1 && p.x + w <= 1024);
            assert!(p.y >= 1 && p.y + h <= 2048);
        }
    }
}

#[test]
fn uploads_are_incremental() {
    let mut state = UploadState::new();
    assert_eq!(
        state.plan(0),
        vec![UploadStep::Allocate(1), UploadStep::Install, UploadStep::UploadPlane(0)]
    );
    assert!(state.plan(0).is_empty());
    state.mark_dirty();
    assert_eq!(
        state.plan(1),
        vec![
            UploadStep::Allocate(2),
            UploadStep::Install,
            UploadStep::UploadPlane(0),
            UploadStep::UploadPlane(1)
        ]
    );
    assert_eq!(state.texture_capacity, 2);
    state.mark_dirty();
    assert_eq!(state.plan(1), vec![UploadStep::UploadPlane(1)]);
    assert!(state.plan(1).is_empty());
    state.mark_dirty();
    assert_eq!(
        state.plan(3),
        vec![
            UploadStep::Allocate(4),
            UploadStep::CopyLayer(0),
            UploadStep::Install,
            UploadStep::UploadPlane(1),
            UploadStep::UploadPlane(2),
            UploadStep::UploadPlane(3)
        ]
    );
    assert_eq!((state.last_uploaded_offset, state.texture_capacity), (3, 4));
}

#[test]
fn a_first_upload_sends_every_plane() {
    let mut state = UploadState::new();
    assert_eq!(
        state.plan(2),
        vec![
            UploadStep::Allocate(3),
            UploadStep::Install,
            UploadStep::UploadPlane(0),
            UploadStep::UploadPlane(1),
            UploadStep::UploadPlane(2)
        ]
    );
}

#[test]
fn flat_test_finish() {
    let mut layout = FlatLayout::new(256, 256);
    let f = layout.place(254, 254).unwrap();
    assert_eq!((f.s0, f.t1, f.s1, f.t0), (1, 1, 255, 255));
    assert_eq!(layout.dirty_region(), DirtyState::Clean);
}

#[test]
fn test_grayscale() {
    let mut layout = FlatLayout::new(256, 256);
    let f = layout.place(254, 254).unwrap();
    assert_eq!((f.s0, f.t1, f.s1, f.t0), (1, 1, 255, 255));
    assert_eq!(layout.dirty_region(), DirtyState::Clean);
    assert_eq!(layout.atlas_size(1), 256 * 256);
}

#[test]
fn flat_test_incremental_upload() {
    let mut layout = FlatLayout::new(256, 256);
    // Base upload
    let _ = layout.place(254, 254).unwrap();
    assert_eq!(layout.dirty_region(), DirtyState::Clean);
    layout.mark_clean();
    // Grow
    let f = layout.place(24, 254).unwrap();
    assert_eq!((f.s0, f.t1, f.s1, f.t0), (1, 257, 25, 511));
    assert_eq!(layout.dirty_region(), DirtyState::RecreateTexture((256, 256)));
    layout.mark_clean();
    // Reuse
    let f = layout.place(24, 254).unwrap();
    assert_eq!((f.s0, f.t1, f.s1, f.t0), (257, 1, 281, 255));
    assert_eq!(layout.dirty_region(), DirtyState::Clean);
    assert_eq!((layout.width(), layout.height()), (512, 512));
}

#[test]
fn array_test_finish() {
    let mut layout = array::PlaneLayout::new(256, 256);
    let mut uploads = UploadState::new();
    let p = layout.place(254, 254).unwrap();
    assert_eq!((p.x, p.y, p.plane), (1, 2, 0));
    assert_eq!(
        uploads.plan(layout.buffer_offset()),
        vec![UploadStep::Allocate(1), UploadStep::Install, UploadStep::UploadPlane(0)]
    );
}

#[test]
fn array_test_incremental_upload() {
    let mut layout = array::PlaneLayout::new(256, 256);
    let mut uploads = UploadState::new();
    // Base upload
    let _ = layout.place(254, 254).unwrap();
    uploads.mark_dirty();
    assert_eq!(
        uploads.plan(layout.buffer_offset()),
        vec![UploadStep::Allocate(1), UploadStep::Install, UploadStep::UploadPlane(0)]
    );
    // Grow
    let p = layout.place(24, 254).unwrap();
    assert_eq!(p.plane, 1);
    uploads.mark_dirty();
    assert_eq!(
        uploads.plan(layout.buffer_offset()),
        vec![
            UploadStep::Allocate(2),
            UploadStep::Install,
            UploadStep::UploadPlane(0),
            UploadStep::UploadPlane(1)
        ]
    );
    // Reuse
    let p = layout.place(24, 254).unwrap();
    assert_eq!((p.x, p.y, p.plane), (26, 1, 1));
    uploads.mark_dirty();
    assert_eq!(uploads.plan(layout.buffer_offset()), vec![UploadStep::UploadPlane(1)]);
}
