use wgpu_buffer::quad_tree::QuadTreeId;
use wgpu_buffer::tile_cache::{TileCache, TileState, MAX_CONCURRENT_READS};

fn qt(id: u32) -> QuadTreeId {
    QuadTreeId { id }
}

#[test]
fn tiles_take_the_last_free_slot_first() {
    let mut cache = TileCache::new(2);
    assert_eq!(cache.state(qt(10)), None);
    cache.allocate_atlas_slot(5, qt(10));
    cache.allocate_atlas_slot(7, qt(11));
    cache.allocate_atlas_slot(1, qt(12));
    assert_eq!(cache.state(qt(10)), Some(TileState::Pending(1)));
    assert_eq!(cache.state(qt(11)), Some(TileState::Pending(0)));
    assert_eq!(cache.state(qt(12)), Some(TileState::NoSpace));
}

#[test]
fn reads_start_with_the_most_voted_tile() {
    let mut cache = TileCache::new(2);
    cache.allocate_atlas_slot(5, qt(10));
    cache.allocate_atlas_slot(7, qt(11));
    cache.allocate_atlas_slot(1, qt(12));
    assert_eq!(cache.next_read(), Some((qt(11), 0)));
    assert_eq!(cache.state(qt(11)), Some(TileState::Reading(0)));
    assert_eq!(cache.tile_read_count(), 1);
    assert_eq!(cache.next_read(), Some((qt(10), 1)));
    assert_eq!(cache.next_read(), None);
    assert_eq!(cache.tile_read_count(), 2);
}

#[test]
fn completed_reads_become_active() {
    let mut cache = TileCache::new(2);
    cache.allocate_atlas_slot(5, qt(10));
    cache.allocate_atlas_slot(7, qt(11));
    assert_eq!(cache.next_read(), Some((qt(11), 0)));
    assert_eq!(cache.complete_read(qt(11)), Some(0));
    assert_eq!(cache.state(qt(11)), Some(TileState::Active(0)));
    assert_eq!(cache.tile_read_count(), 0);
    assert_eq!(cache.active_tiles(), vec![(qt(11), 0)]);
    assert_eq!(TileState::Active(0).atlas_slot(), 0);
    assert!(TileState::Pending(3).is_pending());
    assert!(TileState::Reading(3).is_reading());
    assert!(!TileState::NoSpace.is_pending());
}

#[test]
fn reads_of_tiles_gone_out_of_view_are_dropped() {
    let mut cache = TileCache::new(2);
    cache.allocate_atlas_slot(5, qt(10));
    assert_eq!(cache.next_read(), Some((qt(10), 1)));
    cache.deallocate_atlas_slot(qt(10));
    assert_eq!(cache.state(qt(10)), None);
    assert_eq!(cache.complete_read(qt(10)), None);
    assert_eq!(cache.tile_read_count(), 0);
    cache.allocate_atlas_slot(2, qt(20));
    assert_eq!(cache.state(qt(20)), Some(TileState::Pending(1)));
}

#[test]
fn queued_requests_of_removed_tiles_are_skipped() {
    let mut cache = TileCache::new(3);
    cache.allocate_atlas_slot(9, qt(1));
    cache.allocate_atlas_slot(4, qt(2));
    cache.deallocate_atlas_slot(qt(1));
    assert_eq!(cache.next_read(), Some((qt(2), 1)));
    assert_eq!(cache.next_read(), None);
}

#[test]
fn at_most_a_few_reads_are_outstanding() {
    let mut cache = TileCache::new(10);
    for i in 0..8u32 {
        cache.allocate_atlas_slot(i, qt(i));
    }
    let mut started = 0;
    while cache.next_read().is_some() {
        started += 1;
    }
    assert_eq!(started, MAX_CONCURRENT_READS);
    assert_eq!(cache.tile_read_count(), MAX_CONCURRENT_READS);
}

#[test]
fn visibility_changes_remove_then_add() {
    let mut cache = TileCache::new(1);
    cache.allocate_atlas_slot(1, qt(5));
    cache.allocate_atlas_slot(1, qt(6));
    assert_eq!(cache.state(qt(6)), Some(TileState::NoSpace));
    cache.apply_visibility(&vec![(3, qt(7))], &vec![qt(5)]);
    assert_eq!(cache.state(qt(5)), None);
    assert_eq!(cache.state(qt(7)), Some(TileState::Pending(0)));
    assert_eq!(cache.state(qt(6)), Some(TileState::NoSpace));
}

#[test]
fn a_tile_in_and_out_of_view_leaves_its_slot_free() {
    let mut cache = TileCache::new(1);
    cache.allocate_atlas_slot(1, qt(5));
    cache.deallocate_atlas_slot(qt(5));
    cache.allocate_atlas_slot(1, qt(8));
    assert_eq!(cache.state(qt(8)), Some(TileState::Pending(0)));
}

#[test]
fn a_frame_starts_reads_up_to_the_budget() {
    let mut cache = TileCache::new(10);
    for i in 0..8u32 {
        cache.allocate_atlas_slot(i, qt(i));
    }
    let started = cache.start_reads();
    assert_eq!(
        started,
        vec![(qt(7), 2), (qt(6), 3), (qt(5), 4), (qt(4), 5), (qt(3), 6)]
    );
    assert_eq!(cache.start_reads(), vec![]);
    assert_eq!(cache.complete_read(qt(7)), Some(2));
    assert_eq!(cache.start_reads(), vec![(qt(2), 7)]);
}
