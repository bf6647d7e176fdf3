use wgpu_buffer::layer_pack::{LayerPack, LayerPackCursor};
use wgpu_buffer::quad_tree::{Aabb2, QuadTree, QuadTreeError, QuadTreeId};
use wgpu_buffer::tile::TileCompression;
use wgpu_buffer::tile_cache::{TileCache, TileState};

const E0: i32 = 1000;
const E1: i32 = 500;

/// A layer of `level` whose tiles are (corner, position in parent, byte count).
fn layer(fid: usize, level: u32, extent: i32, tiles: &[((i32, i32), u32, usize)]) -> (LayerPack, Vec<u8>) {
    let (mut cursor, header) =
        LayerPackCursor::new(tiles.len(), level, TileCompression::Bz2, extent);
    let pack = LayerPack::new(fid, &header.as_bytes()).unwrap();
    let mut index = Vec::new();
    for &(base, position, len) in tiles {
        let (item, _, _) = cursor.push_tile(base, position, len).unwrap();
        index.extend_from_slice(&item.as_bytes());
    }
    (pack, index)
}

fn two_levels() -> Vec<(LayerPack, Vec<u8>)> {
    vec![
        layer(
            2,
            1,
            E1,
            &[
                ((0, 0), 0, 10),
                ((0, E1), 1, 20),
                ((E1, 0), 2, 30),
                ((E1, E1), 3, 40),
            ],
        ),
        layer(1, 0, E0, &[((0, 0), 0, 5)]),
    ]
}

fn id(i: u32) -> QuadTreeId {
    QuadTreeId::new(i as usize)
}

#[test]
fn quad_tree_ids() {
    assert!(QuadTreeId::empty().is_empty());
    assert!(!QuadTreeId::new(3).is_empty());
    assert_eq!(QuadTreeId::new(3).offset(), 3);
    assert_eq!(QuadTreeId::empty().id, u32::MAX);
}

#[test]
fn layers_link_into_a_tree_in_level_order() {
    let tree = QuadTree::from_layer_packs(two_levels()).unwrap();
    assert_eq!(tree.node_count(), 5);
    assert_eq!(tree.level(&id(0)), 0);
    assert_eq!(tree.file_id(&id(0)), 1);
    assert_eq!(tree.angular_extent_as(&id(0)), E0);
    assert_eq!(tree.file_extent(&id(0)), (52, 57));
    for i in 1..5 {
        assert_eq!(tree.level(&id(i)), 1);
        assert_eq!(tree.file_id(&id(i)), 2);
        assert_eq!(tree.tile_compression(&id(i)), TileCompression::Bz2);
        assert_eq!(tree.angular_extent_as(&id(i)), E1);
    }
    assert_eq!(tree.base(&id(2)), (0, E1));
    assert_eq!(tree.base(&id(3)), (E1, 0));
    assert_eq!(tree.file_extent(&id(1)), (136, 146));
    assert_eq!(tree.file_extent(&id(4)), (196, 236));
    let b = tree.aabb_as(&id(4)).unwrap();
    assert_eq!((b.lo, b.hi), ((E1, E1), (E1 + E1, E1 + E1)));
}

#[test]
fn bad_layer_sets_are_refused() {
    assert_eq!(QuadTree::from_layer_packs(vec![]).err(), Some(QuadTreeError::NoLayers));
    let twice_root = vec![
        layer(1, 0, E0, &[((0, 0), 0, 5)]),
        layer(2, 0, E0, &[((0, 0), 0, 5)]),
    ];
    assert_eq!(
        QuadTree::from_layer_packs(twice_root).err(),
        Some(QuadTreeError::LevelMismatch)
    );
    let gap = vec![layer(1, 0, E0, &[((0, 0), 0, 5)]), layer(2, 2, E1, &[])];
    assert_eq!(QuadTree::from_layer_packs(gap).err(), Some(QuadTreeError::LevelMismatch));
}

#[test]
fn children_need_a_parent_and_a_free_position() {
    let orphan = vec![
        layer(1, 0, E0, &[((0, 0), 0, 5)]),
        layer(2, 1, E1, &[((5000, 5000), 0, 5)]),
    ];
    assert_eq!(
        QuadTree::from_layer_packs(orphan).err(),
        Some(QuadTreeError::MissingParent)
    );
    let twins = vec![
        layer(1, 0, E0, &[((0, 0), 0, 5)]),
        layer(2, 1, E1, &[((0, 0), 0, 5), ((0, 0), 0, 6)]),
    ];
    assert_eq!(
        QuadTree::from_layer_packs(twins).err(),
        Some(QuadTreeError::DuplicateChild)
    );
    let fifth = vec![layer(1, 0, E0, &[((0, 0), 4, 5)])];
    assert_eq!(
        QuadTree::from_layer_packs(fifth).err(),
        Some(QuadTreeError::BadChildIndex)
    );
    let mut torn = two_levels();
    torn[0].1.pop();
    assert_eq!(QuadTree::from_layer_packs(torn).err(), Some(QuadTreeError::IndexSize));
}

#[test]
fn a_frame_reports_the_nodes_it_asked_for() {
    let mut tree = QuadTree::from_layer_packs(two_levels()).unwrap();
    tree.begin_update();
    tree.note_required(&Aabb2::new((0, 0), (10, 10)), 0);
    let mut additions = Vec::new();
    let mut removals = Vec::new();
    tree.finish_update(&mut additions, &mut removals);
    assert_eq!(additions, vec![(1, id(0)), (1, id(1))]);
    assert!(removals.is_empty());

    tree.begin_update();
    tree.note_required(&Aabb2::new((E1 + 10, E1 + 10), (E1 + 20, E1 + 20)), 0);
    tree.note_required(&Aabb2::new((E1 + 10, E1 + 10), (E1 + 20, E1 + 20)), 0);
    let mut additions = Vec::new();
    let mut removals = Vec::new();
    tree.finish_update(&mut additions, &mut removals);
    assert_eq!(additions, vec![(2, id(4))]);
    assert_eq!(removals, vec![id(1)]);
}

#[test]
fn coarse_enough_nodes_stop_the_walk() {
    let mut tree = QuadTree::from_layer_packs(two_levels()).unwrap();
    tree.begin_update();
    tree.note_required(&Aabb2::new((0, 0), (2 * E0, 2 * E0)), 2 * E0 as i64);
    let mut additions = Vec::new();
    let mut removals = Vec::new();
    tree.finish_update(&mut additions, &mut removals);
    assert_eq!(additions, vec![(1, id(0))]);

    tree.begin_update();
    tree.note_required(&Aabb2::new((0, 0), (2 * E0, 2 * E0)), E1 as i64);
    let mut additions = Vec::new();
    let mut removals = Vec::new();
    tree.finish_update(&mut additions, &mut removals);
    assert_eq!(additions, vec![(1, id(1)), (1, id(2)), (1, id(3)), (1, id(4))]);
    assert!(removals.is_empty());
}

#[test]
fn boxes_overlap_when_they_share_a_point() {
    let a = Aabb2::new((0, 0), (10, 10));
    assert!(a.overlaps(&Aabb2::new((10, 10), (20, 20))));
    assert!(!a.overlaps(&Aabb2::new((11, 0), (20, 20))));
    assert!(a.overlaps(&Aabb2::new((-5, -5), (0, 0))));
}

#[test]
fn the_tile_cache_follows_the_tree_frame_by_frame() {
    let mut tree = QuadTree::from_layer_packs(two_levels()).unwrap();
    let mut cache = TileCache::new(3);
    let windows = [
        Aabb2::new((0, 0), (10, 10)),
        Aabb2::new((E1 + 10, 0), (E1 + 20, E1 + 20)),
        Aabb2::new((0, 0), (2 * E0, 2 * E0)),
    ];
    for window in windows.iter() {
        tree.begin_update();
        tree.note_required(window, 0);
        let mut additions = Vec::new();
        let mut removals = Vec::new();
        tree.finish_update(&mut additions, &mut removals);
        cache.apply_visibility(&additions, &removals);
    }
    // The last frame asked for every node: all five are kept, three with slots.
    let kept: Vec<Option<TileState>> = (0..5).map(|i| cache.state(id(i))).collect();
    assert!(kept.iter().all(|s| s.is_some()));
    assert_eq!(
        kept.iter().filter(|s| matches!(s, Some(TileState::NoSpace))).count(),
        2
    );
}
