use wgpu_buffer::layer_pack::{
    LayerPack, LayerPackCursor, LayerPackError, LayerPackHeader, LayerPackIndexItem,
    HEADER_MAGIC, HEADER_SIZE, HEADER_VERSION, INDEX_ITEM_SIZE,
};
use wgpu_buffer::tile::TileCompression;

fn header(tile_count: u32, index_start: u32, tile_start: u32) -> LayerPackHeader {
    LayerPackHeader {
        magic: HEADER_MAGIC,
        version: HEADER_VERSION,
        angular_extent_as: -1234,
        tile_count,
        tile_level: 3,
        tile_compression: 1,
        index_start,
        tile_start,
    }
}

#[test]
fn header_bytes_are_little_endian() {
    let h = header(2, 24, 80);
    let b = h.as_bytes();
    assert_eq!(b.len(), HEADER_SIZE);
    assert_eq!(&b[0..4], &[76, 80, 75, 1]);
    assert_eq!(&b[4..8], &(-1234i32).to_le_bytes());
    assert_eq!(&b[8..12], &[2, 0, 0, 0]);
    assert_eq!(&b[12..14], &[3, 0]);
    assert_eq!(&b[14..16], &[1, 0]);
    assert_eq!(&b[16..20], &[24, 0, 0, 0]);
    assert_eq!(&b[20..24], &[80, 0, 0, 0]);
    assert_eq!(LayerPackHeader::overlay(&b), Ok(h));
}

#[test]
fn header_of_wrong_size_is_refused() {
    assert_eq!(LayerPackHeader::overlay(&[0u8; 23]), Err(LayerPackError::HeaderSize));
    assert_eq!(LayerPack::new(1, &[0u8; 25]).err(), Some(LayerPackError::HeaderSize));
}

#[test]
fn index_items_round_trip() {
    let item = LayerPackIndexItem {
        base_lat_as: -7,
        base_lon_as: 1 << 20,
        index_in_parent: 3,
        tile_start: 1 << 40,
        tile_end: (1 << 40) + 99,
    };
    let b = item.as_bytes();
    assert_eq!(b.len(), INDEX_ITEM_SIZE);
    assert_eq!(LayerPackIndexItem::overlay(&b), Ok(item));
    let mut two = b.clone();
    two.extend_from_slice(&b);
    assert_eq!(LayerPackIndexItem::overlay_slice(&two), Ok(vec![item, item]));
    assert_eq!(
        LayerPackIndexItem::overlay_slice(&two[1..]),
        Err(LayerPackError::IndexSize)
    );
    assert_eq!(LayerPackIndexItem::overlay_slice(&[]), Ok(vec![]));
}

#[test]
fn packs_describe_their_header() {
    let pack = LayerPack::new(42, &header(2, 24, 80).as_bytes()).unwrap();
    assert_eq!(pack.file_id(), 42);
    assert_eq!(pack.tile_count(), 2);
    assert_eq!(pack.angular_extent_as(), -1234);
    assert_eq!(pack.terrain_level().offset(), 3);
    assert_eq!(pack.tile_compression(), TileCompression::Bz2);
    assert_eq!(pack.index_extent(), (24, 80));
}

#[test]
fn bad_headers_name_their_fault() {
    let mut h = header(2, 24, 80);
    h.magic = [76, 80, 76];
    assert_eq!(LayerPack::new(0, &h.as_bytes()).err(), Some(LayerPackError::BadMagic));
    let mut h = header(2, 24, 80);
    h.version = 2;
    assert_eq!(LayerPack::new(0, &h.as_bytes()).err(), Some(LayerPackError::BadVersion));
    let h = header(2, 80, 24);
    assert_eq!(
        LayerPack::new(0, &h.as_bytes()).err(),
        Some(LayerPackError::IndexRangeInverted)
    );
    let h = header(2, 24, 81);
    assert_eq!(
        LayerPack::new(0, &h.as_bytes()).err(),
        Some(LayerPackError::IndexMisaligned)
    );
}

#[test]
fn written_packs_read_back() {
    let (mut cursor, h) = LayerPackCursor::new(3, 5, TileCompression::Uncompressed, 4096);
    assert_eq!(cursor.index_cursor, 24);
    assert_eq!(cursor.tile_cursor, 24 + 3 * 28);
    let pack = LayerPack::new(9, &h.as_bytes()).unwrap();
    assert_eq!(pack.tile_count(), 3);
    assert_eq!(pack.terrain_level().offset(), 5);
    assert_eq!(pack.angular_extent_as(), 4096);
    assert_eq!(pack.tile_compression(), TileCompression::Uncompressed);

    let (item, index_at, tile_at) = cursor.push_tile((10, 20), 2, 100).unwrap();
    assert_eq!((index_at, tile_at), (24, 108));
    assert_eq!(item.tile_start, 108);
    assert_eq!(item.tile_end, 208);
    assert_eq!((item.base_lat_as, item.base_lon_as, item.index_in_parent), (10, 20, 2));
    assert!(cursor.push_tile((0, 0), 0, 0).is_none());
    let (item, index_at, tile_at) = cursor.push_tile((30, 40), 1, 5).unwrap();
    assert_eq!((index_at, tile_at), (52, 208));
    assert_eq!((item.tile_start, item.tile_end), (208, 213));
    assert_eq!((cursor.index_cursor, cursor.tile_cursor), (80, 213));
}
