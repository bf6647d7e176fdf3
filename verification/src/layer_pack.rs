//! Layer packs: one file per level of the tile pyramid, holding a header, an index with one item
//! per tile, and the tile data. Terrain tile layers hold hundreds of thousands of tiles; packing
//! them by layer keeps the catalog fast and lets tiles be found by coordinate and level.
//!
//! All integers are stored little-endian and packed without padding.
use vstd::prelude::*;
use vstd::bytes::*;
use vstd::slice::slice_subrange;
use crate::tile::{TerrainLevel, TileCompression, compression_code};

verus! {

/// Bytes of a header.
pub const HEADER_SIZE: usize = 24;

/// Bytes of an index item.
pub const INDEX_ITEM_SIZE: usize = 28;

/// The magic bytes that open every layer pack.
pub const HEADER_MAGIC: [u8; 3] = [76u8, 80u8, 75u8];

/// The format version written and accepted.
pub const HEADER_VERSION: u8 = 1;

/// The header of a layer pack. The index occupies `index_start..tile_start`; tile data follows.
#[derive(Copy, Clone, Debug, PartialEq, Eq)]
pub struct LayerPackHeader {
    pub magic: [u8; 3],
    pub version: u8,
    pub angular_extent_as: i32,
    pub tile_count: u32,
    pub tile_level: u16,
    pub tile_compression: u16,
    pub index_start: u32,
    pub tile_start: u32,
}

/// One tile of a layer: its base corner in arcseconds, its position in its parent, and where
/// its bytes are, relative to the start of the file.
#[derive(Copy, Clone, Debug, PartialEq, Eq, Structural)]
pub struct LayerPackIndexItem {
    pub base_lat_as: i32,
    pub base_lon_as: i32,
    pub index_in_parent: u32,
    pub tile_start: u64,
    pub tile_end: u64,
}

/// A little-endian `u16` at `off`.
pub open spec fn le_u16(b: Seq<u8>, off: int) -> u16 {
    spec_u16_from_le_bytes(b.subrange(off, off + 2))
}

/// A little-endian `u32` at `off`.
pub open spec fn le_u32(b: Seq<u8>, off: int) -> u32 {
    spec_u32_from_le_bytes(b.subrange(off, off + 4))
}

/// A little-endian `u64` at `off`.
pub open spec fn le_u64(b: Seq<u8>, off: int) -> u64 {
    spec_u64_from_le_bytes(b.subrange(off, off + 8))
}

/// The header stored in 24 bytes.
pub open spec fn header_of(b: Seq<u8>) -> LayerPackHeader {
    LayerPackHeader {
        magic: [b[0], b[1], b[2]],
        version: b[3],
        angular_extent_as: le_u32(b, 4) as i32,
        tile_count: le_u32(b, 8),
        tile_level: le_u16(b, 12),
        tile_compression: le_u16(b, 14),
        index_start: le_u32(b, 16),
        tile_start: le_u32(b, 20),
    }
}

/// The 24 bytes that store a header.
pub open spec fn header_bytes(h: LayerPackHeader) -> Seq<u8> {
    seq![h.magic[0], h.magic[1], h.magic[2], h.version] + spec_u32_to_le_bytes(
        h.angular_extent_as as u32,
    ) + spec_u32_to_le_bytes(h.tile_count) + spec_u16_to_le_bytes(h.tile_level)
        + spec_u16_to_le_bytes(h.tile_compression) + spec_u32_to_le_bytes(h.index_start)
        + spec_u32_to_le_bytes(h.tile_start)
}

/// The index item stored in 28 bytes.
pub open spec fn item_of(b: Seq<u8>) -> LayerPackIndexItem {
    LayerPackIndexItem {
        base_lat_as: le_u32(b, 0) as i32,
        base_lon_as: le_u32(b, 4) as i32,
        index_in_parent: le_u32(b, 8),
        tile_start: le_u64(b, 12),
        tile_end: le_u64(b, 20),
    }
}

/// The 28 bytes that store an index item.
pub open spec fn item_bytes(t: LayerPackIndexItem) -> Seq<u8> {
    spec_u32_to_le_bytes(t.base_lat_as as u32) + spec_u32_to_le_bytes(t.base_lon_as as u32)
        + spec_u32_to_le_bytes(t.index_in_parent) + spec_u64_to_le_bytes(t.tile_start)
        + spec_u64_to_le_bytes(t.tile_end)
}

/// Why layer-pack bytes were refused.
#[derive(Copy, Clone, Debug, PartialEq, Eq, Structural)]
pub enum LayerPackError {
    /// The header is not exactly 24 bytes.
    HeaderSize,
    /// The index is not a whole number of 28-byte items.
    IndexSize,
    /// The file does not start with the magic bytes.
    BadMagic,
    /// The format version is not the one supported.
    BadVersion,
    /// The index ends before it starts.
    IndexRangeInverted,
    /// The index does not hold a whole number of items.
    IndexMisaligned,
}

proof fn lemma_i32_u32_round_trip(x: i32)
    ensures
        (x as u32) as i32 == x,
{
    assert((x as u32) as i32 == x) by (bit_vector);
}

impl LayerPackHeader {
    /// Read a header from exactly 24 bytes.
    pub fn overlay(b: &[u8]) -> (r: Result<Self, LayerPackError>)
        ensures
            match r {
                Ok(h) => b@.len() == HEADER_SIZE && h == header_of(b@),
                Err(e) => b@.len() != HEADER_SIZE && e == LayerPackError::HeaderSize,
            },
    {
        if b.len() != HEADER_SIZE {
            return Err(LayerPackError::HeaderSize);
        }
        let h = LayerPackHeader {
            magic: [b[0], b[1], b[2]],
            version: b[3],
            angular_extent_as: u32_from_le_bytes(slice_subrange(b, 4, 8)) as i32,
            tile_count: u32_from_le_bytes(slice_subrange(b, 8, 12)),
            tile_level: u16_from_le_bytes(slice_subrange(b, 12, 14)),
            tile_compression: u16_from_le_bytes(slice_subrange(b, 14, 16)),
            index_start: u32_from_le_bytes(slice_subrange(b, 16, 20)),
            tile_start: u32_from_le_bytes(slice_subrange(b, 20, 24)),
        };
        Ok(h)
    }

    /// The 24 bytes that store this header.
    pub fn as_bytes(&self) -> (r: Vec<u8>)
        ensures
            r@ == header_bytes(*self),
            r@.len() == HEADER_SIZE,
    {
        proof {
            lemma_auto_spec_u32_to_from_le_bytes();
            lemma_auto_spec_u16_to_from_le_bytes();
        }
        let mut r: Vec<u8> = Vec::new();
        r.push(self.magic[0]);
        r.push(self.magic[1]);
        r.push(self.magic[2]);
        r.push(self.version);
        let mut a = u32_to_le_bytes(self.angular_extent_as as u32);
        r.append(&mut a);
        let mut c = u32_to_le_bytes(self.tile_count);
        r.append(&mut c);
        let mut l = u16_to_le_bytes(self.tile_level);
        r.append(&mut l);
        let mut z = u16_to_le_bytes(self.tile_compression);
        r.append(&mut z);
        let mut i = u32_to_le_bytes(self.index_start);
        r.append(&mut i);
        let mut t = u32_to_le_bytes(self.tile_start);
        r.append(&mut t);
        assert(r@ =~= header_bytes(*self));
        r
    }
}

impl LayerPackIndexItem {
    /// Read one index item from exactly 28 bytes.
    pub fn overlay(b: &[u8]) -> (r: Result<Self, LayerPackError>)
        ensures
            match r {
                Ok(t) => b@.len() == INDEX_ITEM_SIZE && t == item_of(b@),
                Err(e) => b@.len() != INDEX_ITEM_SIZE && e == LayerPackError::IndexSize,
            },
    {
        if b.len() != INDEX_ITEM_SIZE {
            return Err(LayerPackError::IndexSize);
        }
        Ok(
            LayerPackIndexItem {
                base_lat_as: u32_from_le_bytes(slice_subrange(b, 0, 4)) as i32,
                base_lon_as: u32_from_le_bytes(slice_subrange(b, 4, 8)) as i32,
                index_in_parent: u32_from_le_bytes(slice_subrange(b, 8, 12)),
                tile_start: u64_from_le_bytes(slice_subrange(b, 12, 20)),
                tile_end: u64_from_le_bytes(slice_subrange(b, 20, 28)),
            },
        )
    }

    /// Read a whole index: a whole number of 28-byte items.
    pub fn overlay_slice(b: &[u8]) -> (r: Result<Vec<Self>, LayerPackError>)
        ensures
            match r {
                Ok(items) => b@.len() % 28 == 0 && items@.len() == b@.len()
                    / 28 && forall|i: int|
                    0 <= i < items@.len() ==> #[trigger] items@[i] == item_of(
                        b@.subrange(i * 28, i * 28 + 28),
                    ),
                Err(e) => b@.len() % 28 != 0 && e == LayerPackError::IndexSize,
            },
    {
        if b.len() % INDEX_ITEM_SIZE != 0 {
            return Err(LayerPackError::IndexSize);
        }
        let n = b.len() / INDEX_ITEM_SIZE;
        let mut items: Vec<Self> = Vec::new();
        let mut i: usize = 0;
        while i < n
            invariant
                n == b@.len() / 28,
                b@.len() % 28 == 0,
                b@.len() <= usize::MAX,
                0 <= i <= n,
                items@.len() == i,
                forall|j: int|
                    0 <= j < i ==> #[trigger] items@[j] == item_of(b@.subrange(j * 28, j * 28 + 28)),
            decreases n - i,
        {
            assert(i * 28 + 28 <= b@.len()) by (nonlinear_arith)
                requires
                    i < n,
                    n == b@.len() / 28,
                    b@.len() % 28 == 0,
            ;
            let s = slice_subrange(b, i * 28, i * 28 + 28);
            let t = Self::overlay(s);
            match t {
                Ok(t) => items.push(t),
                Err(_) => {},
            }
            i = i + 1;
        }
        Ok(items)
    }

    /// The 28 bytes that store this item.
    pub fn as_bytes(&self) -> (r: Vec<u8>)
        ensures
            r@ == item_bytes(*self),
            r@.len() == INDEX_ITEM_SIZE,
    {
        proof {
            lemma_auto_spec_u32_to_from_le_bytes();
            lemma_auto_spec_u64_to_from_le_bytes();
        }
        let mut r = u32_to_le_bytes(self.base_lat_as as u32);
        let mut a = u32_to_le_bytes(self.base_lon_as as u32);
        r.append(&mut a);
        let mut p = u32_to_le_bytes(self.index_in_parent);
        r.append(&mut p);
        let mut s = u64_to_le_bytes(self.tile_start);
        r.append(&mut s);
        let mut e = u64_to_le_bytes(self.tile_end);
        r.append(&mut e);
        assert(r@ =~= item_bytes(*self));
        r
    }
}

/// The outcome of reading a layer pack's header: the pack, or why it is refused.
pub open spec fn pack_check(h: LayerPackHeader) -> Result<(), LayerPackError> {
    if h.magic != HEADER_MAGIC {
        Err(LayerPackError::BadMagic)
    } else if h.version != HEADER_VERSION {
        Err(LayerPackError::BadVersion)
    } else if h.tile_start < h.index_start {
        Err(LayerPackError::IndexRangeInverted)
    } else if (h.tile_start - h.index_start) % 28 != 0 {
        Err(LayerPackError::IndexMisaligned)
    } else {
        Ok(())
    }
}

/// What the catalog needs to know of one layer pack.
#[derive(Copy, Clone, Debug)]
pub struct LayerPack {
    layer_pack_fid: usize,
    terrain_level: TerrainLevel,
    angular_extent_as: i32,
    index_extent: (usize, usize),
    tile_count: usize,
    tile_compression: TileCompression,
}

/// The abstract content of a layer pack.
pub struct LayerPackView {
    pub file_id: usize,
    pub terrain_level: nat,
    pub angular_extent_as: int,
    pub index_start: nat,
    pub index_end: nat,
    pub tile_count: nat,
    pub tile_compression: TileCompression,
}

impl View for LayerPack {
    type V = LayerPackView;

    closed spec fn view(&self) -> LayerPackView {
        LayerPackView {
            file_id: self.layer_pack_fid,
            terrain_level: self.terrain_level.0 as nat,
            angular_extent_as: self.angular_extent_as as int,
            index_start: self.index_extent.0 as nat,
            index_end: self.index_extent.1 as nat,
            tile_count: self.tile_count as nat,
            tile_compression: self.tile_compression,
        }
    }
}

/// The layer pack described by an accepted header.
pub open spec fn pack_of(file_id: usize, h: LayerPackHeader) -> LayerPackView {
    LayerPackView {
        file_id,
        terrain_level: h.tile_level as nat,
        angular_extent_as: h.angular_extent_as as int,
        index_start: h.index_start as nat,
        index_end: h.tile_start as nat,
        tile_count: ((h.tile_start - h.index_start) / 28) as nat,
        tile_compression: if h.tile_compression == 0 {
            TileCompression::Uncompressed
        } else {
            TileCompression::Bz2
        },
    }
}

impl LayerPack {
    /// Describe the layer pack `layer_pack_fid` from the first 24 bytes of its file. An
    /// accepted header must name one of the two compression schemes.
    pub fn new(layer_pack_fid: usize, header_raw: &[u8]) -> (r: Result<Self, LayerPackError>)
        requires
            header_raw@.len() == HEADER_SIZE && pack_check(header_of(header_raw@)) is Ok
                ==> header_of(header_raw@).tile_compression <= 1,
        ensures
            header_raw@.len() != HEADER_SIZE ==> r == Err::<Self, LayerPackError>(
                LayerPackError::HeaderSize,
            ),
            header_raw@.len() == HEADER_SIZE ==> match r {
                Ok(p) => pack_check(header_of(header_raw@)) is Ok && p@ == pack_of(
                    layer_pack_fid,
                    header_of(header_raw@),
                ),
                Err(e) => pack_check(header_of(header_raw@)) == Err::<(), LayerPackError>(e),
            },
    {
        let header = match LayerPackHeader::overlay(header_raw) {
            Ok(h) => h,
            Err(e) => return Err(e),
        };
        if !(header.magic[0] == HEADER_MAGIC[0] && header.magic[1] == HEADER_MAGIC[1]
            && header.magic[2] == HEADER_MAGIC[2]) {
            assert(header.magic != HEADER_MAGIC);
            return Err(LayerPackError::BadMagic);
        }
        assert(header.magic =~= HEADER_MAGIC);
        if header.version != HEADER_VERSION {
            return Err(LayerPackError::BadVersion);
        }
        if header.tile_start < header.index_start {
            return Err(LayerPackError::IndexRangeInverted);
        }
        let index_bytes = header.tile_start - header.index_start;
        if index_bytes % 28 != 0 {
            return Err(LayerPackError::IndexMisaligned);
        }
        Ok(
            Self {
                layer_pack_fid,
                angular_extent_as: header.angular_extent_as,
                terrain_level: TerrainLevel::new(header.tile_level as usize),
                index_extent: (header.index_start as usize, header.tile_start as usize),
                tile_count: (index_bytes / 28) as usize,
                tile_compression: TileCompression::from_u16(header.tile_compression),
            },
        )
    }

    /// How the tiles are stored.
    pub fn tile_compression(&self) -> (r: TileCompression)
        ensures
            r == self@.tile_compression,
    {
        self.tile_compression
    }

    /// Arcseconds covered by one tile of this layer.
    pub fn angular_extent_as(&self) -> (r: i32)
        ensures
            r == self@.angular_extent_as,
    {
        self.angular_extent_as
    }

    /// The level of the pyramid this layer holds.
    pub fn terrain_level(&self) -> (r: TerrainLevel)
        ensures
            r.0 == self@.terrain_level,
    {
        self.terrain_level
    }

    /// Number of tiles in the layer.
    pub fn tile_count(&self) -> (r: usize)
        ensures
            r == self@.tile_count,
    {
        self.tile_count
    }

    /// The file the layer is stored in.
    pub fn file_id(&self) -> (r: usize)
        ensures
            r == self@.file_id,
    {
        self.layer_pack_fid
    }

    /// The byte range of the index within the file, as (start, end).
    pub fn index_extent(&self) -> (r: (usize, usize))
        ensures
            r == (self@.index_start as usize, self@.index_end as usize),
    {
        self.index_extent
    }
}

/// The header that the layer-pack writer emits for `tile_count` tiles: the index follows the
/// header directly and the tile data follows the index.
pub open spec fn built_header(
    tile_count: usize,
    tile_level: u32,
    compression: TileCompression,
    angular_extent_as: i32,
) -> LayerPackHeader {
    LayerPackHeader {
        magic: HEADER_MAGIC,
        version: HEADER_VERSION,
        angular_extent_as,
        tile_count: tile_count as u32,
        tile_level: tile_level as u16,
        tile_compression: compression_code(compression),
        index_start: HEADER_SIZE as u32,
        tile_start: (HEADER_SIZE + INDEX_ITEM_SIZE * tile_count) as u32,
    }
}

/// Where the layer-pack writer puts the next index item and the next tile's bytes.
#[derive(Copy, Clone, Debug)]
pub struct LayerPackCursor {
    pub index_cursor: u64,
    pub tile_cursor: u64,
}

impl LayerPackCursor {
    /// The header for a pack of `tile_count` tiles and the cursors just past it and past the
    /// index it reserves.
    pub fn new(
        tile_count: usize,
        tile_level: u32,
        tile_compression: TileCompression,
        angular_extent_as: i32,
    ) -> (r: (Self, LayerPackHeader))
        requires
            HEADER_SIZE + INDEX_ITEM_SIZE * tile_count <= usize::MAX,
        ensures
            r.1 == built_header(tile_count, tile_level, tile_compression, angular_extent_as),
            r.0.index_cursor == HEADER_SIZE,
            r.0.tile_cursor == HEADER_SIZE + INDEX_ITEM_SIZE * tile_count,
    {
        let index_start = HEADER_SIZE;
        let tile_start = index_start + INDEX_ITEM_SIZE * tile_count;
        let header = LayerPackHeader {
            magic: HEADER_MAGIC,
            version: HEADER_VERSION,
            angular_extent_as,
            tile_count: tile_count as u32,
            tile_level: tile_level as u16,
            tile_compression: tile_compression.code(),
            index_start: index_start as u32,
            tile_start: tile_start as u32,
        };
        (Self { index_cursor: index_start as u64, tile_cursor: tile_start as u64 }, header)
    }

    /// Account for one tile of `data_len` bytes: the index item to write at the returned index
    /// offset and the offset to write the tile bytes at. Empty tiles are skipped.
    pub fn push_tile(&mut self, base: (i32, i32), index_in_parent: u32, data_len: usize) -> (r:
        Option<(LayerPackIndexItem, u64, u64)>)
        requires
            old(self).tile_cursor + data_len <= u64::MAX,
            old(self).index_cursor + INDEX_ITEM_SIZE <= u64::MAX,
        ensures
            data_len == 0 ==> r is None && *final(self) == *old(self),
            data_len > 0 ==> r == Some(
                (
                    LayerPackIndexItem {
                        base_lat_as: base.0,
                        base_lon_as: base.1,
                        index_in_parent,
                        tile_start: old(self).tile_cursor,
                        tile_end: (old(self).tile_cursor + data_len) as u64,
                    },
                    old(self).index_cursor,
                    old(self).tile_cursor,
                ),
            ) && final(self).index_cursor == old(self).index_cursor + INDEX_ITEM_SIZE
                && final(self).tile_cursor == old(self).tile_cursor + data_len,
            (r, *final(self)) == push_step(*old(self), base, index_in_parent, data_len as nat),
    {
        if data_len == 0 {
            return None;
        }
        let item = LayerPackIndexItem {
            base_lat_as: base.0,
            base_lon_as: base.1,
            index_in_parent,
            tile_start: self.tile_cursor,
            tile_end: self.tile_cursor + data_len as u64,
        };
        let at = (item, self.index_cursor, self.tile_cursor);
        self.index_cursor = self.index_cursor + INDEX_ITEM_SIZE as u64;
        self.tile_cursor = self.tile_cursor + data_len as u64;
        Some(at)
    }
}

/// What the writer does with one tile of `len` bytes from cursor `c`: an empty tile is
/// skipped; any other gets an index item, written at the index cursor, for the bytes written at
/// the tile cursor, and both cursors move past what was written.
pub open spec fn push_step(c: LayerPackCursor, base: (i32, i32), index_in_parent: u32, len: nat) -> (
    Option<(LayerPackIndexItem, u64, u64)>,
    LayerPackCursor,
) {
    if len == 0 {
        (None, c)
    } else {
        (
            Some(
                (
                    LayerPackIndexItem {
                        base_lat_as: base.0,
                        base_lon_as: base.1,
                        index_in_parent,
                        tile_start: c.tile_cursor,
                        tile_end: (c.tile_cursor + len) as u64,
                    },
                    c.index_cursor,
                    c.tile_cursor,
                ),
            ),
            LayerPackCursor {
                index_cursor: (c.index_cursor + INDEX_ITEM_SIZE) as u64,
                tile_cursor: (c.tile_cursor + len) as u64,
            },
        )
    }
}

/// A tile to write: its corner, its position in its parent and its byte count.
pub type TileToWrite = ((i32, i32), u32, nat);

/// The writes for the tiles `tiles`, in order, from cursor `c`, and the cursor after.
pub open spec fn pushed_all(c: LayerPackCursor, tiles: Seq<TileToWrite>) -> (
    Seq<(LayerPackIndexItem, u64, u64)>,
    LayerPackCursor,
)
    decreases tiles.len(),
{
    if tiles.len() == 0 {
        (seq![], c)
    } else {
        let (writes, d) = pushed_all(c, tiles.drop_last());
        let t = tiles.last();
        let (w, e) = push_step(d, t.0, t.1, t.2);
        match w {
            Some(x) => (writes.push(x), e),
            None => (writes, e),
        }
    }
}

/// The bytes of the first `i` tiles.
pub open spec fn bytes_before(tiles: Seq<TileToWrite>, i: int) -> nat
    decreases i,
{
    if i <= 0 {
        0
    } else {
        bytes_before(tiles, i - 1) + tiles[i - 1].2
    }
}

/// Writing non-empty tiles one after the other from cursor `c` lays out the index and the tile
/// data back to back: tile `i` gets the item for its corner and position that covers the bytes
/// from the tile cursor plus the bytes of the tiles before it, written at the index cursor plus
/// `i` items; the cursors end past all items and all bytes.
pub proof fn lemma_pushes_lay_out_tiles(c: LayerPackCursor, tiles: Seq<TileToWrite>)
    requires
        forall|i: int| 0 <= i < tiles.len() ==> (#[trigger] tiles[i]).2 > 0,
        c.tile_cursor + bytes_before(tiles, tiles.len() as int) <= u64::MAX,
        c.index_cursor + INDEX_ITEM_SIZE * tiles.len() <= u64::MAX,
    ensures
        ({
            let (writes, d) = pushed_all(c, tiles);
            &&& writes.len() == tiles.len()
            &&& forall|i: int|
                0 <= i < tiles.len() ==> #[trigger] writes[i] == (
                    LayerPackIndexItem {
                        base_lat_as: tiles[i].0.0,
                        base_lon_as: tiles[i].0.1,
                        index_in_parent: tiles[i].1,
                        tile_start: (c.tile_cursor + bytes_before(tiles, i)) as u64,
                        tile_end: (c.tile_cursor + bytes_before(tiles, i + 1)) as u64,
                    },
                    (c.index_cursor + INDEX_ITEM_SIZE * i) as u64,
                    (c.tile_cursor + bytes_before(tiles, i)) as u64,
                )
            &&& d.index_cursor == c.index_cursor + INDEX_ITEM_SIZE * tiles.len()
            &&& d.tile_cursor == c.tile_cursor + bytes_before(tiles, tiles.len() as int)
        }),
    decreases tiles.len(),
{
    if tiles.len() > 0 {
        let p = tiles.drop_last();
        let n = p.len() as int;
        assert forall|i: int| 0 <= i <= n implies bytes_before(p, i) == bytes_before(tiles, i) by {
            lemma_bytes_before_prefix(tiles, p, i);
        }
        lemma_bytes_before_grows(tiles, n);
        assert forall|i: int| 0 <= i < p.len() implies (#[trigger] p[i]).2 > 0 by {
            assert(p[i] == tiles[i]);
        }
        assert(INDEX_ITEM_SIZE * n <= INDEX_ITEM_SIZE * tiles.len()) by (nonlinear_arith)
            requires
                n < tiles.len(),
        ;
        lemma_pushes_lay_out_tiles(c, p);
        let (writes, d) = pushed_all(c, p);
        assert(tiles.last() == tiles[n]);
        assert(INDEX_ITEM_SIZE * (n + 1) == INDEX_ITEM_SIZE * n + INDEX_ITEM_SIZE) by (nonlinear_arith);
        let all = pushed_all(c, tiles).0;
        assert forall|i: int| 0 <= i < tiles.len() implies #[trigger] all[i] == (
            LayerPackIndexItem {
                base_lat_as: tiles[i].0.0,
                base_lon_as: tiles[i].0.1,
                index_in_parent: tiles[i].1,
                tile_start: (c.tile_cursor + bytes_before(tiles, i)) as u64,
                tile_end: (c.tile_cursor + bytes_before(tiles, i + 1)) as u64,
            },
            (c.index_cursor + INDEX_ITEM_SIZE * i) as u64,
            (c.tile_cursor + bytes_before(tiles, i)) as u64,
        ) by {
            if i < n {
                assert(all[i] == writes[i]);
                assert(p[i] == tiles[i]);
            }
        }
    }
}

/// The bytes before tile `i` are the same in any run of tiles that starts with the same `i`
/// tiles.
proof fn lemma_bytes_before_prefix(tiles: Seq<TileToWrite>, p: Seq<TileToWrite>, i: int)
    requires
        p.len() <= tiles.len(),
        0 <= i <= p.len(),
        forall|j: int| 0 <= j < p.len() ==> p[j] == tiles[j],
    ensures
        bytes_before(p, i) == bytes_before(tiles, i),
    decreases i,
{
    if i > 0 {
        lemma_bytes_before_prefix(tiles, p, i - 1);
    }
}

/// The bytes before a tile are at most the bytes before any later tile.
proof fn lemma_bytes_before_grows(tiles: Seq<TileToWrite>, i: int)
    requires
        0 <= i <= tiles.len(),
    ensures
        forall|j: int| 0 <= j <= i ==> bytes_before(tiles, j) <= bytes_before(tiles, i),
    decreases i,
{
    if i > 0 {
        lemma_bytes_before_grows(tiles, i - 1);
    }
}

/// A pack written for `tile_count` tiles is read back with that many tiles, its level, extent
/// and compression, whenever its tile data starts at an offset that fits the header field.
pub proof fn lemma_built_pack_reads_back(
    file_id: usize,
    tile_count: usize,
    tile_level: u16,
    compression: TileCompression,
    angular_extent_as: i32,
)
    requires
        HEADER_SIZE + INDEX_ITEM_SIZE * tile_count <= u32::MAX,
    ensures
        ({
            let h = built_header(tile_count, tile_level as u32, compression, angular_extent_as);
            let b = header_bytes(h);
            &&& b.len() == HEADER_SIZE
            &&& pack_check(header_of(b)) is Ok
            &&& pack_of(file_id, header_of(b)) == (LayerPackView {
                file_id,
                terrain_level: tile_level as nat,
                angular_extent_as: angular_extent_as as int,
                index_start: HEADER_SIZE as nat,
                index_end: (HEADER_SIZE + INDEX_ITEM_SIZE * tile_count) as nat,
                tile_count: tile_count as nat,
                tile_compression: compression,
            })
        }),
{
    let h = built_header(tile_count, tile_level as u32, compression, angular_extent_as);
    lemma_header_round_trip(h);
    assert(((tile_level as u32) as u16) == tile_level);
    assert(h.tile_start - h.index_start == INDEX_ITEM_SIZE * tile_count);
    assert((INDEX_ITEM_SIZE * tile_count) % 28 == 0) by (nonlinear_arith);
    assert((INDEX_ITEM_SIZE * tile_count) / 28 == tile_count) by (nonlinear_arith);
}

/// Reading back the bytes of a header gives the header.
pub proof fn lemma_header_round_trip(h: LayerPackHeader)
    ensures
        header_bytes(h).len() == HEADER_SIZE,
        header_of(header_bytes(h)) == h,
{
    lemma_auto_spec_u32_to_from_le_bytes();
    lemma_auto_spec_u16_to_from_le_bytes();
    lemma_i32_u32_round_trip(h.angular_extent_as);
    let b = header_bytes(h);
    assert(b.subrange(4, 8) =~= spec_u32_to_le_bytes(h.angular_extent_as as u32));
    assert(b.subrange(8, 12) =~= spec_u32_to_le_bytes(h.tile_count));
    assert(b.subrange(12, 14) =~= spec_u16_to_le_bytes(h.tile_level));
    assert(b.subrange(14, 16) =~= spec_u16_to_le_bytes(h.tile_compression));
    assert(b.subrange(16, 20) =~= spec_u32_to_le_bytes(h.index_start));
    assert(b.subrange(20, 24) =~= spec_u32_to_le_bytes(h.tile_start));
    assert(header_of(b).magic =~= h.magic);
}

/// Where each field of an index item lies in its 28 bytes, both ways: reading 28 bytes gives
/// the latitude whose little-endian bytes are bytes 0..4, the longitude at bytes 4..8, the
/// position in the parent at 8..12, the start of the tile data at 12..20 and its end at 20..28;
/// writing an item puts each field at those same offsets.
pub proof fn lemma_item_field_offsets(b: Seq<u8>, t: LayerPackIndexItem)
    requires
        b.len() == INDEX_ITEM_SIZE,
    ensures
        spec_u32_to_le_bytes(item_of(b).base_lat_as as u32) == b.subrange(0, 4),
        spec_u32_to_le_bytes(item_of(b).base_lon_as as u32) == b.subrange(4, 8),
        spec_u32_to_le_bytes(item_of(b).index_in_parent) == b.subrange(8, 12),
        spec_u64_to_le_bytes(item_of(b).tile_start) == b.subrange(12, 20),
        spec_u64_to_le_bytes(item_of(b).tile_end) == b.subrange(20, 28),
        item_bytes(t).subrange(0, 4) == spec_u32_to_le_bytes(t.base_lat_as as u32),
        item_bytes(t).subrange(4, 8) == spec_u32_to_le_bytes(t.base_lon_as as u32),
        item_bytes(t).subrange(8, 12) == spec_u32_to_le_bytes(t.index_in_parent),
        item_bytes(t).subrange(12, 20) == spec_u64_to_le_bytes(t.tile_start),
        item_bytes(t).subrange(20, 28) == spec_u64_to_le_bytes(t.tile_end),
{
    lemma_auto_spec_u32_to_from_le_bytes();
    lemma_auto_spec_u64_to_from_le_bytes();
    let lat = le_u32(b, 0);
    let lon = le_u32(b, 4);
    assert((lat as i32) as u32 == lat) by (bit_vector);
    assert((lon as i32) as u32 == lon) by (bit_vector);
    assert(spec_u32_to_le_bytes(spec_u32_from_le_bytes(b.subrange(0, 4))) == b.subrange(0, 4));
    assert(spec_u32_to_le_bytes(spec_u32_from_le_bytes(b.subrange(4, 8))) == b.subrange(4, 8));
    assert(spec_u32_to_le_bytes(spec_u32_from_le_bytes(b.subrange(8, 12))) == b.subrange(8, 12));
    assert(spec_u64_to_le_bytes(spec_u64_from_le_bytes(b.subrange(12, 20))) == b.subrange(12, 20));
    assert(spec_u64_to_le_bytes(spec_u64_from_le_bytes(b.subrange(20, 28))) == b.subrange(20, 28));
    let tb = item_bytes(t);
    assert(tb.subrange(0, 4) =~= spec_u32_to_le_bytes(t.base_lat_as as u32));
    assert(tb.subrange(4, 8) =~= spec_u32_to_le_bytes(t.base_lon_as as u32));
    assert(tb.subrange(8, 12) =~= spec_u32_to_le_bytes(t.index_in_parent));
    assert(tb.subrange(12, 20) =~= spec_u64_to_le_bytes(t.tile_start));
    assert(tb.subrange(20, 28) =~= spec_u64_to_le_bytes(t.tile_end));
}

/// Reading back the bytes of an index item gives the item.
pub proof fn lemma_item_round_trip(t: LayerPackIndexItem)
    ensures
        item_bytes(t).len() == INDEX_ITEM_SIZE,
        item_of(item_bytes(t)) == t,
{
    lemma_auto_spec_u32_to_from_le_bytes();
    lemma_auto_spec_u64_to_from_le_bytes();
    lemma_i32_u32_round_trip(t.base_lat_as);
    lemma_i32_u32_round_trip(t.base_lon_as);
    let b = item_bytes(t);
    assert(b.subrange(0, 4) =~= spec_u32_to_le_bytes(t.base_lat_as as u32));
    assert(b.subrange(4, 8) =~= spec_u32_to_le_bytes(t.base_lon_as as u32));
    assert(b.subrange(8, 12) =~= spec_u32_to_le_bytes(t.index_in_parent));
    assert(b.subrange(12, 20) =~= spec_u64_to_le_bytes(t.tile_start));
    assert(b.subrange(20, 28) =~= spec_u64_to_le_bytes(t.tile_end));
}

} // verus!
