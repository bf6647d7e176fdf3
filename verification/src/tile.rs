//! Tile geometry constants, data-set descriptors, terrain levels and quad-tree child indices.
use vstd::prelude::*;
use vstd::utf8::encode_utf8_decode_utf8;
use vstd::string::StringSliceAdditionalSpecFns;

verus! {

/// The physical number of pixels in the tile.
pub const TILE_PHYSICAL_SIZE: usize = 512;

/// Number of samples that the tile is wide and tall. This leaves a one pixel strip at each side
/// for linear filtering to pull from when we use this source as a texture.
pub const TILE_SAMPLES: i64 = 510;

/// Width and height of the tile coverage. Multiply with the tile scale to get width or height
/// in arcseconds.
pub const TILE_EXTENT: i64 = 509;

/// The finest level of the tile pyramid; its samples are one arcsecond apart.
pub const ARCSEC_LEVEL: usize = 12;

/// Byte-wise equality of two strings, which is equality of their characters.
pub fn str_eq(a: &str, b: &str) -> (r: bool)
    ensures
        r == (a@ == b@),
{
    let ab = a.as_bytes();
    let bb = b.as_bytes();
    proof {
        encode_utf8_decode_utf8(a@);
        encode_utf8_decode_utf8(b@);
    }
    if ab.len() != bb.len() {
        assert(ab@ != bb@);
        return false;
    }
    let mut i: usize = 0;
    while i < ab.len()
        invariant
            ab@ == a.spec_bytes(),
            bb@ == b.spec_bytes(),
            a@ == b@ ==> ab@ == bb@,
            ab.len() == bb.len(),
            0 <= i <= ab.len(),
            forall|j: int| 0 <= j < i ==> ab@[j] == bb@[j],
        decreases ab.len() - i,
    {
        if ab[i] != bb[i] {
            assert(ab@ != bb@);
            return false;
        }
        i = i + 1;
    }
    assert(ab@ =~= bb@);
    true
}

/// How the bytes of each tile are stored in a layer pack.
#[derive(Copy, Clone, Debug, PartialEq, Eq, Structural)]
pub enum TileCompression {
    Uncompressed,
    Bz2,
}

/// The stored code of a compression scheme.
pub open spec fn compression_code(c: TileCompression) -> u16 {
    match c {
        TileCompression::Uncompressed => 0,
        TileCompression::Bz2 => 1,
    }
}

impl TileCompression {
    /// Decode a stored compression code. Only 0 and 1 are valid codes.
    pub fn from_u16(i: u16) -> (r: Self)
        requires
            i <= 1,
        ensures
            compression_code(r) == i,
    {
        if i == 0 {
            TileCompression::Uncompressed
        } else {
            TileCompression::Bz2
        }
    }

    /// The stored code of this compression scheme.
    pub fn code(&self) -> (r: u16)
        ensures
            r == compression_code(*self),
            r <= 1,
    {
        match self {
            TileCompression::Uncompressed => 0,
            TileCompression::Bz2 => 1,
        }
    }
}

/// The coordinate system that a data set is sampled in.
#[derive(Copy, Clone, Debug, PartialEq, Eq, Structural)]
pub enum DataSetCoordinates {
    Spherical,
    CartesianPolar,
}

/// The name under which a coordinate system is listed in a data-set index.
pub open spec fn coordinates_name(c: DataSetCoordinates) -> Seq<char> {
    match c {
        DataSetCoordinates::Spherical => "spherical"@,
        DataSetCoordinates::CartesianPolar => "cartesian_polar"@,
    }
}

/// A name that does not denote any coordinate system or data kind.
#[derive(Copy, Clone, Debug, PartialEq, Eq, Structural)]
pub enum NameError {
    UnknownCoordinates,
    UnknownKind,
}

impl DataSetCoordinates {
    /// The name of this coordinate system.
    pub fn name(&self) -> (r: String)
        ensures
            r@ == coordinates_name(*self),
    {
        match self {
            Self::Spherical => "spherical".to_owned(),
            Self::CartesianPolar => "cartesian_polar".to_owned(),
        }
    }

    /// Parse a coordinate-system name; any other name is refused.
    pub fn from_name(name: &str) -> (r: Result<Self, NameError>)
        ensures
            match r {
                Ok(c) => coordinates_name(c) == name@,
                Err(e) => e == NameError::UnknownCoordinates && name@ != coordinates_name(
                    DataSetCoordinates::Spherical,
                ) && name@ != coordinates_name(DataSetCoordinates::CartesianPolar),
            },
    {
        if str_eq(name, "spherical") {
            Ok(Self::Spherical)
        } else if str_eq(name, "cartesian_polar") {
            Ok(Self::CartesianPolar)
        } else {
            Err(NameError::UnknownCoordinates)
        }
    }
}

/// The kind of samples a data set holds.
#[derive(Copy, Clone, Debug, PartialEq, Eq, Structural)]
pub enum DataSetDataKind {
    Color,
    Normal,
    Height,
}

/// The name under which a data kind is listed in a data-set index.
pub open spec fn kind_name(k: DataSetDataKind) -> Seq<char> {
    match k {
        DataSetDataKind::Color => "color"@,
        DataSetDataKind::Normal => "normal"@,
        DataSetDataKind::Height => "height"@,
    }
}

/// The sample formats that the atlas textures are created with.
#[derive(Copy, Clone, Debug, PartialEq, Eq, Structural)]
pub enum SampleFormat {
    Rgba8Unorm,
    Rg16Sint,
    R16Sint,
}

/// The atlas sample format of each data kind.
pub open spec fn kind_format(k: DataSetDataKind) -> SampleFormat {
    match k {
        DataSetDataKind::Color => SampleFormat::Rgba8Unorm,
        DataSetDataKind::Normal => SampleFormat::Rg16Sint,
        DataSetDataKind::Height => SampleFormat::R16Sint,
    }
}

/// Bytes per texel of each sample format.
pub open spec fn format_size(f: SampleFormat) -> u32 {
    match f {
        SampleFormat::Rgba8Unorm => 4,
        SampleFormat::Rg16Sint => 4,
        SampleFormat::R16Sint => 2,
    }
}

impl SampleFormat {
    /// Bytes per texel.
    pub fn size(&self) -> (r: u32)
        ensures
            r == format_size(*self),
    {
        match self {
            SampleFormat::Rgba8Unorm => 4,
            SampleFormat::Rg16Sint => 4,
            SampleFormat::R16Sint => 2,
        }
    }
}

impl DataSetDataKind {
    /// The name of this data kind.
    pub fn name(&self) -> (r: String)
        ensures
            r@ == kind_name(*self),
    {
        match self {
            Self::Color => "color".to_owned(),
            Self::Normal => "normal".to_owned(),
            Self::Height => "height".to_owned(),
        }
    }

    /// Parse a data-kind name; any other name is refused.
    pub fn from_name(name: &str) -> (r: Result<Self, NameError>)
        ensures
            match r {
                Ok(k) => kind_name(k) == name@,
                Err(e) => e == NameError::UnknownKind && name@ != kind_name(DataSetDataKind::Color)
                    && name@ != kind_name(DataSetDataKind::Normal) && name@ != kind_name(
                    DataSetDataKind::Height,
                ),
            },
    {
        if str_eq(name, "color") {
            Ok(Self::Color)
        } else if str_eq(name, "normal") {
            Ok(Self::Normal)
        } else if str_eq(name, "height") {
            Ok(Self::Height)
        } else {
            Err(NameError::UnknownKind)
        }
    }

    /// The raw sample kind stored in the atlas texture.
    pub fn texture_format(&self) -> (r: SampleFormat)
        ensures
            r == kind_format(*self),
    {
        match self {
            Self::Color => SampleFormat::Rgba8Unorm,
            Self::Normal => SampleFormat::Rg16Sint,
            Self::Height => SampleFormat::R16Sint,
        }
    }
}

/// Two to the power `n`.
pub open spec fn pow2(n: nat) -> nat
    decreases n,
{
    if n == 0 {
        1
    } else {
        2 * pow2((n - 1) as nat)
    }
}

/// Arcseconds per sample at a level: one arcsecond at the finest level, doubling at each
/// coarser level.
pub open spec fn level_scale(level: nat) -> int {
    pow2((ARCSEC_LEVEL - level) as nat) as int
}

/// A level of the tile pyramid: level 0 covers the planet with a handful of tiles, each level
/// down halves the arcseconds per sample.
#[derive(Copy, Clone, Debug, PartialEq, Eq, PartialOrd, Ord, Hash, Structural)]
pub struct TerrainLevel(pub usize);

impl TerrainLevel {
    /// The level with the given offset.
    pub fn new(level: usize) -> (r: Self)
        ensures
            r.0 == level,
    {
        Self(level)
    }

    /// The offset of this level in the pyramid.
    pub fn offset(&self) -> (r: usize)
        ensures
            r == self.0,
    {
        self.0
    }

    /// The level at which samples are one arcsecond apart.
    pub fn arcsecond_level() -> (r: usize)
        ensures
            r == ARCSEC_LEVEL,
    {
        ARCSEC_LEVEL
    }

    /// Resolution of the index texture in lat, lon (rows, columns): enough single-tile pixels
    /// to cover 180 by 360 degrees.
    pub fn index_resolution() -> (r: (u32, u32))
        ensures
            r == (1280u32, 2560u32),
    {
        (1280, 2560)
    }

    /// Arcseconds per sample of the coarsest level: 4096".
    pub fn base_scale() -> (r: i64)
        ensures
            r == level_scale(0),
            r == 4096,
    {
        proof {
            lemma_pow2_12();
        }
        4096
    }

    /// Arcseconds covered by one tile of the coarsest level.
    pub fn base_angular_extent() -> (r: i64)
        ensures
            r == level_scale(0) * TILE_EXTENT,
    {
        Self::base_scale() * TILE_EXTENT
    }

    /// Arcseconds covered by the whole index texture, in lat, lon.
    pub fn index_extent() -> (r: (i64, i64))
        ensures
            r.0 == 1280 * TILE_EXTENT,
            r.1 == 2560 * TILE_EXTENT,
    {
        (1280 * TILE_EXTENT, 2560 * TILE_EXTENT)
    }

    /// Arcseconds per sample at this level.
    pub fn as_scale(&self) -> (r: i64)
        requires
            self.0 <= ARCSEC_LEVEL,
        ensures
            r == level_scale(self.0 as nat),
            1 <= r <= 4096,
    {
        let mut scale: i64 = 1;
        let mut level: usize = ARCSEC_LEVEL;
        proof {
            lemma_pow2_mono(0, 12);
        }
        while level > self.0
            invariant
                self.0 <= level <= ARCSEC_LEVEL,
                scale == pow2((ARCSEC_LEVEL - level) as nat),
                1 <= scale <= pow2((ARCSEC_LEVEL - level) as nat),
                pow2((ARCSEC_LEVEL - level) as nat) <= pow2(12),
            decreases level,
        {
            proof {
                lemma_pow2_mono((ARCSEC_LEVEL - level + 1) as nat, 12);
                lemma_pow2_12();
            }
            scale = scale * 2;
            level = level - 1;
        }
        proof {
            lemma_pow2_12();
        }
        scale
    }

    /// Arcseconds covered by one tile at this level.
    pub fn angular_extent(&self) -> (r: i64)
        requires
            self.0 <= ARCSEC_LEVEL,
        ensures
            r == level_scale(self.0 as nat) * TILE_EXTENT,
    {
        self.as_scale() * TILE_EXTENT
    }
}

/// Twelve doublings of one arcsecond.
pub proof fn lemma_pow2_12()
    ensures
        pow2(12) == 4096,
{
    reveal_with_fuel(pow2, 13);
}

/// `pow2` grows with its argument.
pub proof fn lemma_pow2_mono(a: nat, b: nat)
    requires
        a <= b,
    ensures
        pow2(a) <= pow2(b),
    decreases b,
{
    if a < b {
        lemma_pow2_mono(a, (b - 1) as nat);
    }
}

/// The four children of a quad-tree node.
#[derive(Copy, Clone, Debug, PartialEq, Eq, Structural)]
pub enum ChildIndex {
    SouthWest,
    SouthEast,
    NorthWest,
    NorthEast,
}

/// The position of a child in its parent: bit 0 is east, bit 1 is north.
pub open spec fn child_position(c: ChildIndex) -> usize {
    match c {
        ChildIndex::SouthWest => 0,
        ChildIndex::SouthEast => 1,
        ChildIndex::NorthWest => 2,
        ChildIndex::NorthEast => 3,
    }
}

impl ChildIndex {
    /// The position of this child in its parent.
    pub fn to_index(&self) -> (r: usize)
        ensures
            r == child_position(*self),
            r < 4,
    {
        match self {
            Self::SouthWest => 0,
            Self::SouthEast => 1,
            Self::NorthWest => 2,
            Self::NorthEast => 3,
        }
    }

    /// The child at a position; only positions below four exist.
    pub fn from_index(index: usize) -> (r: Self)
        requires
            index < 4,
        ensures
            child_position(r) == index,
    {
        if index == 0 {
            Self::SouthWest
        } else if index == 1 {
            Self::SouthEast
        } else if index == 2 {
            Self::NorthWest
        } else {
            Self::NorthEast
        }
    }

    /// The range of all child positions, as (start, end).
    pub fn all_indices() -> (r: (usize, usize))
        ensures
            r == (0usize, 4usize),
    {
        (0, 4)
    }

    /// All children in position order.
    pub fn all() -> (r: [ChildIndex; 4])
        ensures
            forall|i: int| 0 <= i < 4 ==> child_position(#[trigger] r@[i]) == i,
    {
        [Self::SouthWest, Self::SouthEast, Self::NorthWest, Self::NorthEast]
    }
}

/// Converting a child to its position and back gives the same child, and every position
/// below four names exactly one child.
pub proof fn lemma_child_index_round_trip(c: ChildIndex, i: usize)
    ensures
        child_position(c) < 4,
        i < 4 ==> (child_position(c) == i <==> c == (if i == 0 {
            ChildIndex::SouthWest
        } else if i == 1 {
            ChildIndex::SouthEast
        } else if i == 2 {
            ChildIndex::NorthWest
        } else {
            ChildIndex::NorthEast
        })),
{
}

} // verus!
