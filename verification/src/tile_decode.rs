//! Turning the stored bytes of a tile into the texels uploaded to the atlas: decompress when the
//! layer is compressed, check the size, and widen colour tiles from RGB to RGBA.
use vstd::prelude::*;
use std::io::Read;
use crate::tile::{DataSetDataKind, TileCompression, TILE_PHYSICAL_SIZE};

verus! {

/// Texels in one tile.
pub const TILE_TEXELS: usize = 262144;

/// Why a tile's bytes were refused.
#[derive(Copy, Clone, Debug, PartialEq, Eq, Structural)]
pub enum TileDecodeError {
    /// The bytes are not a bzip2 stream.
    Corrupt,
    /// The decompressed tile is not the size of an atlas slot.
    SizeMismatch,
    /// Colour data is not a whole number of RGB texels of at most one tile.
    BadColorLength,
}

/// What a bzip2 decoder reads from `data`: the decompressed bytes of the stream, or `None` where
/// the decoder reports an error.
pub uninterp spec fn bz2_decompressed(data: Seq<u8>) -> Option<Seq<u8>>;

/// Decompress a bzip2 stream with `bzip2::read::BzDecoder`, reading to its end.
/// Trusted: the result is whatever the decoder gives back for these bytes, read to the end,
/// and `None` where it reports an error.
#[verifier::external_body]
fn bz2_decompress(data: &[u8]) -> (r: Option<Vec<u8>>)
    ensures
        match r {
            Some(v) => bz2_decompressed(data@) == Some(v@),
            None => bz2_decompressed(data@) is None,
        },
{
    let mut out = Vec::new();
    match bzip2::read::BzDecoder::new(data).read_to_end(&mut out) {
        Ok(_) => Some(out),
        Err(_) => None,
    }
}

/// Colour data is accepted when it is whole RGB texels, at most one tile of them.
pub open spec fn color_length_ok(len: int) -> bool {
    len % 3 == 0 && len / 3 <= TILE_TEXELS
}

/// The RGBA tile whose first texels are the RGB texels of `data` with opaque alpha, and whose
/// other texels are opaque white, as a map from (texel, channel) to byte.
pub open spec fn rgba_byte(data: Seq<u8>, p: int, ch: int) -> u8 {
    if p < data.len() / 3 && ch < 3 {
        data[p * 3 + ch]
    } else {
        255u8
    }
}

/// `out` is the RGBA tile made from the RGB texels of `data`.
pub open spec fn is_rgba_of(out: Seq<u8>, data: Seq<u8>) -> bool {
    &&& out.len() == TILE_TEXELS * 4
    &&& forall|p: int, ch: int|
        0 <= p < TILE_TEXELS && 0 <= ch < 4 ==> #[trigger] out[p * 4 + ch] == rgba_byte(data, p, ch)
}

/// Widen RGB texels to a full RGBA tile: each texel keeps its three channels and gains an
/// opaque alpha; texels past the data are opaque white.
pub fn expand_rgb(data: &[u8]) -> (r: Result<Vec<u8>, TileDecodeError>)
    ensures
        match r {
            Ok(out) => color_length_ok(data@.len() as int) && is_rgba_of(out@, data@),
            Err(e) => !color_length_ok(data@.len() as int) && e == TileDecodeError::BadColorLength,
        },
{
    if data.len() % 3 != 0 || data.len() / 3 > TILE_TEXELS {
        return Err(TileDecodeError::BadColorLength);
    }
    let total = TILE_PHYSICAL_SIZE * TILE_PHYSICAL_SIZE * 4;
    let mut out: Vec<u8> = Vec::new();
    while out.len() < total
        invariant
            total == TILE_TEXELS * 4,
            out@.len() <= total,
            forall|k: int| 0 <= k < out@.len() ==> out@[k] == 255u8,
        decreases total - out@.len(),
    {
        out.push(255u8);
    }
    let n = data.len() / 3;
    let mut i: usize = 0;
    while i < n
        invariant
            n == data@.len() / 3,
            data@.len() % 3 == 0,
            n <= TILE_TEXELS,
            0 <= i <= n,
            out@.len() == TILE_TEXELS * 4,
            forall|p: int, ch: int|
                0 <= p < TILE_TEXELS && 0 <= ch < 4 ==> #[trigger] out@[p * 4 + ch] == if p < i && ch
                    < 3 {
                    data@[p * 3 + ch]
                } else {
                    255u8
                },
        decreases n - i,
    {
        let mut j: usize = 0;
        while j < 3
            invariant
                n == data@.len() / 3,
                data@.len() % 3 == 0,
                n <= TILE_TEXELS,
                0 <= i < n,
                0 <= j <= 3,
                out@.len() == TILE_TEXELS * 4,
                forall|p: int, ch: int|
                    0 <= p < TILE_TEXELS && 0 <= ch < 4 ==> #[trigger] out@[p * 4 + ch] == if (p < i
                        && ch < 3) || (p == i && ch < j) {
                        data@[p * 3 + ch]
                    } else {
                        255u8
                    },
            decreases 3 - j,
        {
            let b = data[i * 3 + j];
            let ghost before = out@;
            out.set(i * 4 + j, b);
            assert forall|p: int, ch: int| 0 <= p < TILE_TEXELS && 0 <= ch < 4 implies #[trigger] out@[p
                * 4 + ch] == if (p < i && ch < 3) || (p == i && ch < j + 1) {
                data@[p * 3 + ch]
            } else {
                255u8
            } by {
                if p * 4 + ch != i * 4 + j {
                    assert(out@[p * 4 + ch] == before[p * 4 + ch]);
                }
            }
            j = j + 1;
        }
        i = i + 1;
    }
    Ok(out)
}

/// The bytes a tile of `kind` holds once its raw bytes are known: colour is widened to RGBA,
/// the other kinds are kept as they are.
pub fn tile_texels(kind: DataSetDataKind, data: Vec<u8>) -> (r: Result<Vec<u8>, TileDecodeError>)
    ensures
        kind == DataSetDataKind::Color ==> match r {
            Ok(out) => color_length_ok(data@.len() as int) && is_rgba_of(out@, data@),
            Err(e) => !color_length_ok(data@.len() as int) && e == TileDecodeError::BadColorLength,
        },
        kind != DataSetDataKind::Color ==> r == Ok::<Vec<u8>, TileDecodeError>(data),
{
    match kind {
        DataSetDataKind::Color => expand_rgb(data.as_slice()),
        _ => Ok(data),
    }
}

/// Accept the output of the decompressor for a slot of `raw_tile_size` bytes.
pub fn accept_decompressed(decompressed: Option<Vec<u8>>, raw_tile_size: usize) -> (r: Result<
    Vec<u8>,
    TileDecodeError,
>)
    ensures
        match decompressed {
            None => r == Err::<Vec<u8>, TileDecodeError>(TileDecodeError::Corrupt),
            Some(v) => if v@.len() == raw_tile_size {
                r == Ok::<Vec<u8>, TileDecodeError>(v)
            } else {
                r == Err::<Vec<u8>, TileDecodeError>(TileDecodeError::SizeMismatch)
            },
        },
{
    match decompressed {
        None => Err(TileDecodeError::Corrupt),
        Some(v) => if v.len() == raw_tile_size {
            Ok(v)
        } else {
            Err(TileDecodeError::SizeMismatch)
        },
    }
}

/// The raw bytes of a tile as stored with `compression`, before widening.
pub open spec fn raw_tile(compression: TileCompression, packed: Seq<u8>, raw_tile_size: int) -> Result<
    Seq<u8>,
    TileDecodeError,
> {
    match compression {
        TileCompression::Uncompressed => Ok(packed),
        TileCompression::Bz2 => match bz2_decompressed(packed) {
            None => Err(TileDecodeError::Corrupt),
            Some(d) => if d.len() == raw_tile_size {
                Ok(d)
            } else {
                Err(TileDecodeError::SizeMismatch)
            },
        },
    }
}

/// Decode the stored bytes of a tile of `kind`, stored with `compression`, for an atlas slot of
/// `raw_tile_size` bytes.
pub fn decode_tile(
    compression: TileCompression,
    kind: DataSetDataKind,
    packed: &[u8],
    raw_tile_size: usize,
) -> (r: Result<Vec<u8>, TileDecodeError>)
    ensures
        match raw_tile(compression, packed@, raw_tile_size as int) {
            Err(e) => r == Err::<Vec<u8>, TileDecodeError>(e),
            Ok(d) => if kind == DataSetDataKind::Color {
                match r {
                    Ok(out) => color_length_ok(d.len() as int) && is_rgba_of(out@, d),
                    Err(e) => !color_length_ok(d.len() as int) && e
                        == TileDecodeError::BadColorLength,
                }
            } else {
                r matches Ok(out) && out@ == d
            },
        },
{
    let data = match compression {
        TileCompression::Uncompressed => {
            let mut v: Vec<u8> = Vec::new();
            let mut i: usize = 0;
            while i < packed.len()
                invariant
                    0 <= i <= packed@.len(),
                    v@ == packed@.take(i as int),
                decreases packed.len() - i,
            {
                v.push(packed[i]);
                assert(packed@.take(i + 1) =~= packed@.take(i as int).push(packed@[i as int]));
                i = i + 1;
            }
            assert(packed@.take(i as int) =~= packed@);
            v
        },
        TileCompression::Bz2 => match accept_decompressed(bz2_decompress(packed), raw_tile_size) {
            Ok(v) => v,
            Err(e) => return Err(e),
        },
    };
    tile_texels(kind, data)
}

} // verus!
