use std::io::Read;
use wgpu_buffer::tile::{DataSetDataKind, TileCompression};
use wgpu_buffer::tile_decode::{
    accept_decompressed, decode_tile, expand_rgb, tile_texels, TileDecodeError, TILE_TEXELS,
};

fn bz2(data: &[u8]) -> Vec<u8> {
    let mut out = Vec::new();
    bzip2::read::BzEncoder::new(data, bzip2::Compression::best())
        .read_to_end(&mut out)
        .unwrap();
    out
}

#[test]
fn rgb_texels_gain_an_opaque_alpha() {
    let out = expand_rgb(&[1, 2, 3, 4, 5, 6]).unwrap();
    assert_eq!(out.len(), TILE_TEXELS * 4);
    assert_eq!(&out[0..8], &[1, 2, 3, 255, 4, 5, 6, 255]);
    assert!(out[8..].iter().all(|&b| b == 255));
}

#[test]
fn rgb_data_must_be_whole_texels_of_one_tile() {
    assert_eq!(expand_rgb(&[1, 2, 3, 4]), Err(TileDecodeError::BadColorLength));
    let too_long = vec![0u8; (TILE_TEXELS + 1) * 3];
    assert_eq!(expand_rgb(&too_long), Err(TileDecodeError::BadColorLength));
    let full = vec![7u8; TILE_TEXELS * 3];
    let out = expand_rgb(&full).unwrap();
    assert_eq!(&out[out.len() - 4..], &[7, 7, 7, 255]);
}

#[test]
fn only_colour_is_widened() {
    assert_eq!(tile_texels(DataSetDataKind::Height, vec![1, 2]), Ok(vec![1, 2]));
    assert_eq!(tile_texels(DataSetDataKind::Normal, vec![1, 2, 3]), Ok(vec![1, 2, 3]));
    assert_eq!(tile_texels(DataSetDataKind::Color, vec![1, 2]), Err(TileDecodeError::BadColorLength));
}

#[test]
fn decompressed_tiles_must_fill_their_slot() {
    assert_eq!(accept_decompressed(None, 4), Err(TileDecodeError::Corrupt));
    assert_eq!(accept_decompressed(Some(vec![1, 2, 3]), 4), Err(TileDecodeError::SizeMismatch));
    assert_eq!(accept_decompressed(Some(vec![1, 2, 3, 4]), 4), Ok(vec![1, 2, 3, 4]));
}

#[test]
fn stored_tiles_decode() {
    let raw: Vec<u8> = (0..64u8).collect();
    let packed = bz2(&raw);
    assert_ne!(packed, raw);
    assert_eq!(
        decode_tile(TileCompression::Bz2, DataSetDataKind::Height, &packed, 64),
        Ok(raw.clone())
    );
    assert_eq!(
        decode_tile(TileCompression::Bz2, DataSetDataKind::Height, &packed, 65),
        Err(TileDecodeError::SizeMismatch)
    );
    assert_eq!(
        decode_tile(TileCompression::Bz2, DataSetDataKind::Height, &[1, 2, 3], 3),
        Err(TileDecodeError::Corrupt)
    );
    assert_eq!(
        decode_tile(TileCompression::Uncompressed, DataSetDataKind::Normal, &raw, 1),
        Ok(raw.clone())
    );
    let colour = decode_tile(TileCompression::Bz2, DataSetDataKind::Color, &bz2(&[9, 8, 7]), 3).unwrap();
    assert_eq!(&colour[0..5], &[9, 8, 7, 255, 255]);
}
