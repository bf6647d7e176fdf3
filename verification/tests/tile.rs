use wgpu_buffer::tile::{
    ChildIndex, DataSetCoordinates, DataSetDataKind, NameError, SampleFormat, TerrainLevel,
    TileCompression, TILE_EXTENT,
};
use wgpu_buffer::font::FontAdvance;
use wgpu_buffer::shader_shared::Group;

#[test]
fn compression_codes() {
    assert_eq!(TileCompression::from_u16(0), TileCompression::Uncompressed);
    assert_eq!(TileCompression::from_u16(1), TileCompression::Bz2);
    assert_eq!(TileCompression::Uncompressed.code(), 0);
    assert_eq!(TileCompression::Bz2.code(), 1);
}

#[test]
fn coordinate_names_round_trip() {
    for c in [DataSetCoordinates::Spherical, DataSetCoordinates::CartesianPolar] {
        assert_eq!(DataSetCoordinates::from_name(&c.name()), Ok(c));
    }
    assert_eq!(DataSetCoordinates::Spherical.name(), "spherical");
    assert_eq!(DataSetCoordinates::CartesianPolar.name(), "cartesian_polar");
    assert_eq!(
        DataSetCoordinates::from_name("polar"),
        Err(NameError::UnknownCoordinates)
    );
}

#[test]
fn kind_names_round_trip() {
    for k in [DataSetDataKind::Color, DataSetDataKind::Normal, DataSetDataKind::Height] {
        assert_eq!(DataSetDataKind::from_name(&k.name()), Ok(k));
    }
    assert_eq!(DataSetDataKind::Color.name(), "color");
    assert_eq!(DataSetDataKind::from_name("colour"), Err(NameError::UnknownKind));
    assert_eq!(DataSetDataKind::from_name(""), Err(NameError::UnknownKind));
}

#[test]
fn kind_texture_formats() {
    assert_eq!(DataSetDataKind::Color.texture_format(), SampleFormat::Rgba8Unorm);
    assert_eq!(DataSetDataKind::Normal.texture_format(), SampleFormat::Rg16Sint);
    assert_eq!(DataSetDataKind::Height.texture_format(), SampleFormat::R16Sint);
    assert_eq!(SampleFormat::Rgba8Unorm.size(), 4);
    assert_eq!(SampleFormat::Rg16Sint.size(), 4);
    assert_eq!(SampleFormat::R16Sint.size(), 2);
}

#[test]
fn terrain_level_scales() {
    assert_eq!(TerrainLevel::arcsecond_level(), 12);
    assert_eq!(TerrainLevel::index_resolution(), (1280, 2560));
    assert_eq!(TerrainLevel::base_scale(), 4096);
    assert_eq!(TerrainLevel::base_angular_extent(), 4096 * 509);
    assert_eq!(TerrainLevel::index_extent(), (1280 * 509, 2560 * 509));
    assert_eq!(TerrainLevel::new(0).as_scale(), 4096);
    assert_eq!(TerrainLevel::new(5).as_scale(), 128);
    assert_eq!(TerrainLevel::new(12).as_scale(), 1);
    assert_eq!(TerrainLevel::new(12).angular_extent(), TILE_EXTENT);
    assert_eq!(TerrainLevel::new(3).angular_extent(), 512 * TILE_EXTENT);
    assert_eq!(TerrainLevel::new(7).offset(), 7);
}

#[test]
fn child_indices_round_trip() {
    let all = ChildIndex::all();
    for (i, c) in all.iter().enumerate() {
        assert_eq!(c.to_index(), i);
        assert_eq!(ChildIndex::from_index(i), *c);
    }
    assert_eq!(ChildIndex::all_indices(), (0, 4));
    assert_eq!(ChildIndex::NorthEast.to_index(), 3);
    assert_eq!(ChildIndex::SouthEast.to_index(), 1);
}

#[test]
fn font_advance_is_plain() {
    assert_ne!(FontAdvance::Mono, FontAdvance::Sans);
}

#[test]
fn bind_group_slots() {
    assert_eq!(Group::Globals.index(), 0);
    assert_eq!(Group::Atmosphere.index(), 1);
    assert_eq!(Group::Stars.index(), 2);
    assert_eq!(Group::TerrainComposite.index(), 3);
    assert_eq!(Group::OffScreenWorld.index(), 2);
}
