use wgpu_buffer::tile::{DataSetCoordinates, DataSetDataKind};
use wgpu_buffer::tile_index::{
    fractions_are_short, TileIndexError, TileSetDescriptor, MAX_FRACTION_DIGITS,
};

#[test]
fn index_files_describe_their_tile_set() {
    let d = TileSetDescriptor::from_index(
        r#"{"prefix": "srtm-h", "kind": "height", "coordinates": "spherical"}"#,
    )
    .unwrap();
    assert_eq!(d.prefix, "srtm-h");
    assert_eq!(d.kind, DataSetDataKind::Height);
    assert_eq!(d.coordinates, DataSetCoordinates::Spherical);
}

#[test]
fn index_files_name_what_is_wrong() {
    let err = |text: &str| TileSetDescriptor::from_index(text).err();
    assert_eq!(err("prefix: srtm"), Some(TileIndexError::Malformed));
    assert_eq!(
        err(r#"{"kind": "color", "coordinates": "spherical"}"#),
        Some(TileIndexError::MissingPrefix)
    );
    assert_eq!(
        err(r#"{"prefix": 3, "kind": "color", "coordinates": "spherical"}"#),
        Some(TileIndexError::MissingPrefix)
    );
    assert_eq!(
        err(r#"{"prefix": "p", "coordinates": "spherical"}"#),
        Some(TileIndexError::MissingKind)
    );
    assert_eq!(
        err(r#"{"prefix": "p", "kind": "colour", "coordinates": "spherical"}"#),
        Some(TileIndexError::UnknownKind)
    );
    assert_eq!(
        err(r#"{"prefix": "p", "kind": "normal"}"#),
        Some(TileIndexError::MissingCoordinates)
    );
    assert_eq!(
        err(r#"{"prefix": "p", "kind": "normal", "coordinates": "flat"}"#),
        Some(TileIndexError::UnknownCoordinates)
    );
}

#[test]
fn fields_are_checked_in_order() {
    let d = TileSetDescriptor::from_fields(
        Some("p".to_string()),
        Some("color".to_string()),
        Some("cartesian_polar".to_string()),
    )
    .unwrap();
    assert_eq!((d.kind, d.coordinates), (DataSetDataKind::Color, DataSetCoordinates::CartesianPolar));
    assert_eq!(
        TileSetDescriptor::from_fields(None, None, None).err(),
        Some(TileIndexError::MissingPrefix)
    );
    assert_eq!(
        TileSetDescriptor::from_fields(Some("p".to_string()), Some("x".to_string()), None).err(),
        Some(TileIndexError::UnknownKind)
    );
}

fn index_with_number(fraction_digits: usize) -> String {
    format!(
        r#"{{"prefix": "p", "kind": "color", "coordinates": "spherical", "x": 0.{}}}"#,
        "0".repeat(fraction_digits)
    )
}

#[test]
fn long_fractions_are_refused_unparsed() {
    assert!(TileSetDescriptor::from_index(&index_with_number(MAX_FRACTION_DIGITS)).is_ok());
    assert_eq!(
        TileSetDescriptor::from_index(&index_with_number(MAX_FRACTION_DIGITS + 1)).err(),
        Some(TileIndexError::Malformed)
    );
    assert_eq!(
        TileSetDescriptor::from_index(&index_with_number(40000)).err(),
        Some(TileIndexError::Malformed)
    );
    assert!(fractions_are_short(b"12a34"));
    assert!(fractions_are_short(&vec![b'7'; MAX_FRACTION_DIGITS + 1]));
    let mut long = b"0.".to_vec();
    long.extend(vec![b'0'; MAX_FRACTION_DIGITS]);
    assert!(fractions_are_short(&long));
    long.push(b'0');
    assert!(!fractions_are_short(&long));
}

#[test]
fn long_digit_strings_are_read() {
    let digits = "7".repeat(40000);
    let text = format!(
        r#"{{"prefix": "p", "kind": "color", "coordinates": "spherical", "note": "{}", "n": 1.5}}"#,
        digits
    );
    let d = TileSetDescriptor::from_index(&text).unwrap();
    assert_eq!(d.prefix, "p");
    let dotted = format!(r#"{{"prefix": "a.{}", "kind": "color", "coordinates": "spherical"}}"#, digits);
    assert_eq!(TileSetDescriptor::from_index(&dotted).unwrap().prefix, format!("a.{}", digits));
    let zeros = "0".repeat(MAX_FRACTION_DIGITS + 1);
    assert!(fractions_are_short(format!(r#"["a\".{}"]"#, zeros).as_bytes()));
    assert!(!fractions_are_short(format!(r#"["a\\", 0.{}]"#, zeros).as_bytes()));
}

#[test]
fn polar_tile_sets_are_refused() {
    let polar = TileSetDescriptor::from_index(
        r#"{"prefix": "p", "kind": "height", "coordinates": "cartesian_polar"}"#,
    )
    .unwrap();
    assert_eq!(polar.check_supported(), Err(TileIndexError::PolarUnsupported));
    let spherical = TileSetDescriptor::from_index(
        r#"{"prefix": "p", "kind": "height", "coordinates": "spherical"}"#,
    )
    .unwrap();
    assert_eq!(spherical.check_supported(), Ok(()));
}
