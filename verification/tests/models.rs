use tile_grid::{TileMatrix, TileMatrixSet, Tile, Tms};

fn quad_pyramid(id: &str, maxzoom: u8) -> Tms {
    let mut ms = Vec::new();
    for z in 0..=maxzoom {
        ms.push(TileMatrix {
            id: z.to_string(),
            tile_width: 256,
            tile_height: 256,
            matrix_width: 1u64 << z,
            matrix_height: 1u64 << z,
        });
    }
    TileMatrixSet {
        id: id.to_string(),
        crs: "urn:ogc:def:crs:EPSG:0:3857".to_string(),
        ordered_axes: None,
        tile_matrices: ms,
    }
    .into_tms()
    .unwrap()
}

/// A pyramid twice as wide as high on every level.
fn two_to_one_pyramid(id: &str, maxzoom: u8) -> Tms {
    let mut ms = Vec::new();
    for z in 0..=maxzoom {
        ms.push(TileMatrix {
            id: z.to_string(),
            tile_width: 256,
            tile_height: 256,
            matrix_width: 2u64 << z,
            matrix_height: 1u64 << z,
        });
    }
    TileMatrixSet {
        id: id.to_string(),
        crs: "urn:ogc:def:crs:EPSG:0:4326".to_string(),
        ordered_axes: None,
        tile_matrices: ms,
    }
    .into_tms()
    .unwrap()
}

/// A pyramid of square levels whose tile counts are not powers of two.
fn irregular_pyramid(id: &str) -> Tms {
    let mut ms = Vec::new();
    for (z, dim) in [5u64, 10, 19, 38, 76].iter().enumerate() {
        ms.push(TileMatrix {
            id: z.to_string(),
            tile_width: 256,
            tile_height: 256,
            matrix_width: *dim,
            matrix_height: *dim,
        });
    }
    TileMatrixSet {
        id: id.to_string(),
        crs: "urn:ogc:def:crs:EPSG:0:3978".to_string(),
        ordered_axes: None,
        tile_matrices: ms,
    }
    .into_tms()
    .unwrap()
}

#[test]
fn models_test_quadkey_support() {
    let tests = vec![
        ("EuropeanETRS89_LAEAQuad", quad_pyramid("EuropeanETRS89_LAEAQuad", 15), true),
        ("IrregularLCCGrid", irregular_pyramid("IrregularLCCGrid"), false),
        ("UPSArcticWGS84Quad", quad_pyramid("UPSArcticWGS84Quad", 24), true),
        ("UPSAntarcticWGS84Quad", quad_pyramid("UPSAntarcticWGS84Quad", 24), true),
        ("WorldMercatorWGS84Quad", quad_pyramid("WorldMercatorWGS84Quad", 24), true),
        ("WGS1984Quad", two_to_one_pyramid("WGS1984Quad", 17), false),
        ("WorldCRS84Quad", two_to_one_pyramid("WorldCRS84Quad", 17), false),
        ("WebMercatorQuad", quad_pyramid("WebMercatorQuad", 24), true),
    ];
    for (name, tms, result) in tests.into_iter() {
        assert_eq!(tms.is_quadtree, result, "{}", name);
    }
}

#[test]
fn models_test_quadkey() {
    let tms = quad_pyramid("WebMercatorQuad", 24);
    let expected = "0313102310".to_string();
    assert_eq!(tms.quadkey(&Tile::new(486, 332, 10)), expected);
}

#[test]
fn models_test_quadkey_to_tile() {
    let tms = quad_pyramid("WebMercatorQuad", 24);
    let qk = "0313102310".to_string();
    let expected = Tile::new(486, 332, 10);
    assert_eq!(tms.quadkey_to_tile(&qk), expected);
}

#[test]
fn models_test_empty_quadkey_to_tile() {
    // Empty qk should give tile 0,0,0.
    let tms = quad_pyramid("WebMercatorQuad", 24);
    let qk = "";
    let expected = Tile::new(0, 0, 0);
    assert_eq!(tms.quadkey_to_tile(qk), expected);
}

#[test]
fn models_test_tile_matrix_iter() {
    // Test iterator
    let tms = quad_pyramid("WebMercatorQuad", 24);
    assert_eq!(tms.matrices().len(), 25);
}

#[test]
fn invalid_zoom_id_is_rejected() {
    let def = TileMatrixSet {
        id: "BadIds".to_string(),
        crs: "urn:ogc:def:crs:EPSG:0:3857".to_string(),
        ordered_axes: None,
        tile_matrices: vec![TileMatrix {
            id: "zero".to_string(),
            tile_width: 256,
            tile_height: 256,
            matrix_width: 1,
            matrix_height: 1,
        }],
    };
    match def.into_tms() {
        Err(tile_grid::TmsError::InvalidZoomId(id)) => assert_eq!(id, "zero"),
        other => panic!("expected InvalidZoomId, got {:?}", other.map(|_| ())),
    }
}

#[test]
fn zero_dimension_is_rejected() {
    let def = TileMatrixSet {
        id: "ZeroDim".to_string(),
        crs: "urn:ogc:def:crs:EPSG:0:3857".to_string(),
        ordered_axes: None,
        tile_matrices: vec![TileMatrix {
            id: "0".to_string(),
            tile_width: 256,
            tile_height: 256,
            matrix_width: 0,
            matrix_height: 1,
        }],
    };
    assert_eq!(def.into_tms().unwrap_err(), tile_grid::TmsError::NonZeroError);
}

#[test]
fn unsorted_levels_are_sorted() {
    let mut ms = Vec::new();
    for z in [3u8, 0, 2, 1] {
        ms.push(TileMatrix {
            id: z.to_string(),
            tile_width: 256,
            tile_height: 256,
            matrix_width: 1u64 << z,
            matrix_height: 1u64 << z,
        });
    }
    let tms = TileMatrixSet {
        id: "Shuffled".to_string(),
        crs: "urn:ogc:def:crs:EPSG:0:3857".to_string(),
        ordered_axes: None,
        tile_matrices: ms,
    }
    .into_tms()
    .unwrap();
    let ids: Vec<&str> = tms.matrices().iter().map(|m| m.id.as_str()).collect();
    assert_eq!(ids, vec!["0", "1", "2", "3"]);
    assert_eq!(tms.minzoom(), 0);
    assert_eq!(tms.maxzoom(), 3);
    assert!(tms.is_quadtree);
}

#[test]
fn axis_inversion_from_ordered_axes() {
    for (axes, inverted) in [
        (vec!["Lat".to_string(), "Lon".to_string()], true),
        (vec!["Lon".to_string(), "Lat".to_string()], false),
        (vec!["N".to_string(), "E".to_string()], true),
        (vec!["E".to_string(), "N".to_string()], false),
        (vec!["Y".to_string(), "X".to_string()], true),
        (vec!["X".to_string(), "Y".to_string()], false),
    ] {
        let def = TileMatrixSet {
            id: "Axes".to_string(),
            crs: "urn:ogc:def:crs:EPSG:0:4326".to_string(),
            ordered_axes: Some(axes),
            tile_matrices: vec![TileMatrix {
                id: "0".to_string(),
                tile_width: 256,
                tile_height: 256,
                matrix_width: 1,
                matrix_height: 1,
            }],
        };
        assert_eq!(def.crs_axis_inverted(), inverted);
    }
}

#[test]
fn zoom_id_parse_and_print() {
    // The identifier format of u8 parsing: optional '+', digits, value <= 255.
    assert_eq!(tile_grid::parse_zoom_id("0"), Some(0));
    assert_eq!(tile_grid::parse_zoom_id("24"), Some(24));
    assert_eq!(tile_grid::parse_zoom_id("255"), Some(255));
    assert_eq!(tile_grid::parse_zoom_id("07"), Some(7));
    assert_eq!(tile_grid::parse_zoom_id("007"), Some(7));
    assert_eq!(tile_grid::parse_zoom_id("+7"), Some(7));
    assert_eq!(tile_grid::parse_zoom_id("+007"), Some(7));
    assert_eq!(tile_grid::parse_zoom_id(""), None);
    assert_eq!(tile_grid::parse_zoom_id("+"), None);
    assert_eq!(tile_grid::parse_zoom_id("-1"), None);
    assert_eq!(tile_grid::parse_zoom_id("256"), None);
    assert_eq!(tile_grid::parse_zoom_id("0256"), None);
    assert_eq!(tile_grid::parse_zoom_id("1a"), None);
    assert_eq!(tile_grid::parse_zoom_id("++1"), None);
    for z in [0u8, 7, 10, 99, 100, 207, 255] {
        assert_eq!(tile_grid::parse_zoom_id(&tile_grid::zoom_id_string(z)), Some(z));
    }
    assert_eq!(tile_grid::zoom_id_string(25), "25".to_string());
}

#[test]
fn prefixed_zoom_ids_are_accepted() {
    // Levels whose ids carry leading zeros or a plus sign are valid and are
    // looked up by their numeric value.
    let mut ms = Vec::new();
    for (id, z) in [("0", 0u8), ("01", 1), ("+2", 2)] {
        ms.push(TileMatrix {
            id: id.to_string(),
            tile_width: 256,
            tile_height: 256,
            matrix_width: 1u64 << z,
            matrix_height: 1u64 << z,
        });
    }
    let tms = TileMatrixSet {
        id: "PrefixedIds".to_string(),
        crs: "urn:ogc:def:crs:EPSG:0:3857".to_string(),
        ordered_axes: None,
        tile_matrices: ms,
    }
    .into_tms()
    .unwrap();
    assert_eq!(tms.minzoom(), 0);
    assert_eq!(tms.maxzoom(), 2);
    assert!(tms.is_quadtree);
    let m = tms.matrix(1);
    assert_eq!(m.id, "01");
    assert_eq!(m.matrix_width, 2);
    assert!(tms.is_valid(&Tile::new(1, 1, 1)));
}
