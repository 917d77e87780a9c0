use tile_grid::{TileMatrix, TileMatrixSet, Tile, Tms};

fn quad_pyramid(id: &str, maxzoom: u8) -> Tms {
    let mut ms = Vec::new();
    for z in 0..=maxzoom {
        ms.push(TileMatrix {
            id: z.to_string(),
            tile_width: 256,
            tile_height: 256,
            matrix_width: 1u64 << z,
            matrix_height: 1u64 << z,
        });
    }
    TileMatrixSet {
        id: id.to_string(),
        crs: "urn:ogc:def:crs:EPSG:0:3857".to_string(),
        ordered_axes: None,
        tile_matrices: ms,
    }
    .into_tms()
    .unwrap()
}

/// A pyramid twice as wide as high on every level, as the world CRS84 grids.
fn two_to_one_pyramid(id: &str, maxzoom: u8) -> Tms {
    let mut ms = Vec::new();
    for z in 0..=maxzoom {
        ms.push(TileMatrix {
            id: z.to_string(),
            tile_width: 256,
            tile_height: 256,
            matrix_width: 2u64 << z,
            matrix_height: 1u64 << z,
        });
    }
    TileMatrixSet {
        id: id.to_string(),
        crs: "urn:ogc:def:crs:EPSG:0:4326".to_string(),
        ordered_axes: None,
        tile_matrices: ms,
    }
    .into_tms()
    .unwrap()
}

#[test]
fn quadkey_test_quadkey_support() {
    let tests = vec![
        ("EuropeanETRS89_LAEAQuad", quad_pyramid("EuropeanETRS89_LAEAQuad", 15), true),
        ("UPSArcticWGS84Quad", quad_pyramid("UPSArcticWGS84Quad", 24), true),
        ("UPSAntarcticWGS84Quad", quad_pyramid("UPSAntarcticWGS84Quad", 24), true),
        ("WorldMercatorWGS84Quad", quad_pyramid("WorldMercatorWGS84Quad", 24), true),
        ("WorldCRS84Quad", two_to_one_pyramid("WorldCRS84Quad", 17), false),
        ("WebMercatorQuad", quad_pyramid("WebMercatorQuad", 24), true),
    ];
    for (name, tms, result) in tests.into_iter() {
        assert_eq!(tms.is_quadtree, result, "{}", name);
    }
}

#[test]
fn quadkey_test_quadkey() {
    let tms = quad_pyramid("WebMercatorQuad", 24);
    let expected = "0313102310".to_string();
    assert_eq!(tms.quadkey(&Tile::new(486, 332, 10)), expected);
}

#[test]
fn quadkey_test_quadkey_to_tile() {
    let tms = quad_pyramid("WebMercatorQuad", 24);
    let qk = "0313102310".to_string();
    let expected = Tile::new(486, 332, 10);
    assert_eq!(tms.quadkey_to_tile(&qk), expected);
}

#[test]
fn quadkey_test_empty_quadkey_to_tile() {
    // Empty qk should give tile 0,0,0.
    let tms = quad_pyramid("WebMercatorQuad", 24);
    let qk = "";
    let expected = Tile::new(0, 0, 0);
    assert_eq!(tms.quadkey_to_tile(qk), expected);
}

#[test]
fn quadkey_roundtrip_samples() {
    // decode(encode(T)) == T on a single-rooted quadtree pyramid.
    let tms = quad_pyramid("WebMercatorQuad", 24);
    for &(x, y, z) in &[
        (0u64, 0u64, 0u8),
        (0, 0, 1),
        (1, 1, 1),
        (486, 332, 10),
        (16777215, 0, 24),
        (12345678, 87654, 24),
    ] {
        let t = Tile::new(x, y, z);
        assert_eq!(tms.quadkey_to_tile(&tms.quadkey(&t)), t);
    }
}
