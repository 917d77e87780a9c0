use tile_grid::{MinMax, TileMatrix, TileMatrixSet, Tile, Tms, XyzIterator};

fn quad_pyramid(id: &str, maxzoom: u8) -> Tms {
    let mut ms = Vec::new();
    for z in 0..=maxzoom {
        ms.push(TileMatrix {
            id: z.to_string(),
            tile_width: 256,
            tile_height: 256,
            matrix_width: 1u64 << z,
            matrix_height: 1u64 << z,
        });
    }
    TileMatrixSet {
        id: id.to_string(),
        crs: "urn:ogc:def:crs:EPSG:0:3857".to_string(),
        ordered_axes: None,
        tile_matrices: ms,
    }
    .into_tms()
    .unwrap()
}

/// Full-grid per-zoom limits of a quadtree pyramid for zooms z_min..=z_max.
fn full_limits(z_min: u8, z_max: u8) -> Vec<MinMax> {
    let mut limits = Vec::new();
    for z in z_min..=z_max {
        limits.push(MinMax {
            x_min: 0,
            x_max: (1u64 << z) - 1,
            y_min: 0,
            y_max: (1u64 << z) - 1,
        });
    }
    limits
}

fn collect_all(mut it: XyzIterator) -> Vec<Tile> {
    let mut out = Vec::new();
    while let Some(t) = it.next() {
        out.push(t);
    }
    out
}

#[test]
fn tms_test_tile_matrix_iter() {
    let tms = quad_pyramid("WebMercatorQuad", 24);
    assert_eq!(tms.matrices().len(), 25);
}

#[test]
fn test_mercator_iter() {
    let griditer = XyzIterator::new(0, 2, full_limits(0, 2));
    let cells = collect_all(griditer);
    assert_eq!(
        cells,
        vec![
            Tile::new(0, 0, 0),
            Tile::new(0, 0, 1),
            Tile::new(0, 1, 1),
            Tile::new(1, 0, 1),
            Tile::new(1, 1, 1),
            Tile::new(0, 0, 2),
            Tile::new(0, 1, 2),
            Tile::new(0, 2, 2),
            Tile::new(0, 3, 2),
            Tile::new(1, 0, 2),
            Tile::new(1, 1, 2),
            Tile::new(1, 2, 2),
            Tile::new(1, 3, 2),
            Tile::new(2, 0, 2),
            Tile::new(2, 1, 2),
            Tile::new(2, 2, 2),
            Tile::new(2, 3, 2),
            Tile::new(3, 0, 2),
            Tile::new(3, 1, 2),
            Tile::new(3, 2, 2),
            Tile::new(3, 3, 2)
        ]
    );

    let griditer = XyzIterator::new(1, 2, full_limits(1, 2));
    let cells = collect_all(griditer);
    assert_eq!(
        cells,
        vec![
            Tile::new(0, 0, 1),
            Tile::new(0, 1, 1),
            Tile::new(1, 0, 1),
            Tile::new(1, 1, 1),
            Tile::new(0, 0, 2),
            Tile::new(0, 1, 2),
            Tile::new(0, 2, 2),
            Tile::new(0, 3, 2),
            Tile::new(1, 0, 2),
            Tile::new(1, 1, 2),
            Tile::new(1, 2, 2),
            Tile::new(1, 3, 2),
            Tile::new(2, 0, 2),
            Tile::new(2, 1, 2),
            Tile::new(2, 2, 2),
            Tile::new(2, 3, 2),
            Tile::new(3, 0, 2),
            Tile::new(3, 1, 2),
            Tile::new(3, 2, 2),
            Tile::new(3, 3, 2)
        ]
    );

    let griditer = XyzIterator::new(0, 0, full_limits(0, 0));
    let cells = collect_all(griditer);
    assert_eq!(cells, vec![Tile::new(0, 0, 0)]);
}

#[test]
fn invalid_iters() {
    // An inverted zoom range yields nothing.
    let griditer = XyzIterator::new(3, 2, full_limits(2, 3));
    assert_eq!(collect_all(griditer).len(), 0);

    // z_min >= (z_max - z_min)
    // Did panic in earlier versions
    let griditer = XyzIterator::new(2, 3, full_limits(2, 3));
    assert_eq!(collect_all(griditer).len(), 80);
}

#[test]
fn empty_limits_yield_nothing() {
    let griditer = XyzIterator::new(0, 5, Vec::new());
    assert_eq!(collect_all(griditer).len(), 0);
}

#[test]
fn short_limits_truncate_zoom_range() {
    // Limits for fewer zooms than requested truncate the range.
    let griditer = XyzIterator::new(0, 5, full_limits(0, 1));
    let cells = collect_all(griditer);
    assert_eq!(
        cells,
        vec![
            Tile::new(0, 0, 0),
            Tile::new(0, 0, 1),
            Tile::new(0, 1, 1),
            Tile::new(1, 0, 1),
            Tile::new(1, 1, 1),
        ]
    );
}

#[test]
fn hilbert_id_roundtrip_via_tms() {
    let tms = quad_pyramid("WebMercatorQuad", 24);
    let t = Tile::new(486, 332, 10);
    let id = tms.hilbert_id(&t);
    assert_eq!(tms.hilbert_to_tile(id), t);
    assert_eq!(tms.hilbert_id(&Tile::new(0, 0, 0)), 0);
    assert_eq!(tms.hilbert_id(&Tile::new(1, 0, 1)), 4);
}
