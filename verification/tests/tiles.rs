use tile_grid::{TileMatrix, TileMatrixSet, Tile, Tms, TmsError};

fn quad_pyramid(id: &str, maxzoom: u8) -> Tms {
    let mut ms = Vec::new();
    for z in 0..=maxzoom {
        ms.push(TileMatrix {
            id: z.to_string(),
            tile_width: 256,
            tile_height: 256,
            matrix_width: 1u64 << z,
            matrix_height: 1u64 << z,
        });
    }
    TileMatrixSet {
        id: id.to_string(),
        crs: "urn:ogc:def:crs:EPSG:0:3857".to_string(),
        ordered_axes: None,
        tile_matrices: ms,
    }
    .into_tms()
    .unwrap()
}

fn web_mercator_quad() -> Tms {
    quad_pyramid("WebMercatorQuad", 24)
}

#[test]
fn test_tms_properties() {
    // Test TileSchema().
    let tms = web_mercator_quad();
    assert_eq!(tms.crs(), "urn:ogc:def:crs:EPSG:0:3857");
    assert_eq!(tms.minzoom(), 0);
    assert_eq!(tms.maxzoom(), 24);
}

#[test]
fn test_is_power_of_two() {
    // is power ot 2?
    assert!(tile_grid::is_power_of_two(1));
    assert!(tile_grid::is_power_of_two(2));
    assert!(tile_grid::is_power_of_two(256));
    assert!(tile_grid::is_power_of_two(1 << 63));
    assert!(!tile_grid::is_power_of_two(0));
    assert!(!tile_grid::is_power_of_two(3));
    assert!(!tile_grid::is_power_of_two(255));
    assert!(!tile_grid::is_power_of_two(u64::MAX));
}

#[test]
fn test_is_valid_tile() {
    // test if tile are valid.
    let tms = web_mercator_quad();
    assert!(tms.is_valid(&Tile::new(0, 0, 0)));
    assert!(tms.is_valid(&Tile::new(486, 332, 10)));
    assert!(tms.is_valid(&Tile::new(1023, 1023, 10)));
    assert!(!tms.is_valid(&Tile::new(1024, 0, 10)));
    assert!(!tms.is_valid(&Tile::new(0, 1024, 10)));
    assert!(!tms.is_valid(&Tile::new(1, 0, 0)));
    // Zooms above the pyramid extrapolate by doubling.
    assert!(tms.is_valid(&Tile::new((1 << 25) - 1, 0, 25)));
    assert!(!tms.is_valid(&Tile::new(1 << 25, 0, 25)));
}

#[test]
fn test_neighbors() {
    // test neighbors.
    let tms = web_mercator_quad();
    let ns = tms.neighbors(&Tile::new(486, 332, 10));
    assert_eq!(ns.len(), 8);
    for dx in [485u64, 486, 487] {
        for dy in [331u64, 332, 333] {
            let t = Tile::new(dx, dy, 10);
            assert_eq!(ns.contains(&t), !(dx == 486 && dy == 332));
        }
    }
}

#[test]
fn test_neighbors_invalid() {
    // test neighbors at the grid corner.
    let tms = web_mercator_quad();
    let ns = tms.neighbors(&Tile::new(0, 0, 2));
    assert_eq!(ns.len(), 3);
    assert!(ns.contains(&Tile::new(0, 1, 2)));
    assert!(ns.contains(&Tile::new(1, 0, 2)));
    assert!(ns.contains(&Tile::new(1, 1, 2)));
}

#[test]
fn test_root_neighbors_invalid() {
    // test neighbors of the root tile.
    let tms = web_mercator_quad();
    let ns = tms.neighbors(&Tile::new(0, 0, 0));
    assert_eq!(ns.len(), 0);
}

#[test]
fn test_parent() {
    // test parent
    let tms = web_mercator_quad();
    let parent = tms.parent(&Tile::new(486, 332, 10), None).unwrap();
    assert_eq!(parent, vec![Tile::new(243, 166, 9)]);
    // A tile at the minimum zoom has no parent.
    assert_eq!(tms.parent(&Tile::new(0, 0, 0), None).unwrap(), vec![]);
}

#[test]
fn test_parent_multi() {
    // test parent
    let tms = web_mercator_quad();
    let parent = tms.parent(&Tile::new(486, 332, 10), Some(8)).unwrap();
    assert_eq!(parent[0], Tile::new(121, 83, 8));
}

#[test]
fn test_children() {
    // test children.
    let tms = web_mercator_quad();

    let x = 243;
    let y = 166;
    let z = 9;
    let children = tms.children(&Tile::new(x, y, z), None).unwrap();
    assert_eq!(children.len(), 4);
    assert!(children.contains(&Tile::new(2 * x, 2 * y, z + 1)));
    assert!(children.contains(&Tile::new(2 * x + 1, 2 * y, z + 1)));
    assert!(children.contains(&Tile::new(2 * x + 1, 2 * y + 1, z + 1)));
    assert!(children.contains(&Tile::new(2 * x, 2 * y + 1, z + 1)));
}

#[test]
fn test_children_multi() {
    // test children multizoom.
    let tms = web_mercator_quad();

    let children = tms.children(&Tile::new(243, 166, 9), Some(11)).unwrap();
    assert_eq!(children.len(), 16);
    let targets = [
        Tile::new(972, 664, 11),
        Tile::new(973, 664, 11),
        Tile::new(973, 665, 11),
        Tile::new(972, 665, 11),
        Tile::new(974, 664, 11),
        Tile::new(975, 664, 11),
        Tile::new(975, 665, 11),
        Tile::new(974, 665, 11),
        Tile::new(974, 666, 11),
        Tile::new(975, 666, 11),
        Tile::new(975, 667, 11),
        Tile::new(974, 667, 11),
        Tile::new(972, 666, 11),
        Tile::new(973, 666, 11),
        Tile::new(973, 667, 11),
        Tile::new(972, 667, 11),
    ];
    for target in targets {
        assert!(children.contains(&target));
    }
}

#[test]
fn test_children_invalid_zoom() {
    // invalid zoom.
    let tms = web_mercator_quad();
    assert_eq!(
        tms.children(&Tile::new(243, 166, 9), Some(8)).unwrap_err(),
        TmsError::InvalidZoom(8)
    );
    assert_eq!(
        tms.parent(&Tile::new(243, 166, 9), Some(9)).unwrap_err(),
        TmsError::InvalidZoom(9)
    );
}

#[test]
fn children_of_parent_contain_tile() {
    // children(parent(T)) contains T; parent(children(T)[i]) equals T.
    let tms = web_mercator_quad();
    let t = Tile::new(486, 332, 10);
    for p in tms.parent(&t, None).unwrap() {
        assert!(tms.children(&p, None).unwrap().contains(&t));
    }
    for c in tms.children(&t, None).unwrap() {
        assert_eq!(tms.parent(&c, None).unwrap(), vec![t]);
    }
}

#[test]
fn test_matrix_lookup_and_extrapolation() {
    let tms = web_mercator_quad();
    let m = tms.matrix(10);
    assert_eq!(m.id, "10");
    assert_eq!(m.matrix_width, 1024);
    assert_eq!(m.matrix_height, 1024);
    // Levels above the pyramid double the last level's dimensions.
    let m = tms.matrix(27);
    assert_eq!(m.id, "27");
    assert_eq!(m.tile_width, 256);
    assert_eq!(m.matrix_width, 1u64 << 27);
    assert_eq!(m.matrix_height, 1u64 << 27);
    let mm = tms.minmax(27);
    assert_eq!(mm.x_min, 0);
    assert_eq!(mm.x_max, (1u64 << 27) - 1);
}

#[test]
fn tile_covers_itself_at_own_zoom() {
    // The covering range of a tile at its own zoom is exactly the tile.
    let tms = web_mercator_quad();
    let t = Tile::new(486, 332, 10);
    assert_eq!(tms.children(&t, Some(10)).unwrap(), vec![t]);
}
