use tile_grid::{hilbert_tile, tile_id, HilbertIterator, Tile};

fn collect_all(mut it: HilbertIterator) -> Vec<Tile> {
    let mut out = Vec::new();
    while let Some(t) = it.next() {
        out.push(t);
    }
    out
}

#[test]
fn test_tile_id() {
    assert_eq!(tile_id(0, 0, 0), 0);
    assert_eq!(tile_id(1, 1, 0), 4);
    assert_eq!(tile_id(2, 1, 3), 11);
    assert_eq!(tile_id(3, 3, 0), 26);
    assert_eq!(tile_id(20, 0, 0), 366503875925);
    assert_eq!(tile_id(21, 0, 0), 1466015503701);
    assert_eq!(tile_id(22, 0, 0), 5864062014805);
    assert_eq!(tile_id(22, 0, 0), 5864062014805);
    assert_eq!(tile_id(23, 0, 0), 23456248059221);
    assert_eq!(tile_id(24, 0, 0), 93824992236885);
    assert_eq!(tile_id(25, 0, 0), 375299968947541);
    assert_eq!(tile_id(26, 0, 0), 1501199875790165);
    assert_eq!(tile_id(27, 0, 0), 6004799503160661);
    assert_eq!(tile_id(28, 0, 0), 24019198012642645);
}

#[test]
fn hilbert_iter() {
    let griditer = HilbertIterator::new(0, 2);
    let cells = collect_all(griditer);
    assert_eq!(
        cells,
        vec![
            Tile::new(0, 0, 0),
            Tile::new(0, 0, 1),
            Tile::new(0, 1, 1),
            Tile::new(1, 1, 1),
            Tile::new(1, 0, 1),
            Tile::new(0, 0, 2),
            Tile::new(1, 0, 2),
            Tile::new(1, 1, 2),
            Tile::new(0, 1, 2),
            Tile::new(0, 2, 2),
            Tile::new(0, 3, 2),
            Tile::new(1, 3, 2),
            Tile::new(1, 2, 2),
            Tile::new(2, 2, 2),
            Tile::new(2, 3, 2),
            Tile::new(3, 3, 2),
            Tile::new(3, 2, 2),
            Tile::new(3, 1, 2),
            Tile::new(2, 1, 2),
            Tile::new(2, 0, 2),
            Tile::new(3, 0, 2)
        ]
    );

    let griditer = HilbertIterator::new(1, 1);
    let cells = collect_all(griditer);
    assert_eq!(
        cells,
        vec![
            Tile::new(0, 0, 1),
            Tile::new(0, 1, 1),
            Tile::new(1, 1, 1),
            Tile::new(1, 0, 1),
        ]
    );

    let griditer = HilbertIterator::new(21, 20);
    assert_eq!(collect_all(griditer).len(), 0);
}

#[test]
fn test_hilbert_tile() {
    assert_eq!(hilbert_tile(0), Tile::new(0, 0, 0));
    assert_eq!(hilbert_tile(4), Tile::new(1, 0, 1));
    assert_eq!(hilbert_tile(11), Tile::new(1, 3, 2));
    assert_eq!(hilbert_tile(26), Tile::new(3, 0, 3));
}

#[test]
fn hilbert_roundtrip_samples() {
    // Decoding the id of a tile gives the tile back across several levels.
    for &(x, y, z) in &[
        (0u64, 0u64, 0u8),
        (1, 0, 1),
        (1, 3, 2),
        (3, 0, 3),
        (486, 332, 10),
        (123456, 654321, 20),
        (0, 67108863, 26),
    ] {
        let t = Tile::new(x, y, z);
        assert_eq!(hilbert_tile(tile_id(z, x, y)), t);
    }
}
