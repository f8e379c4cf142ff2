use pokerus::tile::{Metatile, Tile};

fn sample() -> Tile {
    let mut data = [[0u8; 8]; 8];
    for r in 0..8 {
        for c in 0..8 {
            data[r][c] = ((r * 8 + c) % 16) as u8;
        }
    }
    data[0][0] = 9;
    Tile::new(data)
}

#[test]
fn blank_tile_is_all_zero() {
    let t = Tile::blank();
    assert_eq!(t.data, [[0u8; 8]; 8]);
}

#[test]
fn new_keeps_the_rows() {
    let mut data = [[0u8; 8]; 8];
    data[3][5] = 7;
    assert_eq!(Tile::new(data).data, data);
}

#[test]
fn reverse_row_reverses() {
    assert_eq!(Tile::reverse_row([1, 2, 3, 4, 5, 6, 7, 8]), [8, 7, 6, 5, 4, 3, 2, 1]);
}

#[test]
fn flip_x_reverses_each_row() {
    let t = sample();
    let f = t.flip_x();
    for r in 0..8 {
        for c in 0..8 {
            assert_eq!(f.data[r][c], t.data[r][7 - c]);
        }
    }
    assert_eq!(f.data[0], [7, 6, 5, 4, 3, 2, 1, 9]);
    assert_eq!(f.data[1], [15, 14, 13, 12, 11, 10, 9, 8]);
}

#[test]
fn flip_y_reverses_row_order() {
    let t = sample();
    let f = t.flip_y();
    for r in 0..8 {
        assert_eq!(f.data[r], t.data[7 - r]);
    }
    assert_eq!(f.data[7], [9, 1, 2, 3, 4, 5, 6, 7]);
}

#[test]
fn flipping_twice_gives_the_tile_back() {
    let t = sample();
    assert_eq!(t.flip_x().flip_x(), t);
    assert_eq!(t.flip_y().flip_y(), t);
    assert_eq!(t.flip_x().flip_y(), t.flip_y().flip_x());
}

#[test]
fn equality_is_pixelwise() {
    let t = sample();
    let mut data = t.data;
    assert!(t == Tile::new(data));
    data[7][7] ^= 1;
    assert!(t != Tile::new(data));
}

#[test]
fn is_equivalent_finds_each_orientation() {
    let t = sample();
    assert_eq!(t.is_equivalent(&t), (true, false, false));
    assert_eq!(t.is_equivalent(&t.flip_x()), (true, true, false));
    assert_eq!(t.is_equivalent(&t.flip_x().flip_y()), (true, true, true));
    assert_eq!(t.is_equivalent(&t.flip_y()), (true, false, true));
}

#[test]
fn is_equivalent_reports_no_match_without_flags() {
    let t = sample();
    let mut data = t.data;
    data[4][4] = 15 - data[4][4];
    assert_eq!(t.is_equivalent(&Tile::new(data)), (false, false, false));
}

#[test]
fn is_equivalent_prefers_the_earliest_transform() {
    // Symmetric left to right: the identity is found before the horizontal flip.
    let mut data = [[0u8; 8]; 8];
    data[0] = [1, 2, 3, 4, 4, 3, 2, 1];
    let t = Tile::new(data);
    assert_eq!(t.is_equivalent(&t.flip_x()), (true, false, false));
    // Its vertical mirror image equals its image under both flips: horizontal comes first,
    // so both flags are set.
    assert_eq!(t.is_equivalent(&t.flip_y()), (true, true, true));
    assert_eq!(Tile::blank().is_equivalent(&Tile::blank()), (true, false, false));
}

#[test]
fn extract_cuts_the_four_quadrants() {
    let mut block = [[0u8; 16]; 16];
    for r in 0..16 {
        for c in 0..16 {
            block[r][c] = ((r / 8) * 2 + c / 8 + 1) as u8;
        }
    }
    block[0][0] = 9;
    block[7][15] = 10;
    block[8][7] = 11;
    block[15][15] = 12;
    let tiles = Tile::extract(block);
    assert_eq!(tiles.len(), 4);
    for q in 0..4 {
        for r in 0..8 {
            for c in 0..8 {
                assert_eq!(tiles[q].data[r][c], block[r + 8 * (q / 2)][c + 8 * (q % 2)]);
            }
        }
    }
    assert_eq!(tiles[0].data[0][0], 9);
    assert_eq!(tiles[1].data[7][7], 10);
    assert_eq!(tiles[2].data[0][7], 11);
    assert_eq!(tiles[3].data[7][7], 12);
    assert_eq!(tiles[1].data[0][0], 2);
}

#[test]
fn cut_takes_one_metatile_out_of_an_image() {
    // 32 x 32 pixels; pixel (x, y) holds (x + 3 * y) % 16.
    let mut indexed = vec![0u8; 32 * 32];
    for y in 0..32 {
        for x in 0..32 {
            indexed[y * 32 + x] = ((x + 3 * y) % 16) as u8;
        }
    }
    let block: Metatile = Metatile::cut(&indexed, 32, 32, 1, 1);
    for r in 0..16 {
        for c in 0..16 {
            assert_eq!(block.data[r][c], (((16 + c) + 3 * (16 + r)) % 16) as u8);
        }
    }
    let first = Metatile::cut(&indexed, 32, 32, 0, 0);
    assert_eq!(first.data[0][1], 1);
    assert_eq!(first.data[1][0], 3);
}
