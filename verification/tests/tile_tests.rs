use wangtiles::TileError;
use wangtiles::tile::{type_eq, Tile, TileType};

#[test]
fn test_tile_possible_values_bottom() {
    let tile = Tile::new(4);
    let vs = tile.get_possible(2).unwrap();
    assert!(&vs == &[1, 3, 5, 7, 9, 11, 13, 15]);
}

#[test]
fn test_tile_possible_values_left() {
    let tile = Tile::new(4);
    let vs = tile.get_possible(1).unwrap();
    assert!(&vs == &[0, 1, 2, 3, 4, 5, 6, 7]);
}

#[test]
fn test_possible_values_north_edge() {
    // Edge 0 queries the candidates whose South bit mirrors this tile's
    // North bit; code 4 has no North connector.
    let tile = Tile::new(4);
    let vs = tile.get_possible(0).unwrap();
    assert!(&vs == &[0, 1, 2, 3, 8, 9, 10, 11]);
}

#[test]
fn test_possible_nonempty_sorted_in_range() {
    for c in 0..16usize {
        let tile = Tile::new(c);
        for e in 0..4u8 {
            let vs = tile.get_possible(e).unwrap();
            assert!(!vs.is_empty());
            for i in 0..vs.len() {
                assert!(vs[i] < 16);
                if i + 1 < vs.len() {
                    assert!(vs[i] < vs[i + 1]);
                }
            }
        }
    }
}

#[test]
fn test_possible_symmetry_east_west() {
    for a in 0..16usize {
        let ta = Tile::new(a);
        let east = ta.get_possible(1).unwrap();
        for b in east {
            let tb = Tile::new(b as usize);
            let west = tb.get_possible(3).unwrap();
            assert!(west.contains(&(a as u8)));
        }
    }
}

#[test]
fn test_possible_symmetry_north_south() {
    for a in 0..16usize {
        let ta = Tile::new(a);
        let south = ta.get_possible(2).unwrap();
        for b in south {
            let tb = Tile::new(b as usize);
            let north = tb.get_possible(0).unwrap();
            assert!(north.contains(&(a as u8)));
        }
    }
}

#[test]
fn test_edge_out_of_range_is_invalid_argument() {
    let tile = Tile::new(4);
    assert_eq!(tile.get_possible(4), Err(TileError::InvalidArgument));
    assert_eq!(tile.get_possible(255), Err(TileError::InvalidArgument));
}

#[test]
fn test_new_to_u8_round_trip() {
    for c in 0..16usize {
        assert_eq!(Tile::new(c).to_u8(), c as u8);
    }
}

#[test]
fn test_generate_deterministic() {
    let picks: Vec<usize> = (0..36).map(|i| i * 7 + 3).collect();
    let g1 = wangtiles::grid::generate(6, 6, &picks).unwrap();
    let g2 = wangtiles::grid::generate(6, 6, &picks).unwrap();
    assert_eq!(g1, g2);
    assert_eq!(g1.len(), 36);
}

#[test]
fn test_generate_grid_is_compatible() {
    let picks: Vec<usize> = (0..48).map(|i| i * 13 + 5).collect();
    let w = 8usize;
    let h = 6usize;
    let g = wangtiles::grid::generate(w, h, &picks).unwrap();
    assert_eq!(g.len(), w * h);
    for row in 0..h {
        for col in 0..w {
            let here = g[row * w + col];
            assert!(here < 16);
            if col + 1 < w {
                let right = g[row * w + col + 1];
                let east = Tile::new(here as usize).get_possible(1).unwrap();
                assert!(east.contains(&right));
            }
            if row + 1 < h {
                let below = g[(row + 1) * w + col];
                let south = Tile::new(here as usize).get_possible(2).unwrap();
                assert!(south.contains(&below));
            }
        }
    }
}

#[test]
fn test_generate_random_grid_is_compatible() {
    let w = 5usize;
    let h = 4usize;
    let g = wangtiles::grid::generate_random(w, h).unwrap();
    assert_eq!(g.len(), w * h);
    for row in 0..h {
        for col in 0..w {
            let here = g[row * w + col];
            assert!(here < 16);
            if col + 1 < w {
                let east = Tile::new(here as usize).get_possible(1).unwrap();
                assert!(east.contains(&g[row * w + col + 1]));
            }
            if row + 1 < h {
                let south = Tile::new(here as usize).get_possible(2).unwrap();
                assert!(south.contains(&g[(row + 1) * w + col]));
            }
        }
    }
}

#[test]
fn test_type_eq_presence_only() {
    assert!(type_eq(&Some(TileType::North), &Some(TileType::South)));
    assert!(type_eq(&None, &None));
    assert!(!type_eq(&Some(TileType::East), &None));
    assert!(!type_eq(&None, &Some(TileType::West)));
}

#[test]
fn test_get_bit() {
    assert!(wangtiles::tile::get_bit(5, 0));
    assert!(!wangtiles::tile::get_bit(5, 1));
    assert!(wangtiles::tile::get_bit(5, 2));
    assert!(!wangtiles::tile::get_bit(5, 3));
    assert!(wangtiles::tile::get_bit(0x8000_0000, 31));
}
