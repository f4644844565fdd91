use tile_collapse::Tile;
use tile_collapse::TileMap;
use tile_collapse::tile_map::MAP_SIZE;

#[test]
fn new_grid_is_unconstrained() {
    let map = TileMap::new(3);
    assert_eq!(map.size(), 3);
    for row in 0..3 {
        for col in 0..3 {
            assert_eq!(map.get_tile(row, col).state(), 0xff);
            assert_eq!(map.get_tile(row, col).entropy(), 8);
        }
    }
}

#[test]
fn default_grid_dimensions() {
    let map = TileMap::default();
    assert_eq!(map.size(), MAP_SIZE);
    assert_eq!(map.get_tile(0, 0).entropy(), 8);
    assert_eq!(map.get_tile(MAP_SIZE - 1, MAP_SIZE - 1).entropy(), 8);
}

#[test]
fn entropy_scans_on_fresh_grid() {
    let map = TileMap::new(2);
    assert_eq!(map.find_highest_entropy(), 8);
    assert_eq!(map.find_lowest_entropy(), 8);
}

#[test]
fn lowest_entropy_sentinel_on_resolved_grid() {
    let mut map = TileMap::new(1);
    map.set_tile(0, 0, Tile::new(0b0000_0001));
    assert_eq!(map.find_lowest_entropy(), 255);
    assert_eq!(map.find_highest_entropy(), 1);
}

#[test]
fn lowest_entropy_skips_resolved_cells() {
    let mut map = TileMap::new(2);
    map.set_tile(0, 0, Tile::new(0b0000_0001));
    map.set_tile(0, 1, Tile::new(0b0000_0110));
    assert_eq!(map.find_lowest_entropy(), 2);
    assert_eq!(map.find_highest_entropy(), 8);
}

#[test]
fn center_collapse_restricts_adjacent_cells() {
    // A 3x3 grid, center forced to type 3: each of the 4 adjacent cells,
    // propagated once against the center, is restricted to types {2, 3, 4};
    // the corners are not 4-adjacent to the center and are untouched.
    let mut map = TileMap::new(3);
    map.set_tile(1, 1, Tile::new(0b0000_1000));
    let center = map.get_tile(1, 1);
    let adjacent = [(0, 1), (2, 1), (1, 0), (1, 2)];
    for (row, col) in adjacent {
        let mut t = map.get_tile(row, col);
        let changed = t.propogate(center);
        assert!(changed);
        assert_eq!(t.state(), 0b0001_1100);
        map.set_tile(row, col, t);
    }
    for (row, col) in [(0, 0), (0, 2), (2, 0), (2, 2)] {
        assert_eq!(map.get_tile(row, col).state(), 0xff);
        assert_eq!(map.get_tile(row, col).entropy(), 8);
    }
}

#[test]
fn propagation_ripples_depth_first() {
    // Full recursive propagation from the collapsed center of a 3x3 grid:
    // the 4 adjacent cells keep types {2, 3, 4}; the ripple also reaches
    // the corners, which keep every type compatible with {2, 3, 4}.
    let mut map = TileMap::new(3);
    map.set_tile(1, 1, Tile::new(0b0000_1000));
    map.propogate_neighbors(1, 1);
    assert_eq!(map.get_tile(1, 1).state(), 0b0000_1000);
    for (row, col) in [(0, 1), (2, 1), (1, 0), (1, 2)] {
        assert_eq!(map.get_tile(row, col).state(), 0b0001_1100);
    }
    for (row, col) in [(0, 0), (0, 2), (2, 0), (2, 2)] {
        assert_eq!(map.get_tile(row, col).state(), 0b0011_1110);
    }
}

#[test]
fn propagation_skips_resolved_neighbors() {
    // A resolved neighbor is never renegotiated, even when it is
    // incompatible with the root cell.
    let mut map = TileMap::new(2);
    map.set_tile(0, 0, Tile::new(0b1000_0000));
    map.set_tile(0, 1, Tile::new(0b0000_0001));
    map.propogate_neighbors(0, 1);
    assert_eq!(map.get_tile(0, 0).state(), 0b1000_0000);
}

#[test]
fn single_cell_run() {
    let mut map = TileMap::new(1);
    assert_eq!(map.get_tile(0, 0).entropy(), 8);
    map.collapse_map();
    let t = map.get_tile(0, 0);
    assert_eq!(t.entropy(), 1);
    assert_eq!(t.state().count_ones(), 1);
}

#[test]
fn run_resolves_every_cell() {
    let mut map = TileMap::new(4);
    map.collapse_map();
    for row in 0..4 {
        for col in 0..4 {
            assert!(map.get_tile(row, col).entropy() <= 1);
        }
    }
}

#[test]
fn run_takes_at_most_cell_count_steps() {
    let mut map = TileMap::new(3);
    let mut steps: usize = 0;
    while map.find_highest_entropy() > 1 {
        map.collapse();
        steps += 1;
        assert!(steps <= 9);
    }
    for row in 0..3 {
        for col in 0..3 {
            assert!(map.get_tile(row, col).entropy() <= 1);
        }
    }
}

#[test]
fn collapse_step_resolves_a_cell() {
    let mut map = TileMap::new(2);
    map.collapse();
    let mut unresolved: usize = 0;
    for row in 0..2 {
        for col in 0..2 {
            if map.get_tile(row, col).entropy() > 1 {
                unresolved += 1;
            }
        }
    }
    assert!(unresolved <= 3);
}

#[test]
fn collapse_on_resolved_grid_changes_nothing() {
    // With no unresolved cell left, selection falls back to (0, 0) and the
    // step leaves the grid as it was.
    let mut map = TileMap::new(2);
    map.set_tile(0, 0, Tile::new(0b0000_0001));
    map.set_tile(0, 1, Tile::new(0b0000_0010));
    map.set_tile(1, 0, Tile::new(0b0000_0001));
    map.set_tile(1, 1, Tile::new(0b0000_0010));
    map.collapse();
    assert_eq!(map.get_tile(0, 0).state(), 0b0000_0001);
    assert_eq!(map.get_tile(0, 1).state(), 0b0000_0010);
    assert_eq!(map.get_tile(1, 0).state(), 0b0000_0001);
    assert_eq!(map.get_tile(1, 1).state(), 0b0000_0010);
}

#[test]
fn resolved_neighbors_stay_compatible() {
    // After a full run, any two 4-adjacent cells that both resolved to a
    // single type differ by at most one type index: propagation narrowed
    // each before it collapsed.
    let mut map = TileMap::new(5);
    map.collapse_map();
    for row in 0..5 {
        for col in 0..5 {
            let a = map.get_tile(row, col);
            if a.entropy() != 1 {
                continue;
            }
            let ta = a.state().trailing_zeros() as i32;
            if col + 1 < 5 {
                let b = map.get_tile(row, col + 1);
                if b.entropy() == 1 {
                    let tb = b.state().trailing_zeros() as i32;
                    assert!((ta - tb).abs() <= 1);
                }
            }
            if row + 1 < 5 {
                let b = map.get_tile(row + 1, col);
                if b.entropy() == 1 {
                    let tb = b.state().trailing_zeros() as i32;
                    assert!((ta - tb).abs() <= 1);
                }
            }
        }
    }
}
