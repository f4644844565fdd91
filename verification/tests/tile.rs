use tile_collapse::Tile;
use tile_collapse::tile::generate_entropy_lookup_table;

#[test]
fn entropy_table_matches_popcount() {
    let table = generate_entropy_lookup_table();
    assert_eq!(table.len(), 256);
    for v in 0..=255u8 {
        assert_eq!(table[v as usize] as u32, v.count_ones());
    }
    assert_eq!(table[0], 0);
    assert_eq!(table[255], 8);
}

#[test]
fn entropy_of_masks() {
    assert_eq!(Tile::new(0).entropy(), 0);
    assert_eq!(Tile::new(0xff).entropy(), 8);
    assert_eq!(Tile::new(0b0000_1010).entropy(), 2);
    assert_eq!(Tile::default().entropy(), 8);
}

#[test]
fn propogate_narrows_to_compatible() {
    // Neighbor fixed to type 3: only types 2, 3, 4 tolerate it.
    let mut t = Tile::new(0xff);
    let changed = t.propogate(Tile::new(0b0000_1000));
    assert!(changed);
    assert_eq!(t.state(), 0b0001_1100);
    // Every surviving type has a compatible candidate in the neighbor;
    // the cleared types do not.
    let compat: [u8; 8] = [0x03, 0x07, 0x0e, 0x1c, 0x38, 0x70, 0xe0, 0xc0];
    for i in 0..8 {
        let bit = 1u8 << i;
        if t.state() & bit != 0 {
            assert!(0b0000_1000 & compat[i] != 0);
        } else {
            assert!(0b0000_1000 & compat[i] == 0);
        }
    }
}

#[test]
fn propogate_is_monotonic() {
    let mut t = Tile::new(0xff);
    let neighbors = [0b0000_1000u8, 0b0000_0010, 0xff, 0b0000_0100];
    for n in neighbors {
        let before = t.state();
        t.propogate(Tile::new(n));
        // Bits are only ever cleared, never set.
        assert_eq!(t.state() & before, t.state());
    }
}

#[test]
fn propogate_is_idempotent() {
    let mut t = Tile::new(0xff);
    let neighbor = Tile::new(0b0000_1000);
    let first = t.propogate(neighbor);
    assert!(first);
    let mask_after = t.state();
    let second = t.propogate(neighbor);
    assert!(!second);
    assert_eq!(t.state(), mask_after);
}

#[test]
fn propogate_unchanged_reports_false() {
    // A fully unconstrained neighbor rules nothing out.
    let mut t = Tile::new(0xff);
    assert!(!t.propogate(Tile::new(0xff)));
    assert_eq!(t.state(), 0xff);
}

#[test]
fn propogate_can_reach_contradiction() {
    // Type 0 next to a neighbor fixed to type 7: no candidate survives.
    let mut t = Tile::new(0b0000_0001);
    let changed = t.propogate(Tile::new(0b1000_0000));
    assert!(changed);
    assert_eq!(t.state(), 0);
    assert_eq!(t.entropy(), 0);
}

#[test]
fn collapse_yields_singleton_subset() {
    for _ in 0..20 {
        let mut t = Tile::new(0b1011_0000);
        t.collapse();
        let m = t.state();
        assert_eq!(m.count_ones(), 1);
        assert_eq!(m & 0b1011_0000, m);
    }
}

#[test]
fn collapse_of_full_mask() {
    let mut t = Tile::default();
    t.collapse();
    assert_eq!(t.entropy(), 1);
}

#[test]
fn collapse_of_contradiction_is_noop() {
    let mut t = Tile::new(0);
    t.collapse();
    assert_eq!(t.state(), 0);
    assert_eq!(t.entropy(), 0);
}

#[test]
fn print_tile_glyphs() {
    assert_eq!(Tile::new(0b0000_0001).print_tile(), '1');
    assert_eq!(Tile::new(0b0000_0010).print_tile(), '2');
    assert_eq!(Tile::new(0b0000_0100).print_tile(), '3');
    assert_eq!(Tile::new(0b0000_1000).print_tile(), '4');
    assert_eq!(Tile::new(0b0001_0000).print_tile(), '5');
    assert_eq!(Tile::new(0b0010_0000).print_tile(), '6');
    assert_eq!(Tile::new(0b0100_0000).print_tile(), '7');
    assert_eq!(Tile::new(0b1000_0000).print_tile(), '8');
    assert_eq!(Tile::new(0).print_tile(), ' ');
    assert_eq!(Tile::new(0xff).print_tile(), ' ');
}

#[test]
fn print_state_binary() {
    assert_eq!(Tile::new(0b1011_0001).print_state(), "10110001");
    assert_eq!(Tile::new(0).print_state(), "00000000");
    assert_eq!(Tile::new(0xff).print_state(), "11111111");
}
