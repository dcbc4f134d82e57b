use sudoku::possibilities::{Possibilities, PossibilityMap};

#[test]
fn singleton_masks() {
    for d in 1..=9u32 {
        let p = Possibilities::new_from_u32(d);
        assert_eq!(p.bits, 1u32 << (d - 1));
        assert_eq!(p.pop_count(), 1);
        assert_eq!(p.single_selection(), d);
        assert_eq!(p.least_set(), d);
        assert!(p.has_digit(d));
    }
}

#[test]
fn empty_and_all() {
    let e = Possibilities::empty();
    assert_eq!(e.bits, 0);
    assert!(e.is_empty());
    assert_eq!(e.pop_count(), 0);
    assert_eq!(e.least_set(), 0);
    let a = Possibilities::all();
    assert_eq!(a.bits, 511);
    assert!(!a.is_empty());
    assert_eq!(a.pop_count(), 9);
    assert_eq!(a.least_set(), 1);
}

#[test]
fn each_lists_all_nine() {
    let all = Possibilities::each();
    assert_eq!(all.len(), 9);
    for (i, p) in all.iter().enumerate() {
        assert_eq!(p.bits, 1u32 << i);
    }
}

#[test]
fn set_algebra() {
    let a = Possibilities { bits: 0b0000_0111 }; // {1,2,3}
    let b = Possibilities { bits: 0b0000_0110 }; // {2,3}
    assert_eq!(a.union(b).bits, 0b0000_0111);
    assert_eq!(a.difference(b).bits, 0b0000_0001);
    assert_eq!(a.intersect(b).bits, 0b0000_0110);
    assert!(a.intersects(b));
    assert!(a.contains(b));
    assert!(!b.contains(a));
    let c = Possibilities { bits: 0b1_0000_0000 }; // {9}
    assert!(!a.intersects(c));
    assert_eq!(a.difference(c).bits, a.bits);
}

#[test]
fn pop_count_counts_digits() {
    assert_eq!(Possibilities { bits: 0b1_0101_0101 }.pop_count(), 5);
    assert_eq!(Possibilities { bits: 0b0_1010_1010 }.pop_count(), 4);
}

#[test]
fn least_set_picks_lowest() {
    assert_eq!(Possibilities { bits: 0b1_1000_0000 }.least_set(), 8);
    assert_eq!(Possibilities { bits: 0b0_0010_0100 }.least_set(), 3);
}

#[test]
fn show_possibles_renders_hits() {
    let a = Possibilities { bits: 0b0000_0011 };
    let one = Possibilities::new_from_u32(1);
    let nine = Possibilities::new_from_u32(9);
    assert_eq!(a.show_possibles(one, "1"), "1");
    assert_eq!(a.show_possibles(nine, "9"), " ");
}

#[test]
fn map_appends_and_merges() {
    let mut m = PossibilityMap::new();
    assert_eq!(m.entries.len(), 0);
    let k1 = Possibilities::new_from_u32(1);
    let k2 = Possibilities::new_from_u32(2);
    m.add_possible(k1, Possibilities::new_from_u32(3));
    m.add_possible(k2, Possibilities::new_from_u32(4));
    m.add_possible(k1, Possibilities::new_from_u32(5));
    assert_eq!(m.entries.len(), 2);
    assert_eq!(m.entries[0].0, k1);
    assert_eq!(m.entries[0].1.bits, (1 << 2) | (1 << 4)); // {3,5}
    assert_eq!(m.entries[1].0, k2);
    assert_eq!(m.entries[1].1.bits, 1 << 3); // {4}
}
