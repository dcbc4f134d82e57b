use sudoku::possibilities::Possibilities;
use sudoku::square::Square;
use sudoku::group::{valid_group, prune_group, fixed_values, exclusive_possibilities};

fn poss(bits: u32) -> Square {
    Square::Possible(Possibilities { bits })
}

#[test]
fn fixed_values_unions_fixed_digits() {
    let group = vec![
        Square::Fixed(1),
        Square::Fixed(4),
        poss(0b0000_0110),
        poss(0b1100_0000),
        Square::Fixed(9),
        poss(0b0000_0110),
        poss(0b1100_0000),
        poss(0b0011_0000),
        poss(0b0011_0000),
    ];
    let f = fixed_values(&group);
    assert_eq!(f.bits, (1 << 0) | (1 << 3) | (1 << 8)); // {1,4,9}
}

#[test]
fn valid_group_accepts_distinct_fixed() {
    let group = vec![
        Square::Fixed(1),
        Square::Fixed(2),
        Square::Fixed(3),
        poss(0b1111_0000),
        poss(0b1111_0000),
        poss(0b1111_0000),
        poss(0b1111_0000),
        Square::Fixed(4),
        poss(0b1111_0000),
    ];
    assert!(valid_group(&group));
}

#[test]
fn valid_group_rejects_duplicate_fixed() {
    let group = vec![
        Square::Fixed(5),
        Square::Fixed(5),
        poss(511),
        poss(511),
        poss(511),
        poss(511),
        poss(511),
        poss(511),
        poss(511),
    ];
    assert!(!valid_group(&group));
}

#[test]
fn prune_group_eliminates_fixed_digits() {
    // one fixed 1; the open cells must lose candidate 1.
    let group = vec![
        Square::Fixed(1),
        poss(0b0000_0011), // {1,2} -> becomes Fixed(2)
        poss(0b0000_0111), // {1,2,3} -> {2,3}
        poss(511),
        poss(511),
        poss(511),
        poss(511),
        poss(511),
        poss(511),
    ];
    let pruned = prune_group(&group).expect("no contradiction here");
    assert_eq!(pruned[0], Square::Fixed(1));
    assert_eq!(pruned[1], Square::Fixed(2));
    assert_eq!(pruned[2], poss(0b0000_0110));
}

#[test]
fn prune_group_signals_contradiction() {
    // the open pair {1,2} is wiped out by the two fixed cells.
    let group = vec![
        Square::Fixed(1),
        Square::Fixed(2),
        poss(0b0000_0011), // {1,2} -> emptied
        poss(511),
        poss(511),
        poss(511),
        poss(511),
        poss(511),
        poss(511),
    ];
    assert_eq!(prune_group(&group), None);
}

#[test]
fn prune_group_applies_hidden_pair() {
    // digits 1 and 2 are offered only by the first two cells, so those two
    // cells shed every other candidate.
    let group = vec![
        poss(0b0001_0011), // {1,2,5} -> {1,2}
        poss(0b0001_0011), // {1,2,5} -> {1,2}
        poss(0b0011_0000), // {5,6}
        poss(0b0011_0000), // {5,6}
        Square::Fixed(3),
        Square::Fixed(4),
        Square::Fixed(7),
        Square::Fixed(8),
        Square::Fixed(9),
    ];
    let pruned = prune_group(&group).expect("no contradiction here");
    assert_eq!(pruned[0], poss(0b0000_0011));
    assert_eq!(pruned[1], poss(0b0000_0011));
    assert_eq!(pruned[2], poss(0b0011_0000));
    assert_eq!(pruned[3], poss(0b0011_0000));
    assert_eq!(pruned[4], Square::Fixed(3));
}

#[test]
fn exclusive_possibilities_finds_hidden_pair() {
    let group = vec![
        poss(0b0001_0011), // {1,2,5}
        poss(0b0001_0011), // {1,2,5}
        poss(0b0011_0000), // {5,6}
        poss(0b0011_0000), // {5,6}
        Square::Fixed(3),
        Square::Fixed(4),
        Square::Fixed(7),
        Square::Fixed(8),
        Square::Fixed(9),
    ];
    let excl = exclusive_possibilities(&group);
    assert!(excl.contains(&Possibilities { bits: 0b0000_0011 }));
    assert!(!excl.contains(&Possibilities { bits: 0b0011_0000 }));
}

#[test]
fn exclusive_possibilities_ignores_wide_digits() {
    // every digit is offered by at least four cells: nothing is exclusive.
    let group = vec![
        poss(511),
        poss(511),
        poss(511),
        poss(511),
        poss(511),
        poss(511),
        poss(511),
        poss(511),
        poss(511),
    ];
    let excl = exclusive_possibilities(&group);
    assert!(excl.is_empty());
}
