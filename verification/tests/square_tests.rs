use sudoku::possibilities::Possibilities;
use sudoku::square::{Square, from_char};

#[test]
fn new_fixed_and_any() {
    let f = Square::new_fixed(7);
    assert_eq!(f, Square::Fixed(7));
    assert!(f.is_fixed());
    assert_eq!(f.possibles_count(), 1);
    assert_eq!(f.fixed(), Some(Possibilities { bits: 1 << 6 }));
    assert_eq!(f.possibles(), None);

    let a = Square::any();
    assert_eq!(a, Square::Possible(Possibilities { bits: 511 }));
    assert!(!a.is_fixed());
    assert_eq!(a.possibles_count(), 9);
    assert_eq!(a.fixed(), None);
    assert_eq!(a.possibles(), Some(Possibilities { bits: 511 }));
}

#[test]
fn minus_leaves_fixed_cells_alone() {
    let f = Square::new_fixed(5);
    let all = Possibilities { bits: 511 };
    assert_eq!(f.minus(all), Some(Square::Fixed(5)));
}

#[test]
fn minus_shrinks_possible_cells() {
    let p = Square::Possible(Possibilities { bits: 0b0000_0111 }); // {1,2,3}
    let rm = Possibilities { bits: 0b0000_0001 }; // {1}
    assert_eq!(p.minus(rm), Some(Square::Possible(Possibilities { bits: 0b0000_0110 })));
}

#[test]
fn minus_normalizes_single_candidate_to_fixed() {
    let p = Square::Possible(Possibilities { bits: 0b0000_0011 }); // {1,2}
    let rm = Possibilities { bits: 0b0000_0001 }; // {1}
    assert_eq!(p.minus(rm), Some(Square::Fixed(2)));
}

#[test]
fn minus_signals_contradiction_on_emptied_cell() {
    let p = Square::Possible(Possibilities { bits: 0b0000_0011 }); // {1,2}
    let rm = Possibilities { bits: 0b0000_0011 };
    assert_eq!(p.minus(rm), None);
}

#[test]
fn split_takes_least_candidate() {
    let p = Square::Possible(Possibilities { bits: 0b0001_1100 }); // {3,4,5}
    let (fixed, rest) = p.split();
    assert_eq!(fixed, Square::Fixed(3));
    assert_eq!(rest, Square::Possible(Possibilities { bits: 0b0001_1000 }));
}

#[test]
fn split_of_pair_fixes_both_sides() {
    let p = Square::Possible(Possibilities { bits: 0b0000_0101 }); // {1,3}
    let (fixed, rest) = p.split();
    assert_eq!(fixed, Square::Fixed(1));
    assert_eq!(rest, Square::Fixed(3));
}

#[test]
fn from_char_digits_and_dot() {
    assert_eq!(from_char('5'), Ok(Square::Fixed(5)));
    assert_eq!(from_char('1'), Ok(Square::Fixed(1)));
    assert_eq!(from_char('9'), Ok(Square::Fixed(9)));
    assert_eq!(from_char('.'), Ok(Square::any()));
    assert_eq!(from_char('0'), Err('0'));
    assert_eq!(from_char('x'), Err('x'));
    assert_eq!(from_char(' '), Err(' '));
}
