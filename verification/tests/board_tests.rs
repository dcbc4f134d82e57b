use sudoku::board::Board;
use sudoku::possibilities::Possibilities;
use sudoku::square::Square;
use sudoku::text::ParseError;

const EMPTY: &str =
    ".................................................................................";

const EASY: &str =
    "53..7....6..195....98....6.8...6...34..8.3..17...2...6.6....28....419..5....8..79";

const EASY_SOLUTION: &str =
    "534678912672195348198342567859761423426853791713924856961537284287419635345286179";

#[test]
fn parse_rejects_wrong_length() {
    assert_eq!(Board::from_text("123").unwrap_err(), ParseError::MalformedInput);
    let eighty = &EMPTY[..80];
    assert_eq!(Board::from_text(eighty).unwrap_err(), ParseError::MalformedInput);
    let mut too_long = String::from(EMPTY);
    too_long.push('.');
    assert_eq!(Board::from_text(&too_long).unwrap_err(), ParseError::MalformedInput);
}

#[test]
fn parse_rejects_bad_characters() {
    let mut bad = String::from(&EMPTY[..80]);
    bad.push('x');
    assert_eq!(Board::from_text(&bad).unwrap_err(), ParseError::MalformedInput);
    let mut zero = String::from(&EMPTY[..80]);
    zero.push('0');
    assert_eq!(Board::from_text(&zero).unwrap_err(), ParseError::MalformedInput);
}

#[test]
fn duplicate_in_row_is_rejected_immediately() {
    // '5' at positions 0 and 1 shares a row: no solution, whatever the
    // other 79 cells hold.
    let mut s = String::from("55");
    for _ in 0..79 {
        s.push('.');
    }
    assert_eq!(Board::from_text(&s).unwrap_err(), ParseError::Contradiction);
}

#[test]
fn duplicate_in_column_is_rejected() {
    let mut cells = vec!['.'; 81];
    cells[0] = '7';
    cells[9] = '7';
    let s: String = cells.into_iter().collect();
    assert_eq!(Board::from_text(&s).unwrap_err(), ParseError::Contradiction);
}

#[test]
fn duplicate_in_box_is_rejected() {
    let mut cells = vec!['.'; 81];
    cells[0] = '3';
    cells[10] = '3';
    let s: String = cells.into_iter().collect();
    assert_eq!(Board::from_text(&s).unwrap_err(), ParseError::Contradiction);
}

#[test]
fn empty_board_parses_and_propagation_is_a_no_op() {
    let board = Board::from_text(EMPTY).unwrap();
    for sq in board.squares.iter() {
        assert_eq!(*sq, Square::Possible(Possibilities { bits: 511 }));
    }
    // pruning the already-pruned board changes nothing
    let again = board.prune().unwrap();
    assert_eq!(again, board);
}

#[test]
fn empty_board_solves_to_some_valid_grid() {
    let board = Board::from_text(EMPTY).unwrap();
    let solved = board.solve().expect("the empty grid is solvable");
    assert!(solved.is_solved());
    assert!(solved.is_valid());
    let line = solved.to_line();
    assert_eq!(line.len(), 81);
    assert!(!line.contains('.'));
}

#[test]
fn easy_puzzle_solves_to_published_solution() {
    let board = Board::from_text(EASY).unwrap();
    let solved = board.solve().expect("this puzzle is solvable");
    assert_eq!(solved.to_line(), EASY_SOLUTION);
}

#[test]
fn solving_keeps_the_given_digits() {
    let board = Board::from_text(EASY).unwrap();
    let solved = board.solve().unwrap();
    let line = solved.to_line();
    for (i, c) in EASY.chars().enumerate() {
        if c != '.' {
            assert_eq!(line.as_bytes()[i], c as u8);
        }
    }
}

#[test]
fn prune_is_idempotent_on_a_real_puzzle() {
    // from_text already propagates once, so the board comes back pruned.
    let board = Board::from_text(EASY).unwrap();
    let once = board.prune().unwrap();
    assert_eq!(once, board);
    let twice = once.prune().unwrap();
    assert_eq!(twice, once);
}

#[test]
fn format_then_parse_round_trips() {
    let solved = Board::from_text(EASY).unwrap().solve().unwrap();
    let line = solved.to_line();
    let reparsed = Board::from_text(&line).unwrap();
    assert_eq!(reparsed, solved);
}

#[test]
fn to_text_renders_nine_lines() {
    let board = Board::from_text(EASY).unwrap();
    let text = board.to_text();
    let lines: Vec<&str> = text.lines().collect();
    assert_eq!(lines.len(), 9);
    for line in lines.iter() {
        assert_eq!(line.len(), 9);
    }
    let solved = board.solve().unwrap();
    let solved_text = solved.to_text();
    assert!(!solved_text.contains('.'));
    assert_eq!(solved_text.lines().count(), 9);
}

#[test]
fn unsolvable_but_locally_valid_board_returns_none() {
    // cell 0 is boxed in: its row holds 1..=8 and its column holds 9, so
    // propagation empties it, yet no group fixes a digit twice.
    let mut cells: Vec<Square> = vec![Square::any(); 81];
    for d in 1..=8u32 {
        cells[d as usize] = Square::new_fixed(d);
    }
    cells[9] = Square::new_fixed(9);
    let board = Board::new(cells);
    assert!(board.is_valid());
    assert_eq!(board.solve(), None);
}

#[test]
fn next_grids_branches_on_fewest_candidates() {
    // cell 2 has two candidates after propagation of row digits; branching
    // fixes its lowest candidate on the left board.
    let mut cells = vec!['.'; 81];
    // row 0: 1,2,3,4,5,6,7 fixed, cells 7 and 8 open with {8,9}
    for (i, d) in ['1', '2', '3', '4', '5', '6', '7'].iter().enumerate() {
        cells[i] = *d;
    }
    let s: String = cells.into_iter().collect();
    let board = Board::from_text(&s).unwrap();
    assert!(!board.is_solved());
    let (left, right) = board.next_grids();
    // the first open cell with the fewest candidates is cell 7 ({8,9})
    assert_eq!(left.squares[7], Square::Fixed(8));
    assert_eq!(right.squares[7], Square::Fixed(9));
}

#[test]
fn rows_cols_boxes_walk_the_right_indices() {
    let board = Board::from_text(EMPTY).unwrap();
    let mut rows = board.rows();
    let first_row = rows.next_group().unwrap();
    assert_eq!(first_row, vec![0, 1, 2, 3, 4, 5, 6, 7, 8]);
    let mut cols = board.cols();
    let first_col = cols.next_group().unwrap();
    assert_eq!(first_col, vec![0, 9, 18, 27, 36, 45, 54, 63, 72]);
    let mut boxes = board.boxes();
    let first_box = boxes.next_group().unwrap();
    assert_eq!(first_box, vec![0, 1, 2, 9, 10, 11, 18, 19, 20]);
    let mut count = 1;
    while rows.next_group().is_some() {
        count += 1;
    }
    assert_eq!(count, 9);
}

#[test]
fn programmed_iterator_stops_after_program() {
    let mut it = sudoku::programmed_iterator::ProgrammedIterator::new(vec![0, 1, 2]);
    assert!(it.next_group().is_none());
    let mut it9 = sudoku::programmed_iterator::ProgrammedIterator::new(vec![
        4, 5, 6, 7, 8, 0, 1, 2, 3,
    ]);
    assert_eq!(it9.next_group().unwrap(), vec![4, 5, 6, 7, 8, 0, 1, 2, 3]);
    assert!(it9.next_group().is_none());
}

#[test]
fn propagation_never_removes_the_solution_digit() {
    // every digit of the known solution survives pruning: each pruned cell
    // either fixes that digit or still offers it among its candidates.
    let pruned = Board::from_text(EASY).unwrap();
    let solved = pruned.solve().unwrap();
    for (i, sq) in pruned.squares.iter().enumerate() {
        let answer = match solved.squares[i] {
            Square::Fixed(d) => d,
            Square::Possible(_) => unreachable!("a solved board is wholly fixed"),
        };
        match sq {
            Square::Fixed(d) => assert_eq!(*d, answer),
            Square::Possible(p) => assert!(p.has_digit(answer)),
        }
    }
}

#[test]
fn well_formedness_check() {
    let board = Board::from_text(EMPTY).unwrap();
    assert!(board.is_well_formed());
    let short = Board { squares: vec![Square::any(); 80] };
    assert!(!short.is_well_formed());
    let mut bad = vec![Square::any(); 81];
    bad[3] = Square::Possible(Possibilities { bits: 512 });
    assert!(!Board { squares: bad }.is_well_formed());
}
