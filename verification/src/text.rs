use vstd::prelude::*;
use vstd::string::{StrSliceExecFns, StringExecFns};
use crate::square::{Square, sq_wf, char_square_m, from_char};
use crate::group::opt_sq;
use crate::board::{Board, board_wf, board_valid, all_fixed, prune_m};

verus! {

/// Why a puzzle text is rejected: not 81 characters of the board alphabet,
/// or a board already in contradiction with itself.
#[derive(Clone, Copy, PartialEq, Eq, Structural, Debug)]
pub enum ParseError {
    MalformedInput,
    Contradiction,
}

/// Every character of the text denotes a cell.
pub open spec fn chars_ok(s: Seq<char>) -> bool {
    forall|i: int| 0 <= i < s.len() ==> (char_square_m(#[trigger] s[i]) is Some)
}

/// The cells the text denotes, character by character.
pub open spec fn squares_of(s: Seq<char>) -> Seq<Square> {
    Seq::new(s.len(), |i: int| opt_sq(char_square_m(s[i])))
}

/// What parsing a puzzle text yields: its 81 cells, validated and then
/// propagated to a fixpoint; or the error saying why it is rejected.
pub open spec fn parse_m(s: Seq<char>) -> Result<Seq<Square>, ParseError> {
    if s.len() != 81 || !chars_ok(s) {
        Err(ParseError::MalformedInput)
    } else if !board_valid(squares_of(s)) {
        Err(ParseError::Contradiction)
    } else {
        match prune_m(squares_of(s)) {
            None => Err(ParseError::Contradiction),
            Some(p) => Ok(p),
        }
    }
}

/// The character a cell renders as: its digit when fixed, '.' otherwise.
pub open spec fn char_of_square(sq: Square) -> char {
    match sq {
        Square::Fixed(d) => digit_char(d as int),
        Square::Possible(_) => '.',
    }
}

/// The character for one digit.
pub open spec fn digit_char(d: int) -> char {
    if d == 1 {
        '1'
    } else if d == 2 {
        '2'
    } else if d == 3 {
        '3'
    } else if d == 4 {
        '4'
    } else if d == 5 {
        '5'
    } else if d == 6 {
        '6'
    } else if d == 7 {
        '7'
    } else if d == 8 {
        '8'
    } else {
        '9'
    }
}

/// The 81-character row-major rendering of a board.
pub open spec fn line_of(b: Seq<Square>) -> Seq<char> {
    Seq::new(b.len(), |j: int| char_of_square(b[j]))
}

/// The nine-line rendering of a board: nine characters and a line break
/// per row.
pub open spec fn text_of(b: Seq<Square>) -> Seq<char> {
    Seq::new(
        90,
        |i: int|
            if i % 10 == 9 {
                '\n'
            } else {
                char_of_square(b[(i / 10) * 9 + (i % 10)])
            },
    )
}

/// A digit character parses back to the cell fixed at that digit.
pub proof fn lemma_digit_char_roundtrip(d: int)
    requires
        1 <= d <= 9,
    ensures
        char_square_m(digit_char(d)) == Some(Square::Fixed(d as u32)),
{
}

/// The one-character rendering of a cell.
fn square_str(sq: &Square) -> (r: &'static str)
    requires
        sq_wf(*sq),
    ensures
        r@.len() == 1,
        r@[0] == char_of_square(*sq),
{
    match sq {
        Square::Possible(_) => {
            proof {
                reveal_strlit(".");
            }
            "."
        },
        Square::Fixed(d) => {
            if *d == 1 {
                proof {
                    reveal_strlit("1");
                }
                "1"
            } else if *d == 2 {
                proof {
                    reveal_strlit("2");
                }
                "2"
            } else if *d == 3 {
                proof {
                    reveal_strlit("3");
                }
                "3"
            } else if *d == 4 {
                proof {
                    reveal_strlit("4");
                }
                "4"
            } else if *d == 5 {
                proof {
                    reveal_strlit("5");
                }
                "5"
            } else if *d == 6 {
                proof {
                    reveal_strlit("6");
                }
                "6"
            } else if *d == 7 {
                proof {
                    reveal_strlit("7");
                }
                "7"
            } else if *d == 8 {
                proof {
                    reveal_strlit("8");
                }
                "8"
            } else {
                proof {
                    reveal_strlit("9");
                }
                "9"
            }
        },
    }
}

impl Board {
    /// Parse an 81-character puzzle text: digits fix cells, '.' leaves them
    /// open. The board is validated and propagated once before it is
    /// returned; a board already contradictory is rejected.
    pub fn from_text(s: &str) -> (r: Result<Board, ParseError>)
        ensures
            match r {
                Ok(b) => parse_m(s@) == Ok::<Seq<Square>, ParseError>(b.squares@) && board_wf(
                    b.squares@,
                ),
                Err(e) => parse_m(s@) == Err::<Seq<Square>, ParseError>(e),
            },
    {
        let n = s.unicode_len();
        if n != 81 {
            return Err(ParseError::MalformedInput);
        }
        let mut squares: Vec<Square> = Vec::new();
        let mut i: usize = 0;
        while i < 81
            invariant
                0 <= i <= 81,
                s@.len() == 81,
                squares@.len() == i,
                forall|i0: int| 0 <= i0 < i ==> (char_square_m(#[trigger] s@[i0]) is Some),
                forall|i0: int|
                    0 <= i0 < i ==> #[trigger] squares@[i0] == opt_sq(char_square_m(s@[i0]))
                        && sq_wf(squares@[i0]),
            decreases 81 - i,
        {
            let c = s.get_char(i);
            match from_char(c) {
                Ok(sq) => {
                    squares.push(sq);
                },
                Err(_) => {
                    proof {
                        assert(char_square_m(s@[i as int]) is None);
                    }
                    return Err(ParseError::MalformedInput);
                },
            }
            i = i + 1;
        }
        proof {
            assert(squares@ =~= squares_of(s@));
        }
        let board = Board::new(squares);
        if !board.is_valid() {
            return Err(ParseError::Contradiction);
        }
        match board.prune() {
            None => Err(ParseError::Contradiction),
            Some(p) => Ok(p),
        }
    }

    /// The 81-character row-major rendering of the board.
    pub fn to_line(&self) -> (r: String)
        requires
            board_wf(self.squares@),
        ensures
            r@ == line_of(self.squares@),
    {
        let mut out = String::from_str("");
        proof {
            reveal_strlit("");
            assert(out@ =~= Seq::<char>::empty());
        }
        let mut j: usize = 0;
        while j < 81
            invariant
                0 <= j <= 81,
                board_wf(self.squares@),
                out@.len() == j,
                forall|j0: int| 0 <= j0 < j ==> #[trigger] out@[j0] == char_of_square(
                    self.squares@[j0],
                ),
            decreases 81 - j,
        {
            out.append(square_str(&self.squares[j]));
            j = j + 1;
        }
        proof {
            assert(out@ =~= line_of(self.squares@));
        }
        out
    }

    /// The nine-line rendering of the board: one row per line, digits for
    /// fixed cells, '.' for open ones. A solved board shows no '.'.
    pub fn to_text(&self) -> (r: String)
        requires
            board_wf(self.squares@),
        ensures
            r@ == text_of(self.squares@),
    {
        let mut out = String::from_str("");
        proof {
            reveal_strlit("");
            assert(out@ =~= Seq::<char>::empty());
        }
        let mut row: usize = 0;
        while row < 9
            invariant
                0 <= row <= 9,
                board_wf(self.squares@),
                out@.len() == row * 10,
                forall|i0: int| 0 <= i0 < row * 10 ==> #[trigger] out@[i0] == text_of(
                    self.squares@,
                )[i0],
            decreases 9 - row,
        {
            let mut col: usize = 0;
            while col < 9
                invariant
                    0 <= row < 9,
                    0 <= col <= 9,
                    board_wf(self.squares@),
                    out@.len() == row * 10 + col,
                    forall|i0: int| 0 <= i0 < row * 10 + col ==> #[trigger] out@[i0] == text_of(
                        self.squares@,
                    )[i0],
                decreases 9 - col,
            {
                let idx: usize = row * 9 + col;
                let ghost prev = out@;
                out.append(square_str(&self.squares[idx]));
                proof {
                    let i0 = row * 10 + col;
                    vstd::arithmetic::div_mod::lemma_fundamental_div_mod_converse(
                        i0 as int,
                        10,
                        row as int,
                        col as int,
                    );
                    assert(out@[i0 as int] == char_of_square(self.squares@[idx as int]));
                    assert(out@[i0 as int] == text_of(self.squares@)[i0 as int]);
                }
                col = col + 1;
            }
            let ghost prev = out@;
            out.append("\n");
            proof {
                reveal_strlit("\n");
                let i0 = row * 10 + 9;
                vstd::arithmetic::div_mod::lemma_fundamental_div_mod_converse(
                    i0 as int,
                    10,
                    row as int,
                    9,
                );
                assert(out@[i0 as int] == '\n');
                assert(out@[i0 as int] == text_of(self.squares@)[i0 as int]);
            }
            row = row + 1;
        }
        proof {
            assert(out@ =~= text_of(self.squares@));
        }
        out
    }
}

} // verus!
