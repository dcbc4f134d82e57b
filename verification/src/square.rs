use vstd::prelude::*;
use crate::possibilities::{
    Possibilities, mask_wf, mask_has, mask_count, mask_single, count_upto, lemma_count_zero_iff,
    lemma_count_one_unique, lemma_count_one_single, lemma_single_has, lemma_diff_has,
    lemma_ops_wf, lemma_count_upto_bounds,
};

verus! {

/// One cell of a board: either a determined digit in 1..=9, or a set of at
/// least two candidate digits.
#[derive(Clone, Copy, PartialEq, Eq, Structural, Debug)]
pub enum Square {
    Fixed(u32),
    Possible(Possibilities),
}

/// Well-formedness of a cell: fixed digits lie in 1..=9, candidate sets are
/// 9-bit masks holding at least two digits.
pub open spec fn sq_wf(s: Square) -> bool {
    match s {
        Square::Fixed(d) => 1 <= d <= 9,
        Square::Possible(p) => mask_wf(p.bits) && mask_count(p.bits) >= 2,
    }
}

/// Whether digit `d` may legally stand at a cell in state `s`.
pub open spec fn sq_allows(s: Square, d: int) -> bool {
    match s {
        Square::Fixed(e) => d == e as int,
        Square::Possible(p) => mask_has(p.bits, d),
    }
}

/// How many candidates a cell still has (a fixed cell has one).
pub open spec fn sq_count(s: Square) -> int {
    match s {
        Square::Fixed(_) => 1,
        Square::Possible(p) => mask_count(p.bits),
    }
}

/// The least digit of the mask, searching upward from `d` (10 when none).
pub open spec fn least_from(bits: u32, d: int) -> int
    decreases 10 - d
        when d <= 10
{
    if d >= 10 {
        10
    } else if mask_has(bits, d) {
        d
    } else {
        least_from(bits, d + 1)
    }
}

/// The least digit of the mask (10 when the mask is empty).
pub open spec fn mask_least(bits: u32) -> int {
    least_from(bits, 1)
}

proof fn lemma_least_from(bits: u32, d: int)
    requires
        1 <= d <= 10,
    ensures
        (exists|e: int| d <= e <= 9 && mask_has(bits, e)) ==> d <= least_from(bits, d) <= 9
            && mask_has(bits, least_from(bits, d)) && (forall|e: int|
            d <= e && mask_has(bits, e) ==> least_from(bits, d) <= e),
        !(exists|e: int| d <= e <= 9 && mask_has(bits, e)) ==> least_from(bits, d) == 10,
    decreases 10 - d,
{
    if d < 10 && !mask_has(bits, d) {
        lemma_least_from(bits, d + 1);
    }
}

/// The least member of a non-empty well-formed mask exists and is minimal.
pub proof fn lemma_mask_least(bits: u32)
    requires
        mask_wf(bits),
        bits != 0,
    ensures
        1 <= mask_least(bits) <= 9,
        mask_has(bits, mask_least(bits)),
        forall|e: int| mask_has(bits, e) ==> mask_least(bits) <= e,
{
    crate::possibilities::lemma_nonzero_has(bits);
    lemma_least_from(bits, 1);
}

/// Removing one member of a mask lowers its digit count by exactly one.
pub proof fn lemma_count_remove_one(p: u32, d: int)
    requires
        mask_has(p, d),
    ensures
        mask_count(p & !mask_single(d)) == mask_count(p) - 1,
{
    lemma_single_has(d);
    lemma_diff_has(p, mask_single(d));
    lemma_count_remove_upto(p, d, 9);
}

proof fn lemma_count_remove_upto(p: u32, d: int, e: int)
    requires
        mask_has(p, d),
        forall|x: int| mask_has(p & !mask_single(d), x) <==> mask_has(p, x) && x != d,
    ensures
        count_upto(p & !mask_single(d), e) == count_upto(p, e) - if e >= d {
            1int
        } else {
            0int
        },
    decreases e,
{
    if e > 0 {
        lemma_count_remove_upto(p, d, e - 1);
    }
}

/// Normal form of a non-empty candidate mask: one candidate left collapses to
/// a fixed cell, more stay a possible cell.
pub open spec fn norm_m(bits: u32) -> Square {
    if mask_count(bits) == 1 {
        Square::Fixed(mask_least(bits) as u32)
    } else {
        Square::Possible(Possibilities { bits })
    }
}

/// Result of subtracting the mask `rm` from a cell: a fixed cell is left
/// alone, a possible cell shrinks, an emptied cell signals contradiction.
pub open spec fn minus_m(s: Square, rm: u32) -> Option<Square> {
    match s {
        Square::Fixed(_) => Some(s),
        Square::Possible(p) => {
            let nb = p.bits & !rm;
            if nb == 0 {
                None
            } else {
                Some(norm_m(nb))
            }
        },
    }
}

/// Normalization keeps well-formedness for non-empty masks.
pub proof fn lemma_norm_wf(bits: u32)
    requires
        mask_wf(bits),
        bits != 0,
    ensures
        sq_wf(norm_m(bits)),
        forall|d: int| sq_allows(norm_m(bits), d) <==> mask_has(bits, d),
{
    lemma_mask_least(bits);
    lemma_count_zero_iff(bits);
    lemma_count_upto_bounds(bits, 9);
    if mask_count(bits) == 1 {
        let l = mask_least(bits);
        assert forall|d: int| sq_allows(norm_m(bits), d) <==> mask_has(bits, d) by {
            if mask_has(bits, d) {
                lemma_count_one_unique(bits, d, l);
            }
        }
    }
}

impl Square {
    /// A cell fixed to digit `x`.
    pub fn new_fixed(x: u32) -> (r: Self)
        requires
            1 <= x <= 9,
        ensures
            r == Square::Fixed(x),
            sq_wf(r),
    {
        Square::Fixed(x)
    }

    /// A wholly undetermined cell: all nine digits are possible.
    pub fn any() -> (r: Self)
        ensures
            r == Square::Possible(Possibilities { bits: 511 }),
            sq_wf(r),
    {
        let p = Possibilities::all();
        proof {
            assert(mask_has(511u32, 1) && mask_has(511u32, 2));
            reveal_with_fuel(count_upto, 3);
            assert(count_upto(511u32, 2) == 2);
            crate::possibilities::lemma_count_upto_mono(511u32, 2, 9);
        }
        Square::Possible(p)
    }

    /// How many candidates the cell still has.
    pub fn possibles_count(&self) -> (r: u32)
        requires
            sq_wf(*self),
        ensures
            r == sq_count(*self),
    {
        match self {
            Square::Fixed(_) => 1,
            Square::Possible(p) => p.pop_count(),
        }
    }

    /// The digit of a fixed cell, as a one-digit set; `None` otherwise.
    pub fn fixed(&self) -> (r: Option<Possibilities>)
        requires
            sq_wf(*self),
        ensures
            match *self {
                Square::Fixed(d) => r == Some(Possibilities { bits: mask_single(d as int) }),
                Square::Possible(_) => r is None,
            },
    {
        match self {
            Square::Fixed(d) => Some(Possibilities::new_from_u32(*d)),
            Square::Possible(_) => None,
        }
    }

    /// The candidate set of an undetermined cell; `None` when fixed.
    pub fn possibles(&self) -> (r: Option<Possibilities>)
        ensures
            match *self {
                Square::Fixed(_) => r is None,
                Square::Possible(p) => r == Some(p),
            },
    {
        match self {
            Square::Fixed(_) => None,
            Square::Possible(p) => Some(*p),
        }
    }

    /// Whether the cell is determined.
    pub fn is_fixed(&self) -> (r: bool)
        ensures
            r == (*self is Fixed),
    {
        match self {
            Square::Fixed(_) => true,
            Square::Possible(_) => false,
        }
    }

    /// Subtract the digits of `to_remove` from the cell's candidates. A fixed
    /// cell is deliberately left untouched; emptying a candidate set signals
    /// contradiction with `None`.
    pub fn minus(&self, to_remove: Possibilities) -> (r: Option<Square>)
        requires
            sq_wf(*self),
        ensures
            r == minus_m(*self, to_remove.bits),
            r matches Some(s) ==> sq_wf(s),
    {
        match self {
            Square::Fixed(_) => Some(*self),
            Square::Possible(p) => {
                let np = p.difference(to_remove);
                if np.bits == 0 {
                    None
                } else {
                    proof {
                        lemma_ops_wf(p.bits, to_remove.bits);
                        lemma_norm_wf(np.bits);
                    }
                    Some(norm(np))
                }
            },
        }
    }

    /// Split an undetermined cell into its lowest candidate, fixed, and the
    /// cell holding the remaining candidates.
    pub fn split(&self) -> (r: (Square, Square))
        requires
            sq_wf(*self),
            *self is Possible,
        ensures
            ({
                let p = self->Possible_0.bits;
                &&& r.0 == Square::Fixed(mask_least(p) as u32)
                &&& r.1 == norm_m(p & !mask_single(mask_least(p)))
                &&& sq_wf(r.0)
                &&& sq_wf(r.1)
                &&& sq_count(r.1) == sq_count(*self) - 1
            }),
    {
        let p = match self {
            Square::Possible(p) => *p,
            Square::Fixed(_) => Possibilities::empty(),
        };
        proof {
            lemma_count_zero_iff(p.bits);
            lemma_mask_least(p.bits);
        }
        let val = p.least_set();
        let rest = p.difference(Possibilities::new_from_u32(val));
        proof {
            assert(val as int == mask_least(p.bits)) by {
                lemma_mask_least(p.bits);
            }
            lemma_count_remove_one(p.bits, val as int);
            lemma_ops_wf(p.bits, mask_single(val as int));
            lemma_count_zero_iff(rest.bits);
            lemma_norm_wf(rest.bits);
        }
        (Square::new_fixed(val), norm(rest))
    }
}

/// Collapse a non-empty candidate mask into its normal-form cell.
pub(crate) fn norm(p: Possibilities) -> (r: Square)
    requires
        mask_wf(p.bits),
        p.bits != 0,
    ensures
        r == norm_m(p.bits),
{
    let c = p.pop_count();
    if c == 1 {
        let l = p.least_set();
        proof {
            lemma_mask_least(p.bits);
        }
        Square::Fixed(l)
    } else {
        Square::Possible(p)
    }
}

/// The cell a puzzle character denotes: a digit character fixes the cell,
/// '.' leaves it wholly undetermined, anything else is no cell.
pub open spec fn char_square_m(c: char) -> Option<Square> {
    if c == '.' {
        Some(Square::Possible(Possibilities { bits: 511 }))
    } else if 49 <= c as int <= 57 {
        Some(Square::Fixed((c as int - 48) as u32))
    } else {
        None
    }
}

/// Parse one character of the 81-character board alphabet.
pub fn from_char(c: char) -> (r: Result<Square, char>)
    ensures
        match char_square_m(c) {
            Some(s) => r == Ok::<Square, char>(s) && sq_wf(s),
            None => r == Err::<Square, char>(c),
        },
{
    let u = c as u32;
    if u == 46 {
        Ok(Square::any())
    } else if 49 <= u && u <= 57 {
        Ok(Square::new_fixed(u - 48))
    } else {
        Err(c)
    }
}

} // verus!
