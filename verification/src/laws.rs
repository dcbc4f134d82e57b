use vstd::prelude::*;
use crate::square::{Square, sq_wf, sq_allows};
use crate::group::{valid_group_m, prune_cell_m, opt_sq, prune_group_m, group_wf};
use crate::board::{
    board_wf, board_valid, all_fixed, is_solution, refines, gidx, group_seq, group_of, pos_of,
    lemma_gidx, lemma_decomp, sweep_upto, sweep_m, prune_m, apply_group_m, solves, digits_of,
};
use crate::text::{parse_m, line_of, squares_of, chars_ok, char_of_square, digit_char, ParseError};
use crate::square::char_square_m;
use crate::possibilities::{mask_has, count_upto, lemma_count_upto_mono};
use crate::preserve::lemma_prune_preserves_solutions;

verus! {

/// A wholly fixed board is untouched by one group application.
proof fn lemma_apply_group_of_fixed(b: Seq<Square>, k: int, g: int)
    requires
        board_wf(b),
        all_fixed(b),
        0 <= k < 3,
        0 <= g < 9,
    ensures
        apply_group_m(b, k, g) == Some(b),
{
    let grp = group_seq(b, k, g);
    assert forall|i: int| 0 <= i < 9 implies prune_cell_m(grp, #[trigger] grp[i]) == Some(
        grp[i],
    ) by {
        lemma_gidx(k, g, i);
        assert(grp[i] == b[gidx(k, g, i)]);
        assert(b[gidx(k, g, i)] is Fixed);
    }
    let ng = Seq::new(9, |i: int| opt_sq(prune_cell_m(grp, grp[i])));
    assert(ng =~= grp);
    assert(prune_group_m(grp) == Some(grp));
    let b2 = Seq::new(
        81,
        |j: int|
            if group_of(k, j) == g {
                grp[pos_of(k, j)]
            } else {
                b[j]
            },
    );
    assert forall|j: int| 0 <= j < 81 implies b2[j] == b[j] by {
        lemma_decomp(k, j);
    }
    assert(b2 =~= b);
}

/// A wholly fixed board is a fixpoint of propagation: pruning a solved
/// board leaves it unchanged.
pub proof fn lemma_all_fixed_prunes_to_self(b: Seq<Square>)
    requires
        board_wf(b),
        all_fixed(b),
    ensures
        sweep_m(b) == Some(b),
        prune_m(b) == Some(b),
{
    lemma_sweep_upto_of_fixed(b, 27);
}

proof fn lemma_sweep_upto_of_fixed(b: Seq<Square>, n: int)
    requires
        board_wf(b),
        all_fixed(b),
        0 <= n <= 27,
    ensures
        sweep_upto(b, n) == Some(b),
    decreases n,
{
    if n > 0 {
        lemma_sweep_upto_of_fixed(b, n - 1);
        assert(0 <= (n - 1) / 9 < 3 && 0 <= (n - 1) % 9 < 9) by {
            vstd::arithmetic::div_mod::lemma_fundamental_div_mod((n - 1) as int, 9);
            vstd::arithmetic::div_mod::lemma_mod_bound((n - 1) as int, 9);
        }
        lemma_apply_group_of_fixed(b, (n - 1) / 9, (n - 1) % 9);
    }
}

/// Formatting a wholly fixed, duplicate-free board and re-parsing the text
/// yields the identical board.
pub proof fn lemma_format_parse_round_trip(b: Seq<Square>)
    requires
        board_wf(b),
        all_fixed(b),
        board_valid(b),
    ensures
        parse_m(line_of(b)) == Ok::<Seq<Square>, ParseError>(b),
{
    let s = line_of(b);
    assert(s.len() == 81);
    assert forall|i: int| 0 <= i < 81 implies (char_square_m(#[trigger] s[i]) is Some) && opt_sq(
        char_square_m(s[i]),
    ) == b[i] by {
        assert(sq_wf(b[i]) && b[i] is Fixed);
        let d = b[i]->Fixed_0 as int;
        crate::text::lemma_digit_char_roundtrip(d);
        assert(s[i] == digit_char(d));
    }
    assert(chars_ok(s));
    assert(squares_of(s) =~= b);
    lemma_all_fixed_prunes_to_self(b);
}

/// A board that fixes the same digit twice in one row, column or box is
/// refined by no solution at all, whatever its other cells hold.
pub proof fn lemma_duplicate_fixed_unsolvable(b: Seq<Square>)
    requires
        board_wf(b),
        !board_valid(b),
    ensures
        forall|sol: Seq<int>| is_solution(sol) ==> !refines(b, sol),
{
    let (k, g) = choose|k: int, g: int|
        0 <= k < 3 && 0 <= g < 9 && !valid_group_m(#[trigger] group_seq(b, k, g));
    let grp = group_seq(b, k, g);
    let (i1, i2) = choose|i1: int, i2: int|
        0 <= i1 < i2 < 9 && (#[trigger] grp[i1] matches Square::Fixed(a) && #[trigger] grp[i2]
            matches Square::Fixed(bb) && a == bb);
    lemma_gidx(k, g, i1);
    lemma_gidx(k, g, i2);
    assert forall|sol: Seq<int>| is_solution(sol) implies !refines(b, sol) by {
        if refines(b, sol) {
            assert(sq_allows(b[gidx(k, g, i1)], sol[gidx(k, g, i1)]));
            assert(sq_allows(b[gidx(k, g, i2)], sol[gidx(k, g, i2)]));
            assert(sol[gidx(k, g, i1)] == sol[gidx(k, g, i2)]);
            assert(sol[gidx(k, g, i1)] != sol[gidx(k, g, i2)]);
        }
    }
}

/// The distinct values among the first `n` entries of a nine-value row.
spec fn vals_set(vals: Seq<int>, n: int) -> Set<int>
    decreases n,
{
    if n <= 0 {
        Set::empty()
    } else {
        vals_set(vals, n - 1).insert(vals[n - 1])
    }
}

proof fn lemma_vals_set(vals: Seq<int>, n: int)
    requires
        vals.len() == 9,
        forall|i1: int, i2: int| 0 <= i1 < i2 < 9 ==> vals[i1] != vals[i2],
        0 <= n <= 9,
    ensures
        vals_set(vals, n).finite(),
        vals_set(vals, n).len() == n,
        forall|x: int|
            vals_set(vals, n).contains(x) <==> exists|i: int| 0 <= i < n && #[trigger] vals[i]
                == x,
    decreases n,
{
    broadcast use vstd::set::group_set_axioms;

    if n > 0 {
        lemma_vals_set(vals, n - 1);
        let prev = vals_set(vals, n - 1);
        let v = vals[n - 1];
        assert(!prev.contains(v)) by {
            if prev.contains(v) {
                let i = choose|i: int| 0 <= i < n - 1 && #[trigger] vals[i] == v;
                assert(vals[i] != vals[n - 1]);
            }
        }
        assert forall|x: int|
            vals_set(vals, n).contains(x) <==> exists|i: int| 0 <= i < n && #[trigger] vals[i]
                == x by {
            if prev.insert(v).contains(x) {
                if x == v {
                    assert(vals[n - 1] == x);
                } else {
                    let i = choose|i: int| 0 <= i < n - 1 && #[trigger] vals[i] == x;
                    assert(0 <= i < n && vals[i] == x);
                }
            }
            if exists|i: int| 0 <= i < n && #[trigger] vals[i] == x {
                let i = choose|i: int| 0 <= i < n && #[trigger] vals[i] == x;
                if i < n - 1 {
                    assert(prev.contains(x));
                }
            }
        }
    }
}

/// Nine pairwise distinct values drawn from 1..=9 cover every digit: each
/// digit of 1..=9 appears, and with distinctness, exactly once.
pub proof fn lemma_nine_distinct_complete(vals: Seq<int>, d: int)
    requires
        vals.len() == 9,
        forall|i: int| 0 <= i < 9 ==> 1 <= #[trigger] vals[i] <= 9,
        forall|i1: int, i2: int| 0 <= i1 < i2 < 9 ==> vals[i1] != vals[i2],
        1 <= d <= 9,
    ensures
        exists|i: int| 0 <= i < 9 && #[trigger] vals[i] == d,
{
    broadcast use vstd::set::group_set_axioms;

    lemma_vals_set(vals, 9);
    let s9 = vals_set(vals, 9);
    vstd::set_lib::lemma_int_range(1, 10);
    let range = vstd::set_lib::set_int_range(1, 10);
    assert forall|x: int| s9.contains(x) implies range.contains(x) by {
        let i = choose|i: int| 0 <= i < 9 && #[trigger] vals[i] == x;
    }
    if !s9.contains(d) {
        assert(s9.subset_of(range.remove(d)));
        vstd::set_lib::lemma_len_subset(s9, range.remove(d));
        assert(range.remove(d).len() == 9 - 1);
    }
}

/// In a solution, every row, column and box holds every digit 1..=9: with
/// the pairwise distinctness of `is_solution`, each group holds each digit
/// exactly once.
pub proof fn lemma_solution_group_complete(sol: Seq<int>, k: int, g: int, d: int)
    requires
        is_solution(sol),
        0 <= k < 3,
        0 <= g < 9,
        1 <= d <= 9,
    ensures
        exists|i: int| 0 <= i < 9 && #[trigger] sol[gidx(k, g, i)] == d,
{
    let vals = Seq::new(9, |i: int| sol[gidx(k, g, i)]);
    assert forall|i: int| 0 <= i < 9 implies 1 <= #[trigger] vals[i] <= 9 by {
        lemma_gidx(k, g, i);
    }
    lemma_nine_distinct_complete(vals, d);
    let i = choose|i: int| 0 <= i < 9 && #[trigger] vals[i] == d;
    assert(sol[gidx(k, g, i)] == d);
}


/// A solved refinement keeps every digit the input board had fixed: no
/// originally-determined cell changes its value on the way to the solution.
pub proof fn lemma_solves_keeps_fixed(b: Seq<Square>, s: Seq<Square>)
    requires
        solves(b, s),
    ensures
        forall|j: int| 0 <= j < 81 && (#[trigger] b[j]) is Fixed ==> s[j] == b[j],
{
    assert forall|j: int| 0 <= j < 81 && (#[trigger] b[j]) is Fixed implies s[j] == b[j] by {
        assert(sq_allows(b[j], digits_of(s)[j]));
        assert(s[j] is Fixed);
        assert(digits_of(s)[j] == s[j]->Fixed_0 as int);
        assert(digits_of(s)[j] == b[j]->Fixed_0 as int);
    }
}


/// Every character of a puzzle text that parses denotes a well-formed cell.
pub proof fn lemma_parsed_wf(s: Seq<char>)
    requires
        s.len() == 81,
        chars_ok(s),
    ensures
        board_wf(squares_of(s)),
{
    assert forall|j: int| 0 <= j < 81 implies sq_wf(#[trigger] squares_of(s)[j]) by {
        assert(char_square_m(s[j]) is Some);
        if s[j] == '.' {
            assert((511u32 >> 0u32) & 1 == 1 && (511u32 >> 1u32) & 1 == 1) by (bit_vector);
            assert(mask_has(511u32, 1) && mask_has(511u32, 2));
            reveal_with_fuel(count_upto, 3);
            assert(count_upto(511u32, 2) == 2);
            lemma_count_upto_mono(511u32, 2, 9);
        }
    }
}

/// A solvable puzzle text is never rejected: parsing validates and
/// propagates the board, and a board some solution refines survives both.
pub proof fn lemma_solvable_input_parses(s: Seq<char>, sol: Seq<int>)
    requires
        s.len() == 81,
        chars_ok(s),
        is_solution(sol),
        refines(squares_of(s), sol),
    ensures
        parse_m(s) matches Ok(p) && refines(p, sol),
{
    lemma_parsed_wf(s);
    let b = squares_of(s);
    if !board_valid(b) {
        lemma_duplicate_fixed_unsolvable(b);
    } else {
        lemma_prune_preserves_solutions(b, sol);
    }
}

} // verus!
