use vstd::prelude::*;
use crate::possibilities::{
    Possibilities, mask_wf, mask_has, mask_count, mask_single, lemma_union_has,
    lemma_intersect_has, lemma_diff_has, lemma_single_has, lemma_ops_wf, lemma_nonzero_has,
    lemma_mask_ext, lemma_count_zero_iff, lemma_count_subset, lemma_count_strict_subset,
    lemma_zero_has,
};
use crate::square::{Square, sq_wf, sq_allows, sq_count, norm_m, lemma_norm_wf};

verus! {

/// A well-formed group: nine well-formed cells.
pub open spec fn group_wf(g: Seq<Square>) -> bool {
    g.len() == 9 && forall|i: int| 0 <= i < 9 ==> sq_wf(#[trigger] g[i])
}

/// Union of the digits fixed in the first `n` cells of the group.
pub open spec fn fixed_mask_upto(g: Seq<Square>, n: int) -> u32
    decreases n,
{
    if n <= 0 {
        0
    } else {
        let rest = fixed_mask_upto(g, n - 1);
        match g[n - 1] {
            Square::Fixed(d) => rest | mask_single(d as int),
            Square::Possible(_) => rest,
        }
    }
}

/// Union of all digits fixed in the group.
pub open spec fn fixed_mask(g: Seq<Square>) -> u32 {
    fixed_mask_upto(g, 9)
}

/// The fixed digits of a group, characterized member by member.
pub proof fn lemma_fixed_mask_upto(g: Seq<Square>, n: int)
    requires
        0 <= n <= 9,
        group_wf(g),
    ensures
        mask_wf(fixed_mask_upto(g, n)),
        forall|d: int|
            mask_has(fixed_mask_upto(g, n), d) <==> exists|i: int|
                0 <= i < n && (#[trigger] g[i] matches Square::Fixed(dd) && dd as int == d),
    decreases n,
{
    if n > 0 {
        lemma_fixed_mask_upto(g, n - 1);
        match g[n - 1] {
            Square::Fixed(dn) => {
                lemma_single_has(dn as int);
                lemma_union_has(fixed_mask_upto(g, n - 1), mask_single(dn as int));
                lemma_ops_wf(fixed_mask_upto(g, n - 1), mask_single(dn as int));
                assert(fixed_mask_upto(g, n) == fixed_mask_upto(g, n - 1) | mask_single(
                    dn as int,
                ));
                assert forall|dd: int|
                    mask_has(fixed_mask_upto(g, n), dd) <==> exists|i: int|
                        0 <= i < n && (#[trigger] g[i] matches Square::Fixed(e) && e as int
                            == dd) by {
                    assert(mask_has(fixed_mask_upto(g, n - 1) | mask_single(dn as int), dd)
                        <==> mask_has(fixed_mask_upto(g, n - 1), dd) || mask_has(
                        mask_single(dn as int),
                        dd,
                    ));
                    if mask_has(fixed_mask_upto(g, n), dd) {
                        if mask_has(fixed_mask_upto(g, n - 1), dd) {
                            let i = choose|i: int|
                                0 <= i < n - 1 && (#[trigger] g[i] matches Square::Fixed(e)
                                    && e as int == dd);
                            assert(0 <= i < n && (g[i] matches Square::Fixed(e) && e as int
                                == dd));
                        } else {
                            assert(dd == dn as int);
                            assert(0 <= n - 1 < n && (g[n - 1] matches Square::Fixed(e)
                                && e as int == dd));
                        }
                    }
                    if exists|i: int|
                        0 <= i < n && (#[trigger] g[i] matches Square::Fixed(e) && e as int
                            == dd) {
                        let i = choose|i: int|
                            0 <= i < n && (#[trigger] g[i] matches Square::Fixed(e) && e as int
                                == dd);
                        if i < n - 1 {
                            assert(0 <= i < n - 1 && (g[i] matches Square::Fixed(e) && e as int
                                == dd));
                            assert(mask_has(fixed_mask_upto(g, n - 1), dd));
                        } else {
                            assert(dd == dn as int);
                        }
                    }
                }
            },
            Square::Possible(_) => {
                assert(fixed_mask_upto(g, n) == fixed_mask_upto(g, n - 1));
                assert forall|dd: int|
                    mask_has(fixed_mask_upto(g, n), dd) <==> exists|i: int|
                        0 <= i < n && (#[trigger] g[i] matches Square::Fixed(e) && e as int
                            == dd) by {
                    if mask_has(fixed_mask_upto(g, n), dd) {
                        let i = choose|i: int|
                            0 <= i < n - 1 && (#[trigger] g[i] matches Square::Fixed(e)
                                && e as int == dd);
                        assert(0 <= i < n && (g[i] matches Square::Fixed(e) && e as int == dd));
                    }
                    if exists|i: int|
                        0 <= i < n && (#[trigger] g[i] matches Square::Fixed(e) && e as int
                            == dd) {
                        let i = choose|i: int|
                            0 <= i < n && (#[trigger] g[i] matches Square::Fixed(e) && e as int
                                == dd);
                        assert(i < n - 1);
                        assert(0 <= i < n - 1 && (g[i] matches Square::Fixed(e) && e as int
                            == dd));
                        assert(mask_has(fixed_mask_upto(g, n - 1), dd));
                    }
                }
            },
        }
    } else {
        lemma_zero_has();
        assert forall|dd: int| !mask_has(fixed_mask_upto(g, n), dd) by {
            assert(fixed_mask_upto(g, n) == 0);
            assert(!mask_has(0u32, dd));
        }
    }
}

/// Positions (encoded as bits 0..=8) of the first `n` cells that are
/// undetermined and offer digit `d`.
pub open spec fn dpos_upto(g: Seq<Square>, d: int, n: int) -> u32
    decreases n,
{
    if n <= 0 {
        0
    } else {
        let rest = dpos_upto(g, d, n - 1);
        if g[n - 1] matches Square::Possible(p) && mask_has(p.bits, d) {
            rest | mask_single(n)
        } else {
            rest
        }
    }
}

/// Positions of all undetermined cells of the group that offer digit `d`.
pub open spec fn dpos(g: Seq<Square>, d: int) -> u32 {
    dpos_upto(g, d, 9)
}

/// The offering positions of a digit, characterized cell by cell. Position
/// `j` (as mask digit `j`, 1-based) stands for cell `j - 1`.
pub proof fn lemma_dpos_upto(g: Seq<Square>, d: int, n: int)
    requires
        0 <= n <= 9,
    ensures
        mask_wf(dpos_upto(g, d, n)),
        forall|j: int|
            mask_has(dpos_upto(g, d, n), j) <==> 1 <= j <= n && (#[trigger] g[j - 1] matches
                Square::Possible(p) && mask_has(p.bits, d)),
    decreases n,
{
    if n > 0 {
        lemma_dpos_upto(g, d, n - 1);
        if g[n - 1] matches Square::Possible(p) && mask_has(p.bits, d) {
            lemma_single_has(n);
            lemma_union_has(dpos_upto(g, d, n - 1), mask_single(n));
            lemma_ops_wf(dpos_upto(g, d, n - 1), mask_single(n));
            assert(dpos_upto(g, d, n) == dpos_upto(g, d, n - 1) | mask_single(n));
            assert forall|j: int|
                mask_has(dpos_upto(g, d, n), j) <==> 1 <= j <= n && (#[trigger] g[j
                    - 1] matches Square::Possible(p2) && mask_has(p2.bits, d)) by {
                assert(mask_has(dpos_upto(g, d, n - 1) | mask_single(n), j) <==> mask_has(
                    dpos_upto(g, d, n - 1),
                    j,
                ) || mask_has(mask_single(n), j));
            }
        } else {
            assert(dpos_upto(g, d, n) == dpos_upto(g, d, n - 1));
            assert forall|j: int|
                mask_has(dpos_upto(g, d, n), j) <==> 1 <= j <= n && (#[trigger] g[j
                    - 1] matches Square::Possible(p2) && mask_has(p2.bits, d)) by {
                assert(mask_has(dpos_upto(g, d, n - 1), j) <==> 1 <= j <= n - 1 && (g[j
                    - 1] matches Square::Possible(p2) && mask_has(p2.bits, d)));
            }
        }
    } else {
        lemma_zero_has();
        assert forall|j: int| !mask_has(dpos_upto(g, d, n), j) by {
            assert(dpos_upto(g, d, n) == 0);
            assert(!mask_has(0u32, j));
        }
    }
}

/// Union of the one-digit masks of digits 1..=d whose offering positions are
/// exactly `pmask`.
pub open spec fn excl_upto(g: Seq<Square>, pmask: u32, d: int) -> u32
    decreases d,
{
    if d <= 0 {
        0
    } else {
        let rest = excl_upto(g, pmask, d - 1);
        if dpos(g, d) == pmask {
            rest | mask_single(d)
        } else {
            rest
        }
    }
}

/// All digits whose offering positions are exactly `pmask`.
pub open spec fn excl_digits(g: Seq<Square>, pmask: u32) -> u32 {
    excl_upto(g, pmask, 9)
}

/// The digits grouped onto a position set, characterized digit by digit.
pub proof fn lemma_excl_upto(g: Seq<Square>, pmask: u32, d: int)
    requires
        0 <= d <= 9,
    ensures
        mask_wf(excl_upto(g, pmask, d)),
        forall|e: int|
            #![trigger mask_has(excl_upto(g, pmask, d), e)]
            mask_has(excl_upto(g, pmask, d), e) <==> 1 <= e <= d && dpos(g, e) == pmask,
    decreases d,
{
    if d > 0 {
        lemma_excl_upto(g, pmask, d - 1);
        if dpos(g, d) == pmask {
            lemma_single_has(d);
            lemma_union_has(excl_upto(g, pmask, d - 1), mask_single(d));
            lemma_ops_wf(excl_upto(g, pmask, d - 1), mask_single(d));
            assert(excl_upto(g, pmask, d) == excl_upto(g, pmask, d - 1) | mask_single(d));
            assert forall|e: int|
                #![trigger mask_has(excl_upto(g, pmask, d), e)]
                mask_has(excl_upto(g, pmask, d), e) <==> (1 <= e <= d && dpos(g, e)
                    == pmask) by {
                assert(mask_has(excl_upto(g, pmask, d - 1) | mask_single(d), e) <==> mask_has(
                    excl_upto(g, pmask, d - 1),
                    e,
                ) || mask_has(mask_single(d), e));
                assert(mask_has(excl_upto(g, pmask, d - 1), e) <==> (1 <= e <= d - 1 && dpos(
                    g,
                    e,
                ) == pmask));
            }
        } else {
            assert(excl_upto(g, pmask, d) == excl_upto(g, pmask, d - 1));
            assert forall|e: int|
                #![trigger mask_has(excl_upto(g, pmask, d), e)]
                mask_has(excl_upto(g, pmask, d), e) <==> (1 <= e <= d && dpos(g, e)
                    == pmask) by {
                assert(mask_has(excl_upto(g, pmask, d - 1), e) <==> (1 <= e <= d - 1 && dpos(
                    g,
                    e,
                ) == pmask));
            }
        }
    } else {
        lemma_zero_has();
        assert forall|e: int| !mask_has(excl_upto(g, pmask, d), e) by {
            assert(excl_upto(g, pmask, d) == 0);
            assert(!mask_has(0u32, e));
        }
    }
}

/// A digit takes part in the exclusive-subset rule when it is offered
/// somewhere, by fewer than four cells, and exactly as many digits share its
/// position set as that set has positions.
pub open spec fn digit_qualifies(g: Seq<Square>, d: int) -> bool {
    let pmask = dpos(g, d);
    &&& pmask != 0
    &&& mask_count(pmask) < 4
    &&& mask_count(excl_digits(g, pmask)) == mask_count(pmask)
}

/// `e` is the exclusive digit set grouped onto the position set `pmask`.
pub open spec fn excl_witness(g: Seq<Square>, pmask: u32, e: u32) -> bool {
    &&& pmask != 0
    &&& mask_wf(pmask)
    &&& mask_count(pmask) < 4
    &&& e == excl_digits(g, pmask)
    &&& mask_count(e) == mask_count(pmask)
}

/// `e` is one of the group's exclusive digit sets.
pub open spec fn is_exclusive(g: Seq<Square>, e: u32) -> bool {
    exists|pmask: u32| excl_witness(g, pmask, e)
}

/// Union of the one-digit masks of the qualifying digits 1..=d.
pub open spec fn all_excl_upto(g: Seq<Square>, d: int) -> u32
    decreases d,
{
    if d <= 0 {
        0
    } else {
        let rest = all_excl_upto(g, d - 1);
        if digit_qualifies(g, d) {
            rest | mask_single(d)
        } else {
            rest
        }
    }
}

/// Union of all the group's exclusive digit sets.
pub open spec fn all_excl(g: Seq<Square>) -> u32 {
    all_excl_upto(g, 9)
}

/// The union of the exclusive sets, characterized digit by digit.
pub proof fn lemma_all_excl_upto(g: Seq<Square>, d: int)
    requires
        0 <= d <= 9,
    ensures
        mask_wf(all_excl_upto(g, d)),
        forall|e: int|
            #![trigger mask_has(all_excl_upto(g, d), e)]
            mask_has(all_excl_upto(g, d), e) <==> 1 <= e <= d && digit_qualifies(g, e),
    decreases d,
{
    if d > 0 {
        lemma_all_excl_upto(g, d - 1);
        if digit_qualifies(g, d) {
            lemma_single_has(d);
            lemma_union_has(all_excl_upto(g, d - 1), mask_single(d));
            lemma_ops_wf(all_excl_upto(g, d - 1), mask_single(d));
            assert(all_excl_upto(g, d) == all_excl_upto(g, d - 1) | mask_single(d));
            assert forall|e: int|
                #![trigger mask_has(all_excl_upto(g, d), e)]
                mask_has(all_excl_upto(g, d), e) <==> (1 <= e <= d && digit_qualifies(
                    g,
                    e,
                )) by {
                assert(mask_has(all_excl_upto(g, d - 1) | mask_single(d), e) <==> mask_has(
                    all_excl_upto(g, d - 1),
                    e,
                ) || mask_has(mask_single(d), e));
                assert(mask_has(all_excl_upto(g, d - 1), e) <==> (1 <= e <= d - 1
                    && digit_qualifies(g, e)));
            }
        } else {
            assert(all_excl_upto(g, d) == all_excl_upto(g, d - 1));
            assert forall|e: int|
                #![trigger mask_has(all_excl_upto(g, d), e)]
                mask_has(all_excl_upto(g, d), e) <==> (1 <= e <= d && digit_qualifies(
                    g,
                    e,
                )) by {
                assert(mask_has(all_excl_upto(g, d - 1), e) <==> (1 <= e <= d - 1
                    && digit_qualifies(g, e)));
            }
        }
    } else {
        lemma_zero_has();
        assert forall|e: int| !mask_has(all_excl_upto(g, d), e) by {
            assert(all_excl_upto(g, d) == 0);
            assert(!mask_has(0u32, e));
        }
    }
}

/// A digit belongs to an exclusive set exactly when it qualifies, and then
/// its set is the one grouped onto its own position set.
pub proof fn lemma_exclusive_members(g: Seq<Square>)
    ensures
        forall|e: u32, d: int|
            is_exclusive(g, e) && mask_has(e, d) ==> digit_qualifies(g, d) && e == excl_digits(
                g,
                dpos(g, d),
            ),
        forall|d: int|
            #[trigger] digit_qualifies(g, d) && 1 <= d <= 9 ==> is_exclusive(
                g,
                excl_digits(g, dpos(g, d)),
            ) && mask_has(excl_digits(g, dpos(g, d)), d),
{
    assert forall|e: u32, d: int| is_exclusive(g, e) && mask_has(e, d) implies digit_qualifies(
        g,
        d,
    ) && e == excl_digits(g, dpos(g, d)) by {
        let pmask = choose|pmask: u32| excl_witness(g, pmask, e);
        lemma_excl_upto(g, pmask, 9);
        assert(dpos(g, d) == pmask);
    }
    assert forall|d: int| #[trigger] digit_qualifies(g, d) && 1 <= d <= 9 implies is_exclusive(
        g,
        excl_digits(g, dpos(g, d)),
    ) && mask_has(excl_digits(g, dpos(g, d)), d) by {
        let pmask = dpos(g, d);
        lemma_dpos_upto(g, d, 9);
        lemma_excl_upto(g, pmask, 9);
        assert(excl_witness(g, pmask, excl_digits(g, pmask)));
    }
}

/// What the propagation rules make of one cell, given its group: a fixed
/// cell stays; a possible cell loses the group's fixed digits, is cut down
/// to an exclusive set when its remainder meets one exactly, and collapses
/// or contradicts as its candidates shrink.
pub open spec fn prune_cell_m(g: Seq<Square>, c: Square) -> Option<Square> {
    match c {
        Square::Fixed(_) => Some(c),
        Square::Possible(p) => {
            let nb = p.bits & !fixed_mask(g);
            if nb == 0 {
                None
            } else {
                let inter = nb & all_excl(g);
                if is_exclusive(g, inter) {
                    Some(norm_m(inter))
                } else {
                    Some(norm_m(nb))
                }
            }
        },
    }
}

/// The cell inside a non-contradictory pruning result.
pub open spec fn opt_sq(o: Option<Square>) -> Square {
    match o {
        Some(s) => s,
        None => Square::Fixed(0),
    }
}

/// Both elimination rules applied to every cell of one group, all reading
/// the group's original state.
pub open spec fn prune_group_m(g: Seq<Square>) -> Option<Seq<Square>> {
    if exists|i: int| 0 <= i < 9 && prune_cell_m(g, #[trigger] g[i]) is None {
        None
    } else {
        Some(Seq::new(9, |i: int| opt_sq(prune_cell_m(g, g[i]))))
    }
}

/// An exclusive set is well-formed and non-empty.
pub proof fn lemma_exclusive_nonzero(g: Seq<Square>, e: u32)
    requires
        is_exclusive(g, e),
    ensures
        mask_wf(e),
        e != 0,
        mask_count(e) >= 1,
{
    let pmask = choose|pmask: u32| excl_witness(g, pmask, e);
    lemma_excl_upto(g, pmask, 9);
    lemma_count_zero_iff(pmask);
    lemma_count_zero_iff(e);
    crate::possibilities::lemma_count_upto_bounds(pmask, 9);
}

/// Propagation only shrinks a cell: the result is well-formed, allows only
/// digits the cell already allowed, leaves fixed cells alone, and any change
/// strictly lowers the candidate count.
pub proof fn lemma_prune_cell_shrinks(g: Seq<Square>, c: Square)
    requires
        group_wf(g),
        sq_wf(c),
    ensures
        match prune_cell_m(g, c) {
            Some(c2) => sq_wf(c2) && (forall|d: int| sq_allows(c2, d) ==> sq_allows(c, d)) && (
            c is Fixed ==> c2 == c) && sq_count(c2) <= sq_count(c) && (c2 != c ==> sq_count(c2)
                < sq_count(c)),
            None => c is Possible,
        },
{
    match c {
        Square::Fixed(_) => {},
        Square::Possible(p) => {
            lemma_fixed_mask_upto(g, 9);
            lemma_all_excl_upto(g, 9);
            let fm = fixed_mask(g);
            let nb = p.bits & !fm;
            lemma_diff_has(p.bits, fm);
            lemma_ops_wf(p.bits, fm);
            if nb != 0 {
                let inter = nb & all_excl(g);
                lemma_intersect_has(nb, all_excl(g));
                lemma_ops_wf(nb, all_excl(g));
                let q: u32 = if is_exclusive(g, inter) {
                    inter
                } else {
                    nb
                };
                if is_exclusive(g, inter) {
                    lemma_exclusive_nonzero(g, inter);
                }
                assert(mask_wf(q) && q != 0);
                assert(forall|d: int| mask_has(q, d) ==> mask_has(p.bits, d));
                lemma_norm_wf(q);
                let c2 = norm_m(q);
                lemma_count_subset(p.bits, q, 9);
                crate::possibilities::lemma_count_upto_bounds(q, 9);
                if c2 != c {
                    if mask_count(q) == 1 {
                        assert(sq_count(c2) == 1 < sq_count(c));
                    } else {
                        assert(q != p.bits);
                        assert(exists|w: int| mask_has(p.bits, w) && !mask_has(q, w)) by {
                            if forall|w: int| mask_has(p.bits, w) <==> mask_has(q, w) {
                                lemma_mask_ext(p.bits, q);
                            }
                        }
                        let w = choose|w: int| mask_has(p.bits, w) && !mask_has(q, w);
                        lemma_count_strict_subset(p.bits, q, w);
                    }
                }
            }
        },
    }
}

/// Union of the digits fixed in the group.
pub fn fixed_values(group: &Vec<Square>) -> (r: Possibilities)
    requires
        group_wf(group@),
    ensures
        r.bits == fixed_mask(group@),
{
    let mut acc = Possibilities::empty();
    let mut i: usize = 0;
    while i < 9
        invariant
            0 <= i <= 9,
            group_wf(group@),
            acc.bits == fixed_mask_upto(group@, i as int),
        decreases 9 - i,
    {
        match group[i] {
            Square::Fixed(d) => {
                proof {
                    assert(sq_wf(group@[i as int]));
                }
                acc = acc.union(Possibilities::new_from_u32(d));
            },
            Square::Possible(_) => {},
        }
        i = i + 1;
    }
    acc
}

/// Positions (bits 0..=8) of the undetermined cells offering digit `d`.
fn digit_positions(group: &Vec<Square>, d: u32) -> (r: u32)
    requires
        group_wf(group@),
        1 <= d <= 9,
    ensures
        r == dpos(group@, d as int),
{
    let mut acc: u32 = 0;
    let mut i: usize = 0;
    while i < 9
        invariant
            0 <= i <= 9,
            group_wf(group@),
            1 <= d <= 9,
            acc == dpos_upto(group@, d as int, i as int),
        decreases 9 - i,
    {
        match group[i] {
            Square::Possible(p) => {
                if p.has_digit(d) {
                    acc = acc | (1u32 << (i as u32));
                }
            },
            Square::Fixed(_) => {},
        }
        i = i + 1;
    }
    acc
}

/// The group's exclusive digit sets: sets of k digits offered only within
/// some k undetermined cells (k < 4), which may then shed every other
/// candidate of those cells.
pub fn exclusive_possibilities(group: &Vec<Square>) -> (r: Vec<Possibilities>)
    requires
        group_wf(group@),
    ensures
        forall|j: int| 0 <= j < r@.len() ==> is_exclusive(group@, #[trigger] r@[j].bits),
        forall|e: u32| is_exclusive(group@, e) ==> r@.contains(Possibilities { bits: e }),
{
    let mut result: Vec<Possibilities> = Vec::new();
    let mut d: u32 = 1;
    while d <= 9
        invariant
            1 <= d <= 10,
            group_wf(group@),
            forall|j: int| 0 <= j < result@.len() ==> is_exclusive(group@, #[trigger] result@[j].bits),
            forall|d2: int|
                1 <= d2 < d && #[trigger] digit_qualifies(group@, d2) ==> result@.contains(
                    Possibilities { bits: excl_digits(group@, dpos(group@, d2)) },
                ),
        decreases 10 - d,
    {
        let pmask = digit_positions(group, d);
        proof {
            lemma_dpos_upto(group@, d as int, 9);
        }
        if pmask != 0 && (Possibilities { bits: pmask }).pop_count() < 4 {
            let mut e: u32 = 0;
            let mut d2: u32 = 1;
            while d2 <= 9
                invariant
                    1 <= d2 <= 10,
                    group_wf(group@),
                    e == excl_upto(group@, pmask, d2 as int - 1),
                decreases 10 - d2,
            {
                let pm2 = digit_positions(group, d2);
                if pm2 == pmask {
                    e = e | (1u32 << (d2 - 1));
                }
                d2 = d2 + 1;
            }
            if (Possibilities { bits: e }).pop_count() == (Possibilities { bits: pmask }).pop_count() {
                proof {
                    lemma_excl_upto(group@, pmask, 9);
                    assert(excl_witness(group@, pmask, e));
                }
                let ghost prev = result@;
                result.push(Possibilities { bits: e });
                proof {
                    assert(result@[prev.len() as int] == (Possibilities { bits: e }));
                    assert(result@.contains(Possibilities { bits: e }));
                    assert forall|x: Possibilities| prev.contains(x) implies result@.contains(
                        x,
                    ) by {
                        let k = choose|k: int| 0 <= k < prev.len() && prev[k] == x;
                        assert(result@[k] == x);
                    }
                }
            }
        }
        proof {
            if digit_qualifies(group@, d as int) {
                assert(result@.contains(
                    Possibilities { bits: excl_digits(group@, dpos(group@, d as int)) },
                ));
            }
        }
        d = d + 1;
    }
    proof {
        lemma_exclusive_members(group@);
        assert forall|e: u32| is_exclusive(group@, e) implies result@.contains(
            Possibilities { bits: e },
        ) by {
            lemma_exclusive_nonzero(group@, e);
            lemma_nonzero_has(e);
            let d0 = choose|d0: int| mask_has(e, d0);
            assert(digit_qualifies(group@, d0) && e == excl_digits(group@, dpos(group@, d0)));
        }
    }
    result
}

/// Union of all the group's exclusive digit sets.
fn all_exclusive_mask(group: &Vec<Square>) -> (r: u32)
    requires
        group_wf(group@),
    ensures
        r == all_excl(group@),
{
    let mut acc: u32 = 0;
    let mut d: u32 = 1;
    while d <= 9
        invariant
            1 <= d <= 10,
            group_wf(group@),
            acc == all_excl_upto(group@, d as int - 1),
        decreases 10 - d,
    {
        let pmask = digit_positions(group, d);
        let mut qualifies: bool = false;
        if pmask != 0 && (Possibilities { bits: pmask }).pop_count() < 4 {
            let mut e: u32 = 0;
            let mut d2: u32 = 1;
            while d2 <= 9
                invariant
                    1 <= d2 <= 10,
                    group_wf(group@),
                    pmask == dpos(group@, d as int),
                    e == excl_upto(group@, pmask, d2 as int - 1),
                decreases 10 - d2,
            {
                let pm2 = digit_positions(group, d2);
                if pm2 == pmask {
                    e = e | (1u32 << (d2 - 1));
                }
                d2 = d2 + 1;
            }
            if (Possibilities { bits: e }).pop_count() == (Possibilities { bits: pmask }).pop_count() {
                qualifies = true;
            }
        }
        if qualifies {
            acc = acc | (1u32 << (d - 1));
        }
        d = d + 1;
    }
    acc
}

/// Whether `v` holds the mask `x`.
fn contains_mask(v: &Vec<Possibilities>, x: u32) -> (r: bool)
    ensures
        r == v@.contains(Possibilities { bits: x }),
{
    let n = v.len();
    let mut j: usize = 0;
    while j < n
        invariant
            0 <= j <= n,
            n == v@.len(),
            forall|k: int| 0 <= k < j ==> v@[k] != (Possibilities { bits: x }),
        decreases n - j,
    {
        if v[j].bits == x {
            proof {
                assert(v@[j as int] == Possibilities { bits: x });
            }
            return true;
        }
        j = j + 1;
    }
    proof {
        if v@.contains(Possibilities { bits: x }) {
            let k = choose|k: int| 0 <= k < v@.len() && v@[k] == (Possibilities { bits: x });
        }
    }
    false
}

/// Whether no digit is fixed twice in the group.
pub open spec fn valid_group_m(g: Seq<Square>) -> bool {
    forall|i: int, j: int|
        0 <= i < j < 9 ==> !(#[trigger] g[i] matches Square::Fixed(a) && #[trigger] g[j] matches
            Square::Fixed(b) && a == b)
}

/// Check that no digit is fixed twice in the group.
pub fn valid_group(group: &Vec<Square>) -> (r: bool)
    requires
        group_wf(group@),
    ensures
        r == valid_group_m(group@),
{
    let mut seen = Possibilities::empty();
    let mut i: usize = 0;
    while i < 9
        invariant
            0 <= i <= 9,
            group_wf(group@),
            seen.bits == fixed_mask_upto(group@, i as int),
            forall|i1: int, j1: int|
                0 <= i1 < j1 < i ==> !(#[trigger] group@[i1] matches Square::Fixed(a)
                    && #[trigger] group@[j1] matches Square::Fixed(b) && a == b),
        decreases 9 - i,
    {
        proof {
            lemma_fixed_mask_upto(group@, i as int);
        }
        match group[i] {
            Square::Fixed(d) => {
                proof {
                    assert(sq_wf(group@[i as int]));
                }
                if seen.has_digit(d) {
                    proof {
                        let j = choose|j: int|
                            0 <= j < i && (#[trigger] group@[j] matches Square::Fixed(dd)
                                && dd as int == d as int);
                        assert(!valid_group_m(group@));
                    }
                    return false;
                }
                seen = seen.union(Possibilities::new_from_u32(d));
            },
            Square::Possible(_) => {},
        }
        i = i + 1;
    }
    true
}

/// Apply both elimination rules to one group, reading its original state;
/// `None` signals that some candidate set was emptied.
pub fn prune_group(group: &Vec<Square>) -> (r: Option<Vec<Square>>)
    requires
        group_wf(group@),
    ensures
        match r {
            None => prune_group_m(group@) is None,
            Some(v) => prune_group_m(group@) == Some(v@) && group_wf(v@),
        },
{
    let fixeds = fixed_values(group);
    let exclusives = exclusive_possibilities(group);
    let all_ex = all_exclusive_mask(group);
    let mut out: Vec<Square> = Vec::new();
    let mut i: usize = 0;
    while i < 9
        invariant
            0 <= i <= 9,
            group_wf(group@),
            fixeds.bits == fixed_mask(group@),
            all_ex == all_excl(group@),
            forall|j: int| 0 <= j < exclusives@.len() ==> is_exclusive(
                group@,
                #[trigger] exclusives@[j].bits,
            ),
            forall|e: u32| is_exclusive(group@, e) ==> exclusives@.contains(
                Possibilities { bits: e },
            ),
            out@.len() == i,
            forall|j: int|
                0 <= j < i ==> prune_cell_m(group@, group@[j]) == Some(#[trigger] out@[j]),
            forall|j: int| 0 <= j < i ==> sq_wf(#[trigger] out@[j]),
        decreases 9 - i,
    {
        proof {
            assert(sq_wf(group@[i as int]));
            lemma_prune_cell_shrinks(group@, group@[i as int]);
        }
        match group[i] {
            Square::Fixed(d) => {
                out.push(Square::Fixed(d));
            },
            Square::Possible(p) => {
                let nb = p.bits & !fixeds.bits;
                if nb == 0 {
                    proof {
                        assert(prune_cell_m(group@, group@[i as int]) is None);
                    }
                    return None;
                }
                let inter = nb & all_ex;
                let take_inter = contains_mask(&exclusives, inter);
                proof {
                    if take_inter {
                        let k = choose|k: int|
                            0 <= k < exclusives@.len() && exclusives@[k] == (Possibilities {
                                bits: inter,
                            });
                        assert(exclusives@[k].bits == inter);
                        assert(is_exclusive(group@, inter));
                    } else {
                        if is_exclusive(group@, inter) {
                            assert(exclusives@.contains(Possibilities { bits: inter }));
                        }
                    }
                    lemma_diff_has(p.bits, fixeds.bits);
                    lemma_ops_wf(p.bits, fixeds.bits);
                    lemma_ops_wf(nb, all_ex);
                    if take_inter {
                        lemma_exclusive_nonzero(group@, inter);
                    }
                }
                let chosen: u32 = if take_inter {
                    inter
                } else {
                    nb
                };
                out.push(crate::square::norm(Possibilities { bits: chosen }));
            },
        }
        i = i + 1;
    }
    proof {
        assert forall|i0: int| 0 <= i0 < 9 implies !(prune_cell_m(group@, #[trigger] group@[i0])
            is None) by {
            assert(prune_cell_m(group@, group@[i0]) == Some(out@[i0]));
        }
        let model = Seq::new(9, |i0: int| opt_sq(prune_cell_m(group@, group@[i0])));
        assert(out@ =~= model);
    }
    Some(out)
}

} // verus!
