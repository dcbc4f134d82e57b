use vstd::prelude::*;
use vstd::set_lib::{lemma_len_subset, lemma_map_size};
use vstd::relations::injective_on;
use crate::possibilities::{
    mask_has, mask_count, count_upto, lemma_diff_has, lemma_intersect_has, lemma_ops_wf,
    lemma_nonzero_has, lemma_zero_has,
};
use crate::square::{Square, sq_allows, lemma_norm_wf};
use crate::group::{
    group_wf, prune_cell_m, fixed_mask, all_excl, is_exclusive, excl_witness, dpos, opt_sq,
    prune_group_m, lemma_fixed_mask_upto, lemma_all_excl_upto, lemma_excl_upto, lemma_dpos_upto,
    lemma_exclusive_nonzero,
};
use crate::laws::lemma_nine_distinct_complete;
use crate::board::{
    board_wf, is_solution, refines, group_seq, gidx, group_of, pos_of, lemma_gidx, lemma_decomp,
    lemma_group_seq_wf, lemma_apply_group_shrinks, lemma_sweep_strict, apply_group_m, sweep_upto,
    sweep_m, prune_m, weight,
};

verus! {

/// The digits of a mask, as a set.
pub open spec fn mask_set(m: u32) -> Set<int> {
    Set::new(|d: int| mask_has(m, d))
}

spec fn mask_set_upto(m: u32, d: int) -> Set<int> {
    Set::new(|e: int| 1 <= e <= d && mask_has(m, e))
}

proof fn lemma_mask_set_upto_card(m: u32, d: int)
    requires
        0 <= d <= 9,
    ensures
        mask_set_upto(m, d).finite(),
        mask_set_upto(m, d).len() == count_upto(m, d),
    decreases d,
{
    broadcast use vstd::set::group_set_axioms;

    if d == 0 {
        assert(mask_set_upto(m, 0) =~= Set::empty());
    } else {
        lemma_mask_set_upto_card(m, d - 1);
        if mask_has(m, d) {
            assert(mask_set_upto(m, d) =~= mask_set_upto(m, d - 1).insert(d));
            assert(!mask_set_upto(m, d - 1).contains(d));
        } else {
            assert(mask_set_upto(m, d) =~= mask_set_upto(m, d - 1));
        }
    }
}

/// A mask's digit set is finite with the mask's digit count as its size.
pub proof fn lemma_mask_set_card(m: u32)
    ensures
        mask_set(m).finite(),
        mask_set(m).len() == mask_count(m),
{
    lemma_mask_set_upto_card(m, 9);
    assert(mask_set(m) =~= mask_set_upto(m, 9));
}

/// `vals` solves one group of `g`: nine pairwise distinct digits, each
/// allowed by its cell.
pub open spec fn group_solution(g: Seq<Square>, vals: Seq<int>) -> bool {
    &&& g.len() == 9
    &&& vals.len() == 9
    &&& forall|i: int| 0 <= i < 9 ==> 1 <= #[trigger] vals[i] <= 9
    &&& forall|i1: int, i2: int| 0 <= i1 < i2 < 9 ==> vals[i1] != vals[i2]
    &&& forall|i: int| 0 <= i < 9 ==> sq_allows(#[trigger] g[i], vals[i])
}

/// The position where a group solution puts digit `e`.
pub open spec fn val_pos(vals: Seq<int>, e: int) -> int {
    choose|i0: int| 0 <= i0 < 9 && vals[i0] == e
}

/// The heart of the exclusive-subset rule's soundness: when a group
/// solution's digit for cell `i` lay outside an exclusive set wholly
/// offered by that cell, the set's digits would have one position too few.
proof fn lemma_exclusive_in_solution(g: Seq<Square>, vals: Seq<int>, i: int, emask: u32)
    requires
        group_wf(g),
        group_solution(g, vals),
        0 <= i < 9,
        g[i] is Possible,
        is_exclusive(g, emask),
        forall|e: int|
            mask_has(emask, e) ==> mask_has(g[i]->Possible_0.bits, e) && !mask_has(
                fixed_mask(g),
                e,
            ),
    ensures
        mask_has(emask, vals[i]),
{
    broadcast use vstd::set::group_set_axioms;

    let pm = choose|pm: u32| excl_witness(g, pm, emask);
    lemma_excl_upto(g, pm, 9);
    lemma_fixed_mask_upto(g, 9);
    let d = vals[i];
    if !mask_has(emask, d) {
        let es = mask_set(emask);
        let ps = mask_set(pm);
        lemma_mask_set_card(emask);
        lemma_mask_set_card(pm);
        // cell i's own position lies in the exclusive position set
        lemma_exclusive_nonzero(g, emask);
        lemma_nonzero_has(emask);
        let e0 = choose|e: int| mask_has(emask, e);
        lemma_dpos_upto(g, e0, 9);
        assert(dpos(g, e0) == pm);
        assert(g[i] matches Square::Possible(pp) && mask_has(pp.bits, e0));
        assert(mask_has(pm, i + 1));
        // each exclusive digit sits at some position, and that position
        // offers it, so it lies in the position set too - but not at i
        assert forall|e: int| es.contains(e) implies {
            &&& 0 <= val_pos(vals, e) < 9
            &&& vals[val_pos(vals, e)] == e
            &&& mask_has(pm, val_pos(vals, e) + 1)
            &&& val_pos(vals, e) != i
        } by {
            lemma_nine_distinct_complete(vals, e);
            let i0 = val_pos(vals, e);
            assert(0 <= i0 < 9 && vals[i0] == e);
            assert(sq_allows(g[i0], vals[i0]));
            match g[i0] {
                Square::Fixed(dd) => {
                    assert(dd as int == e);
                    assert(mask_has(fixed_mask(g), e));
                },
                Square::Possible(pp) => {
                    lemma_dpos_upto(g, e, 9);
                    assert(mask_has(dpos(g, e), i0 + 1));
                    assert(dpos(g, e) == pm);
                },
            }
            if i0 == i {
                assert(vals[i] == e);
            }
        }
        let f = |e: int| val_pos(vals, e) + 1;
        assert(injective_on(f, es)) by {
            assert forall|e1: int, e2: int|
                es.contains(e1) && es.contains(e2) && #[trigger] f(e1) == #[trigger] f(
                    e2,
                ) implies e1 == e2 by {
                assert(vals[val_pos(vals, e1)] == e1);
                assert(vals[val_pos(vals, e2)] == e2);
            }
        }
        let image = es.map(f);
        lemma_map_size(es, image, f);
        assert(image.subset_of(ps.remove(i + 1))) by {
            assert forall|z: int| image.contains(z) implies ps.remove(i + 1).contains(z) by {
                let e = choose|e: int| es.contains(e) && #[trigger] f(e) == z;
                assert(mask_has(pm, val_pos(vals, e) + 1));
                assert(z != i + 1);
            }
        }
        lemma_len_subset(image, ps.remove(i + 1));
        assert(ps.contains(i + 1));
        assert(ps.remove(i + 1).len() == ps.len() - 1);
        assert(es.len() == mask_count(emask));
        assert(ps.len() == mask_count(pm));
        assert(mask_count(emask) == mask_count(pm));
        assert(false);
    }
}

/// Propagation never eliminates a digit that some solution of the group
/// still needs: the rules keep every group solution's digit in its cell.
pub proof fn lemma_prune_cell_preserves(g: Seq<Square>, vals: Seq<int>, i: int)
    requires
        group_wf(g),
        group_solution(g, vals),
        0 <= i < 9,
    ensures
        prune_cell_m(g, g[i]) matches Some(c2) && sq_allows(c2, vals[i]),
{
    lemma_fixed_mask_upto(g, 9);
    lemma_all_excl_upto(g, 9);
    match g[i] {
        Square::Fixed(_) => {},
        Square::Possible(p) => {
            let d = vals[i];
            assert(mask_has(p.bits, d));
            let fm = fixed_mask(g);
            assert(!mask_has(fm, d)) by {
                if mask_has(fm, d) {
                    let i2 = choose|i2: int|
                        0 <= i2 < 9 && (#[trigger] g[i2] matches Square::Fixed(dd) && dd as int
                            == d);
                    assert(sq_allows(g[i2], vals[i2]));
                    assert(vals[i2] == d);
                    if i < i2 {
                        assert(vals[i] != vals[i2]);
                    } else if i2 < i {
                        assert(vals[i2] != vals[i]);
                    }
                }
            }
            let nb = p.bits & !fm;
            lemma_diff_has(p.bits, fm);
            lemma_ops_wf(p.bits, fm);
            assert(mask_has(nb, d));
            assert(nb != 0) by {
                if nb == 0 {
                    lemma_zero_has();
                }
            }
            let inter = nb & all_excl(g);
            lemma_intersect_has(nb, all_excl(g));
            lemma_ops_wf(nb, all_excl(g));
            if is_exclusive(g, inter) {
                assert forall|e: int|
                    mask_has(inter, e) implies mask_has(g[i]->Possible_0.bits, e) && !mask_has(
                    fixed_mask(g),
                    e,
                ) by {
                    assert(mask_has(nb, e));
                }
                lemma_exclusive_in_solution(g, vals, i, inter);
                lemma_exclusive_nonzero(g, inter);
                lemma_norm_wf(inter);
            } else {
                lemma_norm_wf(nb);
            }
        },
    }
}


/// One group application cannot contradict a board some solution refines,
/// and its result is still refined by that solution.
proof fn lemma_apply_group_preserves(b: Seq<Square>, k: int, g: int, sol: Seq<int>)
    requires
        board_wf(b),
        is_solution(sol),
        refines(b, sol),
        0 <= k < 3,
        0 <= g < 9,
    ensures
        apply_group_m(b, k, g) matches Some(b2) && refines(b2, sol) && board_wf(b2),
{
    let grp = group_seq(b, k, g);
    lemma_group_seq_wf(b, k, g);
    lemma_apply_group_shrinks(b, k, g);
    let vals = Seq::new(9, |i: int| sol[gidx(k, g, i)]);
    assert(group_solution(grp, vals)) by {
        assert forall|i: int| 0 <= i < 9 implies 1 <= #[trigger] vals[i] <= 9 && sq_allows(
            grp[i],
            vals[i],
        ) by {
            lemma_gidx(k, g, i);
            assert(sq_allows(b[gidx(k, g, i)], sol[gidx(k, g, i)]));
        }
    }
    assert forall|i: int| 0 <= i < 9 implies prune_cell_m(grp, #[trigger] grp[i]) matches Some(
        c2,
    ) && sq_allows(c2, vals[i]) by {
        lemma_prune_cell_preserves(grp, vals, i);
    }
    assert(!(exists|i: int| 0 <= i < 9 && prune_cell_m(grp, #[trigger] grp[i]) is None));
    let ng = Seq::new(9, |i: int| opt_sq(prune_cell_m(grp, grp[i])));
    assert(prune_group_m(grp) == Some(ng));
    let b2 = Seq::new(
        81,
        |j: int|
            if group_of(k, j) == g {
                ng[pos_of(k, j)]
            } else {
                b[j]
            },
    );
    assert(apply_group_m(b, k, g) == Some(b2));
    assert forall|j: int| 0 <= j < 81 implies sq_allows(#[trigger] b2[j], sol[j]) by {
        lemma_decomp(k, j);
        if group_of(k, j) == g {
            let i = pos_of(k, j);
            assert(prune_cell_m(grp, grp[i]) matches Some(c2) && sq_allows(c2, vals[i]));
            assert(b2[j] == ng[i]);
            assert(vals[i] == sol[j]);
        }
    }
}

proof fn lemma_sweep_upto_preserves(b: Seq<Square>, n: int, sol: Seq<int>)
    requires
        board_wf(b),
        is_solution(sol),
        refines(b, sol),
        0 <= n <= 27,
    ensures
        sweep_upto(b, n) matches Some(b2) && refines(b2, sol) && board_wf(b2),
    decreases n,
{
    if n > 0 {
        lemma_sweep_upto_preserves(b, n - 1, sol);
        assert(0 <= (n - 1) / 9 < 3 && 0 <= (n - 1) % 9 < 9) by {
            vstd::arithmetic::div_mod::lemma_fundamental_div_mod((n - 1) as int, 9);
            vstd::arithmetic::div_mod::lemma_mod_bound((n - 1) as int, 9);
        }
        match sweep_upto(b, n - 1) {
            None => {},
            Some(bm) => {
                lemma_apply_group_preserves(bm, (n - 1) / 9, (n - 1) % 9, sol);
            },
        }
    }
}

/// Propagation never eliminates a legal candidate: a solution that refines
/// a board still refines the board pruned to its fixpoint, and pruning
/// such a board never reports contradiction.
pub proof fn lemma_prune_preserves_solutions(b: Seq<Square>, sol: Seq<int>)
    requires
        board_wf(b),
        is_solution(sol),
        refines(b, sol),
    ensures
        prune_m(b) matches Some(p) && refines(p, sol) && board_wf(p),
    decreases weight(b),
{
    lemma_sweep_upto_preserves(b, 27, sol);
    crate::board::lemma_weight_nonneg_pub(b);
    match sweep_m(b) {
        None => {},
        Some(b2) => {
            if b2 != b {
                lemma_sweep_strict(b);
                lemma_prune_preserves_solutions(b2, sol);
            }
        },
    }
}

} // verus!
