use vstd::prelude::*;
use vstd::arithmetic::div_mod::lemma_fundamental_div_mod_converse;
use crate::square::{Square, sq_wf, sq_allows, sq_count};
use crate::group::{
    group_wf, valid_group_m, prune_group_m, valid_group, prune_group, lemma_prune_cell_shrinks,
    prune_cell_m, opt_sq,
};

verus! {

/// The 81 cells of a board, row-major.
pub type Grid = Vec<Square>;

/// A 9 by 9 Sudoku board: 81 cells in row-major order.
#[derive(Clone, PartialEq, Eq, Debug)]
pub struct Board {
    pub squares: Grid,
}

/// A well-formed board: 81 well-formed cells.
pub open spec fn board_wf(b: Seq<Square>) -> bool {
    b.len() == 81 && forall|j: int| 0 <= j < 81 ==> sq_wf(#[trigger] b[j])
}

/// Linear index of member `i` of group `g` of kind `k`
/// (0 = rows, 1 = columns, 2 = boxes).
pub open spec fn gidx(k: int, g: int, i: int) -> int {
    if k == 0 {
        g * 9 + i
    } else if k == 1 {
        i * 9 + g
    } else {
        (g / 3) * 27 + (g % 3) * 3 + (i / 3) * 9 + (i % 3)
    }
}

/// Which group of kind `k` the cell at linear index `j` belongs to.
pub open spec fn group_of(k: int, j: int) -> int {
    if k == 0 {
        j / 9
    } else if k == 1 {
        j % 9
    } else {
        (j / 27) * 3 + (j % 9) / 3
    }
}

/// Where in its group of kind `k` the cell at linear index `j` stands.
pub open spec fn pos_of(k: int, j: int) -> int {
    if k == 0 {
        j % 9
    } else if k == 1 {
        j / 9
    } else {
        ((j / 9) % 3) * 3 + (j % 3)
    }
}

/// Group membership is a bijection: `gidx` lands in range and `group_of` /
/// `pos_of` recover the group and the position.
pub proof fn lemma_gidx(k: int, g: int, i: int)
    requires
        0 <= k < 3,
        0 <= g < 9,
        0 <= i < 9,
    ensures
        0 <= gidx(k, g, i) < 81,
        group_of(k, gidx(k, g, i)) == g,
        pos_of(k, gidx(k, g, i)) == i,
{
    if k == 0 {
        lemma_fundamental_div_mod_converse(g * 9 + i, 9, g, i);
    } else if k == 1 {
        lemma_fundamental_div_mod_converse(i * 9 + g, 9, i, g);
    } else {
        let a = g / 3;
        let c = g % 3;
        let b = i / 3;
        let e = i % 3;
        lemma_fundamental_div_mod_converse(g, 3, a, c);
        lemma_fundamental_div_mod_converse(i, 3, b, e);
        let j = a * 27 + c * 3 + b * 9 + e;
        assert(gidx(2, g, i) == j);
        lemma_fundamental_div_mod_converse(j, 27, a, c * 3 + b * 9 + e);
        lemma_fundamental_div_mod_converse(j, 9, a * 3 + b, c * 3 + e);
        lemma_fundamental_div_mod_converse(c * 3 + e, 3, c, e);
        lemma_fundamental_div_mod_converse(a * 3 + b, 3, a, b);
        lemma_fundamental_div_mod_converse(j, 3, a * 9 + c + b * 3, e);
        assert(j % 9 == c * 3 + e);
        assert((j % 9) / 3 == c);
        assert(j / 9 == a * 3 + b);
        assert((j / 9) % 3 == b);
    }
}

/// Every linear index decomposes into its group and position of each kind.
pub proof fn lemma_decomp(k: int, j: int)
    requires
        0 <= k < 3,
        0 <= j < 81,
    ensures
        0 <= group_of(k, j) < 9,
        0 <= pos_of(k, j) < 9,
        gidx(k, group_of(k, j), pos_of(k, j)) == j,
{
    if k == 0 {
        lemma_fundamental_div_mod_converse(j, 9, j / 9, j % 9);
        assert(j == (j / 9) * 9 + j % 9) by {
            vstd::arithmetic::div_mod::lemma_fundamental_div_mod(j, 9);
        }
    } else if k == 1 {
        assert(j == (j / 9) * 9 + j % 9) by {
            vstd::arithmetic::div_mod::lemma_fundamental_div_mod(j, 9);
        }
    } else {
        let a = j / 27;
        let b = (j / 9) % 3;
        let c = (j % 9) / 3;
        let e = j % 3;
        assert(j == 27 * a + (j % 27)) by {
            vstd::arithmetic::div_mod::lemma_fundamental_div_mod(j, 27);
        }
        assert(j == 9 * (j / 9) + (j % 9)) by {
            vstd::arithmetic::div_mod::lemma_fundamental_div_mod(j, 9);
        }
        assert(j == 3 * (j / 3) + e) by {
            vstd::arithmetic::div_mod::lemma_fundamental_div_mod(j, 3);
        }
        let r27 = j % 27;
        let r9 = j % 9;
        assert(0 <= r27 < 27 && 0 <= r9 < 9 && 0 <= e < 3) by {
            vstd::arithmetic::div_mod::lemma_mod_bound(j, 27);
            vstd::arithmetic::div_mod::lemma_mod_bound(j, 9);
            vstd::arithmetic::div_mod::lemma_mod_bound(j, 3);
        }
        // j / 9 == 3 * a + r27 / 9 and r9 == r27 % 9
        lemma_fundamental_div_mod_converse(j, 9, 3 * a + r27 / 9, r27 % 9);
        assert(r27 == 9 * (r27 / 9) + r27 % 9 && 0 <= r27 % 9 < 9 && 0 <= r27 / 9 < 3) by {
            vstd::arithmetic::div_mod::lemma_fundamental_div_mod(r27, 9);
            vstd::arithmetic::div_mod::lemma_mod_bound(r27, 9);
        }
        assert(b == r27 / 9 && r9 == r27 % 9) by {
            lemma_fundamental_div_mod_converse(3 * a + r27 / 9, 3, a, r27 / 9);
        }
        // r9 == 3 * c + e
        assert(r9 == 3 * c + e) by {
            vstd::arithmetic::div_mod::lemma_fundamental_div_mod(r9, 3);
            lemma_fundamental_div_mod_converse(j, 3, 3 * ((j / 9)) + c, e);
            lemma_fundamental_div_mod_converse(r9, 3, c, r9 % 3);
        }
        assert(j == 27 * a + 9 * b + 3 * c + e);
        let g = group_of(2, j);
        let i = pos_of(2, j);
        assert(g == 3 * a + c && i == 3 * b + e);
        lemma_fundamental_div_mod_converse(g, 3, a, c);
        lemma_fundamental_div_mod_converse(i, 3, b, e);
        assert(gidx(2, g, i) == (g / 3) * 27 + (g % 3) * 3 + (i / 3) * 9 + (i % 3));
    }
}

/// The nine cells of group `g` of kind `k`, in group order.
pub open spec fn group_seq(b: Seq<Square>, k: int, g: int) -> Seq<Square> {
    Seq::new(9, |i: int| b[gidx(k, g, i)])
}

/// No group of the board fixes a digit twice.
pub open spec fn board_valid(b: Seq<Square>) -> bool {
    forall|k: int, g: int|
        0 <= k < 3 && 0 <= g < 9 ==> valid_group_m(#[trigger] group_seq(b, k, g))
}

/// Every cell of the board is determined.
pub open spec fn all_fixed(b: Seq<Square>) -> bool {
    forall|j: int| 0 <= j < 81 ==> (#[trigger] b[j]) is Fixed
}

/// The digit of each cell: a fixed cell's digit, 0 for an open cell.
pub open spec fn digits_of(b: Seq<Square>) -> Seq<int> {
    Seq::new(
        b.len(),
        |j: int|
            match b[j] {
                Square::Fixed(d) => d as int,
                Square::Possible(_) => 0,
            },
    )
}

/// A complete assignment of digits that satisfies every Sudoku constraint:
/// 81 digits in 1..=9, no digit twice in any row, column or box.
pub open spec fn is_solution(sol: Seq<int>) -> bool {
    &&& sol.len() == 81
    &&& forall|j: int| 0 <= j < 81 ==> 1 <= #[trigger] sol[j] <= 9
    &&& forall|k: int, g: int, i1: int, i2: int|
        0 <= k < 3 && 0 <= g < 9 && 0 <= i1 < i2 < 9 ==> #[trigger] sol[gidx(k, g, i1)]
            != #[trigger] sol[gidx(k, g, i2)]
}

/// Every cell of the board allows the digit the assignment puts there.
pub open spec fn refines(b: Seq<Square>, sol: Seq<int>) -> bool {
    forall|j: int| 0 <= j < 81 ==> sq_allows(#[trigger] b[j], sol[j])
}

/// `s` is a solved refinement of `b`: wholly fixed, a valid solution, and
/// in agreement with everything `b` had already determined or allowed.
pub open spec fn solves(b: Seq<Square>, s: Seq<Square>) -> bool {
    &&& s.len() == 81
    &&& all_fixed(s)
    &&& is_solution(digits_of(s))
    &&& refines(b, digits_of(s))
}

/// Linear index of member `i` of group `g` of kind `k`.
pub fn group_index(k: u32, g: usize, i: usize) -> (r: usize)
    requires
        k < 3,
        g < 9,
        i < 9,
    ensures
        r as int == gidx(k as int, g as int, i as int),
        r < 81,
{
    proof {
        lemma_gidx(k as int, g as int, i as int);
    }
    if k == 0 {
        g * 9 + i
    } else if k == 1 {
        i * 9 + g
    } else {
        (g / 3) * 27 + (g % 3) * 3 + (i / 3) * 9 + (i % 3)
    }
}

/// Copy the nine cells of one group out of the board.
fn group_squares(squares: &Vec<Square>, k: u32, g: usize) -> (r: Vec<Square>)
    requires
        board_wf(squares@),
        k < 3,
        g < 9,
    ensures
        r@ =~= group_seq(squares@, k as int, g as int),
        group_wf(r@),
{
    let mut out: Vec<Square> = Vec::new();
    let mut i: usize = 0;
    while i < 9
        invariant
            0 <= i <= 9,
            board_wf(squares@),
            k < 3,
            g < 9,
            out@.len() == i,
            forall|i0: int|
                0 <= i0 < i ==> #[trigger] out@[i0] == squares@[gidx(k as int, g as int, i0)],
        decreases 9 - i,
    {
        let idx = group_index(k, g, i);
        out.push(squares[idx]);
        i = i + 1;
    }
    proof {
        assert forall|i0: int| 0 <= i0 < 9 implies sq_wf(#[trigger] out@[i0]) by {
            lemma_gidx(k as int, g as int, i0);
        }
    }
    out
}

/// Whether two boards hold the same cells.
fn boards_equal(a: &Vec<Square>, b: &Vec<Square>) -> (r: bool)
    requires
        a@.len() == 81,
        b@.len() == 81,
    ensures
        r == (a@ == b@),
{
    let mut j: usize = 0;
    while j < 81
        invariant
            0 <= j <= 81,
            a@.len() == 81,
            b@.len() == 81,
            forall|j0: int| 0 <= j0 < j ==> a@[j0] == b@[j0],
        decreases 81 - j,
    {
        if !squares_eq(a[j], b[j]) {
            proof {
                assert(a@[j as int] != b@[j as int]);
            }
            return false;
        }
        j = j + 1;
    }
    proof {
        assert(a@ =~= b@);
    }
    true
}

/// Whether two cells are the same value.
fn squares_eq(a: Square, b: Square) -> (r: bool)
    ensures
        r == (a == b),
{
    match (a, b) {
        (Square::Fixed(x), Square::Fixed(y)) => x == y,
        (Square::Possible(p), Square::Possible(q)) => p.bits == q.bits,
        _ => false,
    }
}

impl Board {
    /// A board made of the given 81 cells.
    pub fn new(squares: Grid) -> (r: Self)
        requires
            board_wf(squares@),
        ensures
            r.squares@ == squares@,
    {
        Self { squares }
    }

    /// Whether the board has 81 well-formed cells: fixed digits in 1..=9,
    /// candidate sets that are 9-bit masks holding at least two digits.
    pub fn is_well_formed(&self) -> (r: bool)
        ensures
            r == board_wf(self.squares@),
    {
        let n = self.squares.len();
        if n != 81 {
            return false;
        }
        let mut j: usize = 0;
        while j < 81
            invariant
                0 <= j <= 81,
                self.squares@.len() == 81,
                forall|j0: int| 0 <= j0 < j ==> sq_wf(#[trigger] self.squares@[j0]),
            decreases 81 - j,
        {
            let ok = match self.squares[j] {
                Square::Fixed(d) => 1 <= d && d <= 9,
                Square::Possible(p) => p.bits < 512 && p.pop_count() >= 2,
            };
            if !ok {
                proof {
                    assert(!sq_wf(self.squares@[j as int]));
                }
                return false;
            }
            j = j + 1;
        }
        true
    }

    /// Whether no group fixes a digit twice.
    pub fn is_valid(&self) -> (r: bool)
        requires
            board_wf(self.squares@),
        ensures
            r == board_valid(self.squares@),
    {
        let mut k: u32 = 0;
        while k < 3
            invariant
                0 <= k <= 3,
                board_wf(self.squares@),
                forall|k0: int, g0: int|
                    0 <= k0 < k && 0 <= g0 < 9 ==> valid_group_m(
                        #[trigger] group_seq(self.squares@, k0, g0),
                    ),
            decreases 3 - k,
        {
            let mut g: usize = 0;
            while g < 9
                invariant
                    0 <= k < 3,
                    0 <= g <= 9,
                    board_wf(self.squares@),
                    forall|k0: int, g0: int|
                        0 <= k0 < k && 0 <= g0 < 9 ==> valid_group_m(
                            #[trigger] group_seq(self.squares@, k0, g0),
                        ),
                    forall|g0: int|
                        0 <= g0 < g ==> valid_group_m(
                            #[trigger] group_seq(self.squares@, k as int, g0),
                        ),
                decreases 9 - g,
            {
                let grp = group_squares(&self.squares, k, g);
                if !valid_group(&grp) {
                    return false;
                }
                g = g + 1;
            }
            k = k + 1;
        }
        true
    }

    /// Whether every cell is determined.
    pub fn is_solved(&self) -> (r: bool)
        requires
            board_wf(self.squares@),
        ensures
            r == all_fixed(self.squares@),
    {
        let mut j: usize = 0;
        while j < 81
            invariant
                0 <= j <= 81,
                board_wf(self.squares@),
                forall|j0: int| 0 <= j0 < j ==> (#[trigger] self.squares@[j0]) is Fixed,
            decreases 81 - j,
        {
            if !self.squares[j].is_fixed() {
                return false;
            }
            j = j + 1;
        }
        true
    }
}


/// `c2` is `c` after some pruning: well-formed, allowing only digits `c`
/// allowed, identical when `c` was fixed, and strictly smaller when changed.
pub open spec fn cell_shrink(c2: Square, c: Square) -> bool {
    &&& sq_wf(c2)
    &&& forall|d: int| sq_allows(c2, d) ==> sq_allows(c, d)
    &&& (c is Fixed ==> c2 == c)
    &&& sq_count(c2) <= sq_count(c)
    &&& (c2 != c ==> sq_count(c2) < sq_count(c))
}

proof fn lemma_cell_shrink_refl(c: Square)
    requires
        sq_wf(c),
    ensures
        cell_shrink(c, c),
{
}

proof fn lemma_cell_shrink_trans(c3: Square, c2: Square, c1: Square)
    requires
        cell_shrink(c3, c2),
        cell_shrink(c2, c1),
    ensures
        cell_shrink(c3, c1),
{
}

/// One group's pruning rules applied to the whole board.
pub open spec fn apply_group_m(b: Seq<Square>, k: int, g: int) -> Option<Seq<Square>> {
    match prune_group_m(group_seq(b, k, g)) {
        None => None,
        Some(ng) => Some(
            Seq::new(
                81,
                |j: int|
                    if group_of(k, j) == g {
                        ng[pos_of(k, j)]
                    } else {
                        b[j]
                    },
            ),
        ),
    }
}

/// The first `n` of the 27 group applications of one full sweep, in order:
/// all nine rows, then all nine columns, then all nine boxes.
pub open spec fn sweep_upto(b: Seq<Square>, n: int) -> Option<Seq<Square>>
    decreases n,
{
    if n <= 0 {
        Some(b)
    } else {
        match sweep_upto(b, n - 1) {
            None => None,
            Some(b2) => apply_group_m(b2, (n - 1) / 9, (n - 1) % 9),
        }
    }
}

/// One full three-pass sweep of the propagation rules over the board.
pub open spec fn sweep_m(b: Seq<Square>) -> Option<Seq<Square>> {
    sweep_upto(b, 27)
}

/// Total number of undetermined candidates on the board beyond the one each
/// cell must keep; pruning and branching strictly lower it.
pub open spec fn weight_upto(b: Seq<Square>, n: int) -> int
    decreases n,
{
    if n <= 0 {
        0
    } else {
        weight_upto(b, n - 1) + (sq_count(b[n - 1]) - 1)
    }
}

/// Total surplus candidate count of the board.
pub open spec fn weight(b: Seq<Square>) -> int {
    weight_upto(b, 81)
}

proof fn lemma_weight_upto_nonneg(b: Seq<Square>, n: int)
    requires
        forall|j: int| 0 <= j < n ==> sq_wf(#[trigger] b[j]),
    ensures
        weight_upto(b, n) >= 0,
    decreases n,
{
    if n > 0 {
        lemma_weight_upto_nonneg(b, n - 1);
    }
}

proof fn lemma_weight_upto_le(b2: Seq<Square>, b: Seq<Square>, n: int)
    requires
        forall|j: int| 0 <= j < n ==> sq_count(#[trigger] b2[j]) <= sq_count(#[trigger] b[j]),
    ensures
        weight_upto(b2, n) <= weight_upto(b, n),
    decreases n,
{
    if n > 0 {
        lemma_weight_upto_le(b2, b, n - 1);
    }
}

proof fn lemma_weight_upto_strict(b2: Seq<Square>, b: Seq<Square>, w: int, n: int)
    requires
        forall|j: int| 0 <= j < n ==> sq_count(#[trigger] b2[j]) <= sq_count(#[trigger] b[j]),
        0 <= w < n,
        sq_count(b2[w]) < sq_count(b[w]),
    ensures
        weight_upto(b2, n) < weight_upto(b, n),
    decreases n,
{
    if n - 1 > w {
        lemma_weight_upto_strict(b2, b, w, n - 1);
    } else {
        lemma_weight_upto_le(b2, b, n - 1);
    }
}

proof fn lemma_weight_update(b: Seq<Square>, u: int, c: Square, n: int)
    requires
        0 <= u < b.len(),
        n <= b.len(),
    ensures
        weight_upto(b.update(u, c), n) == weight_upto(b, n) + if u < n {
            sq_count(c) - sq_count(b[u])
        } else {
            0int
        },
    decreases n,
{
    if n > 0 {
        lemma_weight_update(b, u, c, n - 1);
    }
}

/// A well-formed group's cells sit in a well-formed board.
pub proof fn lemma_group_seq_wf(b: Seq<Square>, k: int, g: int)
    requires
        board_wf(b),
        0 <= k < 3,
        0 <= g < 9,
    ensures
        group_wf(group_seq(b, k, g)),
{
    assert forall|i: int| 0 <= i < 9 implies sq_wf(#[trigger] group_seq(b, k, g)[i]) by {
        lemma_gidx(k, g, i);
    }
}

/// One group application only shrinks cells, keeping the board well-formed.
pub proof fn lemma_apply_group_shrinks(b: Seq<Square>, k: int, g: int)
    requires
        board_wf(b),
        0 <= k < 3,
        0 <= g < 9,
    ensures
        match apply_group_m(b, k, g) {
            Some(b2) => board_wf(b2) && b2.len() == 81 && forall|j: int|
                0 <= j < 81 ==> cell_shrink(#[trigger] b2[j], b[j]),
            None => true,
        },
{
    let grp = group_seq(b, k, g);
    lemma_group_seq_wf(b, k, g);
    match prune_group_m(grp) {
        None => {},
        Some(ng) => {
            let b2 = Seq::new(
                81,
                |j: int|
                    if group_of(k, j) == g {
                        ng[pos_of(k, j)]
                    } else {
                        b[j]
                    },
            );
            assert forall|i: int| 0 <= i < 9 implies prune_cell_m(grp, grp[i]) == Some(
                #[trigger] ng[i],
            ) by {
                assert(!(prune_cell_m(grp, grp[i]) is None));
            }
            assert forall|j: int| 0 <= j < 81 implies cell_shrink(#[trigger] b2[j], b[j]) by {
                lemma_decomp(k, j);
                if group_of(k, j) == g {
                    let i = pos_of(k, j);
                    assert(grp[i] == b[j]);
                    lemma_prune_cell_shrinks(grp, grp[i]);
                } else {
                    lemma_cell_shrink_refl(b[j]);
                }
            }
            assert(board_wf(b2));
            assert(apply_group_m(b, k, g) == Some(b2));
        },
    }
}

/// A partial sweep only shrinks cells, keeping the board well-formed.
proof fn lemma_sweep_upto_shrinks(b: Seq<Square>, n: int)
    requires
        board_wf(b),
        0 <= n <= 27,
    ensures
        match sweep_upto(b, n) {
            Some(b2) => board_wf(b2) && forall|j: int|
                0 <= j < 81 ==> cell_shrink(#[trigger] b2[j], b[j]),
            None => true,
        },
    decreases n,
{
    if n <= 0 {
        assert forall|j: int| 0 <= j < 81 implies cell_shrink(#[trigger] b[j], b[j]) by {
            lemma_cell_shrink_refl(b[j]);
        }
    } else {
        lemma_sweep_upto_shrinks(b, n - 1);
        match sweep_upto(b, n - 1) {
            None => {},
            Some(bm) => {
                lemma_apply_group_shrinks(bm, (n - 1) / 9, (n - 1) % 9);
                match apply_group_m(bm, (n - 1) / 9, (n - 1) % 9) {
                    None => {},
                    Some(b2) => {
                        assert forall|j: int| 0 <= j < 81 implies cell_shrink(
                            #[trigger] b2[j],
                            b[j],
                        ) by {
                            lemma_cell_shrink_trans(b2[j], bm[j], b[j]);
                        }
                    },
                }
            },
        }
    }
}

/// One full sweep only shrinks cells, keeping the board well-formed.
pub proof fn lemma_sweep_shrinks(b: Seq<Square>)
    requires
        board_wf(b),
    ensures
        match sweep_m(b) {
            Some(b2) => board_wf(b2) && forall|j: int|
                0 <= j < 81 ==> cell_shrink(#[trigger] b2[j], b[j]),
            None => true,
        },
{
    lemma_sweep_upto_shrinks(b, 27);
}

/// A sweep that has already failed stays failed.
proof fn lemma_sweep_none(b: Seq<Square>, n: int, m: int)
    requires
        sweep_upto(b, n) is None,
        0 <= n <= m,
    ensures
        sweep_upto(b, m) is None,
    decreases m - n,
{
    if m > n {
        lemma_sweep_none(b, n, m - 1);
    }
}

/// Propagation driven to a fixpoint: sweep until a full sweep changes
/// nothing, or fail on the sweep that signals contradiction.
pub open spec fn prune_m(b: Seq<Square>) -> Option<Seq<Square>>
    decreases weight(b)
        when board_wf(b)
        via prune_m_decreases
{
    match sweep_m(b) {
        None => None,
        Some(b2) => if b2 == b {
            Some(b)
        } else {
            prune_m(b2)
        },
    }
}

/// A well-formed board's weight is never negative.
pub proof fn lemma_weight_nonneg_pub(b: Seq<Square>)
    requires
        board_wf(b),
    ensures
        weight(b) >= 0,
{
    lemma_weight_upto_nonneg(b, 81);
}

/// A sweep that changes the board strictly lowers its weight.
pub proof fn lemma_sweep_strict(b: Seq<Square>)
    requires
        board_wf(b),
    ensures
        match sweep_m(b) {
            Some(b2) => b2 != b ==> weight(b2) < weight(b) && weight(b2) >= 0,
            None => true,
        },
{
    lemma_sweep_shrinks(b);
    match sweep_m(b) {
        None => {},
        Some(b2) => {
            if b2 != b {
                lemma_weight_upto_nonneg(b2, 81);
                assert(exists|j: int| 0 <= j < 81 && b2[j] != b[j]) by {
                    if forall|j: int| 0 <= j < 81 ==> #[trigger] b2[j] == b[j] {
                        assert(b2 =~= b);
                    }
                }
                let w = choose|j: int| 0 <= j < 81 && b2[j] != b[j];
                assert(cell_shrink(b2[w], b[w]));
                assert forall|j: int| 0 <= j < 81 implies sq_count(#[trigger] b2[j]) <= sq_count(
                    #[trigger] b[j],
                ) by {
                    assert(cell_shrink(b2[j], b[j]));
                }
                lemma_weight_upto_strict(b2, b, w, 81);
            }
        },
    }
}

#[via_fn]
proof fn prune_m_decreases(b: Seq<Square>) {
    lemma_sweep_strict(b);
    match sweep_m(b) {
        None => {},
        Some(b2) => {
            if b2 != b {
                lemma_sweep_shrinks(b);
            }
        },
    }
}

/// The pruned board, when pruning succeeds, only shrinks cells.
pub proof fn lemma_prune_m_shrinks(b: Seq<Square>)
    requires
        board_wf(b),
    ensures
        match prune_m(b) {
            Some(p) => board_wf(p) && forall|j: int|
                0 <= j < 81 ==> cell_shrink(#[trigger] p[j], b[j]),
            None => true,
        },
    decreases weight(b),
{
    lemma_sweep_shrinks(b);
    lemma_weight_upto_nonneg(b, 81);
    match sweep_m(b) {
        None => {},
        Some(b2) => {
            if b2 == b {
                assert forall|j: int| 0 <= j < 81 implies cell_shrink(#[trigger] b[j], b[j]) by {
                    lemma_cell_shrink_refl(b[j]);
                }
            } else {
                lemma_sweep_strict(b);
                lemma_prune_m_shrinks(b2);
                match prune_m(b2) {
                    None => {},
                    Some(p) => {
                        assert forall|j: int| 0 <= j < 81 implies cell_shrink(
                            #[trigger] p[j],
                            b[j],
                        ) by {
                            lemma_cell_shrink_trans(p[j], b2[j], b[j]);
                        }
                    },
                }
            }
        },
    }
}

/// A fixpoint of the sweep prunes to itself: pruning an already-pruned
/// board leaves it unchanged.
pub proof fn lemma_prune_m_fixpoint(b: Seq<Square>)
    requires
        board_wf(b),
    ensures
        prune_m(b) matches Some(p) ==> sweep_m(p) == Some(p) && prune_m(p) == Some(p),
    decreases weight(b),
{
    lemma_weight_upto_nonneg(b, 81);
    match sweep_m(b) {
        None => {},
        Some(b2) => {
            if b2 != b {
                lemma_sweep_shrinks(b);
                lemma_sweep_strict(b);
                lemma_prune_m_fixpoint(b2);
            }
        },
    }
}

/// Copy the cells of a board.
fn copy_squares(v: &Vec<Square>) -> (r: Vec<Square>)
    ensures
        r@ == v@,
{
    let mut out: Vec<Square> = Vec::new();
    let mut j: usize = 0;
    let n = v.len();
    while j < n
        invariant
            0 <= j <= n,
            n == v@.len(),
            out@.len() == j,
            forall|j0: int| 0 <= j0 < j ==> #[trigger] out@[j0] == v@[j0],
        decreases n - j,
    {
        out.push(v[j]);
        j = j + 1;
    }
    proof {
        assert(out@ =~= v@);
    }
    out
}

/// Write the nine cells of one group back into the board.
fn set_group(squares: &mut Vec<Square>, k: u32, g: usize, vals: &Vec<Square>)
    requires
        board_wf(old(squares)@),
        group_wf(vals@),
        k < 3,
        g < 9,
    ensures
        board_wf(final(squares)@),
        final(squares)@ =~= Seq::new(
            81,
            |j: int|
                if group_of(k as int, j) == g as int {
                    vals@[pos_of(k as int, j)]
                } else {
                    old(squares)@[j]
                },
        ),
{
    let mut i: usize = 0;
    while i < 9
        invariant
            0 <= i <= 9,
            k < 3,
            g < 9,
            board_wf(old(squares)@),
            group_wf(vals@),
            squares@.len() == 81,
            forall|j: int|
                0 <= j < 81 ==> #[trigger] squares@[j] == (if group_of(k as int, j) == g as int
                    && pos_of(k as int, j) < i as int {
                    vals@[pos_of(k as int, j)]
                } else {
                    old(squares)@[j]
                }),
        decreases 9 - i,
    {
        let idx = group_index(k, g, i);
        let ghost prev = squares@;
        squares.set(idx, vals[i]);
        proof {
            lemma_gidx(k as int, g as int, i as int);
            assert forall|j: int|
                0 <= j < 81 implies #[trigger] squares@[j] == (if group_of(k as int, j)
                == g as int && pos_of(k as int, j) < i as int + 1 {
                vals@[pos_of(k as int, j)]
            } else {
                old(squares)@[j]
            }) by {
                lemma_decomp(k as int, j);
                if j != idx as int {
                    assert(squares@[j] == prev[j]);
                }
            }
        }
        i = i + 1;
    }
    proof {
        assert forall|j: int| 0 <= j < 81 implies sq_wf(#[trigger] squares@[j]) by {
            lemma_decomp(k as int, j);
        }
        assert forall|j: int|
            0 <= j < 81 implies #[trigger] squares@[j] == (if group_of(k as int, j) == g as int {
            vals@[pos_of(k as int, j)]
        } else {
            old(squares)@[j]
        }) by {
            lemma_decomp(k as int, j);
        }
        assert(squares@ =~= Seq::new(
            81,
            |j: int|
                if group_of(k as int, j) == g as int {
                    vals@[pos_of(k as int, j)]
                } else {
                    old(squares)@[j]
                },
        ));
    }
}

/// Apply both elimination rules once to every row, column and box, in that
/// order; `None` signals a contradiction.
fn sweep(squares: &Vec<Square>) -> (r: Option<Vec<Square>>)
    requires
        board_wf(squares@),
    ensures
        match r {
            None => sweep_m(squares@) is None,
            Some(v) => sweep_m(squares@) == Some(v@) && board_wf(v@),
        },
{
    let mut cur = copy_squares(squares);
    let mut n: usize = 0;
    while n < 27
        invariant
            0 <= n <= 27,
            board_wf(squares@),
            board_wf(cur@),
            sweep_upto(squares@, n as int) == Some(cur@),
        decreases 27 - n,
    {
        let k: u32 = (n / 9) as u32;
        let g: usize = n % 9;
        proof {
            lemma_fundamental_div_mod_converse(n as int, 9, n as int / 9, n as int % 9);
        }
        let grp = group_squares(&cur, k, g);
        let ghost prev = cur@;
        match prune_group(&grp) {
            None => {
                proof {
                    assert(apply_group_m(prev, k as int, g as int) is None);
                    assert(sweep_upto(squares@, n as int + 1) is None);
                    lemma_sweep_none(squares@, n as int + 1, 27);
                }
                return None;
            },
            Some(ng) => {
                set_group(&mut cur, k, g, &ng);
                proof {
                    assert(prune_group_m(group_seq(prev, k as int, g as int)) == Some(ng@));
                    assert(cur@ =~= Seq::new(
                        81,
                        |j: int|
                            if group_of(k as int, j) == g as int {
                                ng@[pos_of(k as int, j)]
                            } else {
                                prev[j]
                            },
                    ));
                    assert(apply_group_m(prev, k as int, g as int) == Some(cur@));
                    assert(sweep_upto(squares@, n as int + 1) == Some(cur@));
                }
            },
        }
        n = n + 1;
    }
    Some(cur)
}

impl Board {
    /// Propagate to a fixpoint: sweep the elimination rules over the board
    /// until a whole sweep changes nothing; `None` signals contradiction.
    pub fn prune(&self) -> (r: Option<Board>)
        requires
            board_wf(self.squares@),
        ensures
            match r {
                None => prune_m(self.squares@) is None,
                Some(p) => prune_m(self.squares@) == Some(p.squares@) && board_wf(p.squares@)
                    && sweep_m(p.squares@) == Some(p.squares@) && prune_m(p.squares@) == Some(
                    p.squares@,
                ),
            },
    {
        let mut cur = copy_squares(&self.squares);
        loop
            invariant
                board_wf(cur@),
                board_wf(self.squares@),
                prune_m(self.squares@) == prune_m(cur@),
            decreases weight(cur@),
        {
            proof {
                lemma_weight_upto_nonneg(cur@, 81);
            }
            match sweep(&cur) {
                None => {
                    proof {
                        assert(prune_m(cur@) is None);
                    }
                    return None;
                },
                Some(next) => {
                    if boards_equal(&cur, &next) {
                        proof {
                            assert(prune_m(cur@) == Some(cur@));
                            lemma_prune_m_fixpoint(self.squares@);
                        }
                        return Some(Board { squares: cur });
                    }
                    proof {
                        assert(prune_m(cur@) == prune_m(next@));
                        lemma_sweep_strict(cur@);
                    }
                    cur = next;
                },
            }
        }
    }
}


/// The digits of a wholly fixed, duplicate-free board form a solution that
/// the board itself refines.
pub proof fn lemma_solved_valid_solution(b: Seq<Square>)
    requires
        board_wf(b),
        all_fixed(b),
        board_valid(b),
    ensures
        is_solution(digits_of(b)),
        refines(b, digits_of(b)),
{
    let sol = digits_of(b);
    assert forall|j: int| 0 <= j < 81 implies 1 <= #[trigger] sol[j] <= 9 by {
        assert(sq_wf(b[j]) && b[j] is Fixed);
    }
    assert forall|k: int, g: int, i1: int, i2: int|
        0 <= k < 3 && 0 <= g < 9 && 0 <= i1 < i2 < 9 implies #[trigger] sol[gidx(k, g, i1)]
        != #[trigger] sol[gidx(k, g, i2)] by {
        lemma_gidx(k, g, i1);
        lemma_gidx(k, g, i2);
        let grp = group_seq(b, k, g);
        assert(valid_group_m(grp));
        assert(grp[i1] == b[gidx(k, g, i1)] && grp[i2] == b[gidx(k, g, i2)]);
        assert(!(grp[i1] matches Square::Fixed(a) && grp[i2] matches Square::Fixed(bb) && a
            == bb));
    }
    assert forall|j: int| 0 <= j < 81 implies sq_allows(#[trigger] b[j], sol[j]) by {
        assert(b[j] is Fixed);
    }
}

/// Refinement lifts through shrinking: what a shrunken board allows, the
/// original board allowed.
pub proof fn lemma_refines_lift(bo: Seq<Square>, bi: Seq<Square>, sol: Seq<int>)
    requires
        bo.len() == 81,
        bi.len() == 81,
        sol.len() == 81,
        forall|j: int| 0 <= j < 81 ==> cell_shrink(#[trigger] bi[j], bo[j]),
        refines(bi, sol),
    ensures
        refines(bo, sol),
{
    assert forall|j: int| 0 <= j < 81 implies sq_allows(#[trigger] bo[j], sol[j]) by {
        assert(cell_shrink(bi[j], bo[j]));
        assert(sq_allows(bi[j], sol[j]));
    }
}

/// The board with the branching cell fixed to its lowest candidate.
pub open spec fn left_of(b: Seq<Square>, i: int) -> Seq<Square> {
    b.update(i, Square::Fixed(crate::square::mask_least(b[i]->Possible_0.bits) as u32))
}

/// The board with the branching cell keeping every other candidate.
pub open spec fn right_of(b: Seq<Square>, i: int) -> Seq<Square> {
    b.update(
        i,
        crate::square::norm_m(
            b[i]->Possible_0.bits & !crate::possibilities::mask_single(
                crate::square::mask_least(b[i]->Possible_0.bits),
            ),
        ),
    )
}

/// `i` is the branching cell: undetermined, with the fewest candidates,
/// ties broken by the lowest linear index.
pub open spec fn is_branch_idx(b: Seq<Square>, i: int) -> bool {
    &&& 0 <= i < 81
    &&& !(b[i] is Fixed)
    &&& forall|j: int|
        0 <= j < 81 && !((#[trigger] b[j]) is Fixed) ==> sq_count(b[i]) <= sq_count(b[j])
    &&& forall|j: int| 0 <= j < i && !((#[trigger] b[j]) is Fixed) ==> sq_count(b[j]) > sq_count(
        b[i],
    )
}

impl Board {
    /// The two children of branching at `idx`: the cell fixed to its lowest
    /// candidate, and the cell keeping the remaining candidates. Together
    /// they allow at that cell exactly what the parent allowed.
    pub fn split_at(&self, idx: usize) -> (r: (Board, Board))
        requires
            board_wf(self.squares@),
            idx < 81,
            self.squares@[idx as int] is Possible,
        ensures
            r.0.squares@ == left_of(self.squares@, idx as int),
            r.1.squares@ == right_of(self.squares@, idx as int),
            board_wf(r.0.squares@),
            board_wf(r.1.squares@),
            weight(r.0.squares@) < weight(self.squares@),
            weight(r.1.squares@) < weight(self.squares@),
            forall|j: int|
                0 <= j < 81 ==> cell_shrink(#[trigger] r.0.squares@[j], self.squares@[j]),
            forall|j: int|
                0 <= j < 81 ==> cell_shrink(#[trigger] r.1.squares@[j], self.squares@[j]),
            forall|d: int|
                sq_allows(self.squares@[idx as int], d) <==> (sq_allows(
                    r.0.squares@[idx as int],
                    d,
                ) || sq_allows(r.1.squares@[idx as int], d)),
    {
        let sq = self.squares[idx];
        let (fx, rest) = sq.split();
        let mut first = copy_squares(&self.squares);
        let mut second = copy_squares(&self.squares);
        first.set(idx, fx);
        second.set(idx, rest);
        proof {
            let b = self.squares@;
            let i = idx as int;
            let p = b[i]->Possible_0.bits;
            let least = crate::square::mask_least(p);
            crate::possibilities::lemma_count_zero_iff(p);
            crate::square::lemma_mask_least(p);
            crate::square::lemma_count_remove_one(p, least);
            crate::possibilities::lemma_single_has(least);
            crate::possibilities::lemma_diff_has(p, crate::possibilities::mask_single(least));
            crate::possibilities::lemma_ops_wf(p, crate::possibilities::mask_single(least));
            let rbits = p & !crate::possibilities::mask_single(least);
            crate::possibilities::lemma_count_zero_iff(rbits);
            crate::square::lemma_norm_wf(rbits);
            assert(first@ =~= left_of(b, i));
            assert(second@ =~= right_of(b, i));
            lemma_weight_update(b, i, Square::Fixed(least as u32), 81);
            lemma_weight_update(b, i, crate::square::norm_m(rbits), 81);
            assert forall|j: int| 0 <= j < 81 implies cell_shrink(#[trigger] first@[j], b[j]) by {
                if j != i {
                    lemma_cell_shrink_refl(b[j]);
                }
            }
            assert forall|j: int| 0 <= j < 81 implies cell_shrink(#[trigger] second@[j], b[j]) by {
                if j != i {
                    lemma_cell_shrink_refl(b[j]);
                }
            }
        }
        (Board { squares: first }, Board { squares: second })
    }

    /// Split at the branching cell: among undetermined cells, the one with
    /// the fewest candidates, ties broken by the lowest index.
    pub fn next_grids(&self) -> (r: (Board, Board))
        requires
            board_wf(self.squares@),
            !all_fixed(self.squares@),
        ensures
            board_wf(r.0.squares@),
            board_wf(r.1.squares@),
            weight(r.0.squares@) < weight(self.squares@),
            weight(r.1.squares@) < weight(self.squares@),
            forall|j: int|
                0 <= j < 81 ==> cell_shrink(#[trigger] r.0.squares@[j], self.squares@[j]),
            forall|j: int|
                0 <= j < 81 ==> cell_shrink(#[trigger] r.1.squares@[j], self.squares@[j]),
            exists|i: int|
                #[trigger] is_branch_idx(self.squares@, i) && r.0.squares@ == left_of(
                    self.squares@,
                    i,
                ) && r.1.squares@ == right_of(self.squares@, i) && (forall|d: int|
                    sq_allows(self.squares@[i], d) <==> (sq_allows(r.0.squares@[i], d)
                        || sq_allows(r.1.squares@[i], d))),
    {
        let mut best: usize = 81;
        let mut best_count: u32 = 10;
        let mut j: usize = 0;
        while j < 81
            invariant
                0 <= j <= 81,
                best <= 81,
                board_wf(self.squares@),
                best == 81 ==> best_count == 10 && forall|j0: int|
                    0 <= j0 < j ==> (#[trigger] self.squares@[j0]) is Fixed,
                best < 81 ==> best < j && !(self.squares@[best as int] is Fixed) && best_count
                    == sq_count(self.squares@[best as int]) && (forall|j0: int|
                    0 <= j0 < j && !((#[trigger] self.squares@[j0]) is Fixed) ==> sq_count(
                        self.squares@[best as int],
                    ) <= sq_count(self.squares@[j0])) && (forall|j0: int|
                    0 <= j0 < best && !((#[trigger] self.squares@[j0]) is Fixed) ==> sq_count(
                        self.squares@[j0],
                    ) > sq_count(self.squares@[best as int])),
                best_count <= 10,
            decreases 81 - j,
        {
            let sq = self.squares[j];
            if !sq.is_fixed() {
                let c = sq.possibles_count();
                proof {
                    assert(sq_wf(self.squares@[j as int]));
                    crate::possibilities::lemma_count_upto_bounds(
                        self.squares@[j as int]->Possible_0.bits,
                        9,
                    );
                    assert(c <= 9);
                }
                if c < best_count {
                    proof {
                        assert forall|j0: int|
                            0 <= j0 < j as int && !((#[trigger] self.squares@[j0])
                                is Fixed) implies sq_count(self.squares@[j0]) > c as int by {
                            if best == 81 {
                                assert((self.squares@[j0]) is Fixed);
                            } else {
                                assert(sq_count(self.squares@[best as int]) <= sq_count(
                                    self.squares@[j0],
                                ));
                            }
                        }
                    }
                    best = j;
                    best_count = c;
                }
            }
            j = j + 1;
        }
        proof {
            if best == 81 {
                assert(all_fixed(self.squares@));
            }
            assert(best < 81);
            assert(!(self.squares@[best as int] is Fixed));
            assert forall|j0: int|
                0 <= j0 < 81 && !((#[trigger] self.squares@[j0]) is Fixed) implies sq_count(
                self.squares@[best as int],
            ) <= sq_count(self.squares@[j0]) by {}
            assert forall|j0: int|
                0 <= j0 < best as int && !((#[trigger] self.squares@[j0])
                    is Fixed) implies sq_count(self.squares@[j0]) > sq_count(
                self.squares@[best as int],
            ) by {}
            assert(is_branch_idx(self.squares@, best as int));
        }
        let r = self.split_at(best);
        proof {
            assert(is_branch_idx(self.squares@, best as int) && r.0.squares@ == left_of(
                self.squares@,
                best as int,
            ) && r.1.squares@ == right_of(self.squares@, best as int) && (forall|d: int|
                sq_allows(self.squares@[best as int], d) <==> (sq_allows(
                    r.0.squares@[best as int],
                    d,
                ) || sq_allows(r.1.squares@[best as int], d))));
        }
        r
    }

    /// Solve the board: propagate, reject contradiction, accept a complete
    /// board, otherwise branch on the least-ambiguous cell, left child
    /// first. A returned board is wholly fixed, satisfies every Sudoku
    /// constraint, and keeps every digit the input had fixed.
    pub fn solve(&self) -> (r: Option<Board>)
        requires
            board_wf(self.squares@),
        ensures
            r matches Some(s) ==> board_wf(s.squares@) && solves(self.squares@, s.squares@),
            r is None ==> forall|sol: Seq<int>|
                is_solution(sol) ==> !refines(self.squares@, sol),
        decreases weight(self.squares@), 1int,
    {
        proof {
            lemma_weight_upto_nonneg(self.squares@, 81);
        }
        let pruned = match self.prune() {
            None => {
                proof {
                    assert forall|sol: Seq<int>| is_solution(sol) implies !refines(
                        self.squares@,
                        sol,
                    ) by {
                        if refines(self.squares@, sol) {
                            crate::preserve::lemma_prune_preserves_solutions(self.squares@, sol);
                        }
                    }
                }
                return None;
            },
            Some(p) => p,
        };
        proof {
            lemma_prune_m_shrinks(self.squares@);
            lemma_weight_upto_nonneg(pruned.squares@, 81);
            assert forall|j: int|
                0 <= j < 81 implies sq_count(#[trigger] pruned.squares@[j]) <= sq_count(
                #[trigger] self.squares@[j],
            ) by {
                assert(cell_shrink(pruned.squares@[j], self.squares@[j]));
            }
            lemma_weight_upto_le(pruned.squares@, self.squares@, 81);
        }
        if !pruned.is_valid() {
            proof {
                crate::laws::lemma_duplicate_fixed_unsolvable(pruned.squares@);
                assert forall|sol: Seq<int>| is_solution(sol) implies !refines(
                    self.squares@,
                    sol,
                ) by {
                    if refines(self.squares@, sol) {
                        crate::preserve::lemma_prune_preserves_solutions(self.squares@, sol);
                    }
                }
            }
            None
        } else if pruned.is_solved() {
            proof {
                lemma_solved_valid_solution(pruned.squares@);
                lemma_refines_lift(self.squares@, pruned.squares@, digits_of(pruned.squares@));
            }
            Some(pruned)
        } else {
            let r = pruned.solve_rec();
            proof {
                match r {
                    Some(ref s) => {
                        lemma_refines_lift(
                            self.squares@,
                            pruned.squares@,
                            digits_of(s.squares@),
                        );
                    },
                    None => {
                        assert forall|sol: Seq<int>| is_solution(sol) implies !refines(
                            self.squares@,
                            sol,
                        ) by {
                            if refines(self.squares@, sol) {
                                crate::preserve::lemma_prune_preserves_solutions(
                                    self.squares@,
                                    sol,
                                );
                            }
                        }
                    },
                }
            }
            r
        }
    }

    /// Branch on the chosen cell and search both children, left first.
    fn solve_rec(&self) -> (r: Option<Board>)
        requires
            board_wf(self.squares@),
            !all_fixed(self.squares@),
        ensures
            r matches Some(s) ==> board_wf(s.squares@) && solves(self.squares@, s.squares@),
            r is None ==> forall|sol: Seq<int>|
                is_solution(sol) ==> !refines(self.squares@, sol),
        decreases weight(self.squares@), 0int,
    {
        proof {
            lemma_weight_upto_nonneg(self.squares@, 81);
        }
        let (left, right) = self.next_grids();
        proof {
            lemma_weight_upto_nonneg(left.squares@, 81);
            lemma_weight_upto_nonneg(right.squares@, 81);
        }
        let lr = left.solve();
        match lr {
            Some(s) => {
                proof {
                    lemma_refines_lift(self.squares@, left.squares@, digits_of(s.squares@));
                }
                Some(s)
            },
            None => {
                let rr = right.solve();
                proof {
                    match rr {
                        Some(ref s) => {
                            lemma_refines_lift(
                                self.squares@,
                                right.squares@,
                                digits_of(s.squares@),
                            );
                        },
                        None => {
                            let i = choose|i: int|
                                #[trigger] is_branch_idx(self.squares@, i) && left.squares@
                                    == left_of(self.squares@, i) && right.squares@ == right_of(
                                    self.squares@,
                                    i,
                                ) && (forall|d: int|
                                    sq_allows(self.squares@[i], d) <==> (sq_allows(
                                        left.squares@[i],
                                        d,
                                    ) || sq_allows(right.squares@[i], d)));
                            assert forall|sol: Seq<int>| is_solution(sol) implies !refines(
                                self.squares@,
                                sol,
                            ) by {
                                if refines(self.squares@, sol) {
                                    assert(sq_allows(self.squares@[i], sol[i]));
                                    if sq_allows(left.squares@[i], sol[i]) {
                                        assert forall|j: int| 0 <= j < 81 implies sq_allows(
                                            #[trigger] left.squares@[j],
                                            sol[j],
                                        ) by {
                                            if j != i {
                                                assert(left.squares@[j] == self.squares@[j]);
                                            }
                                        }
                                        assert(refines(left.squares@, sol));
                                    } else {
                                        assert(sq_allows(right.squares@[i], sol[i]));
                                        assert forall|j: int| 0 <= j < 81 implies sq_allows(
                                            #[trigger] right.squares@[j],
                                            sol[j],
                                        ) by {
                                            if j != i {
                                                assert(right.squares@[j] == self.squares@[j]);
                                            }
                                        }
                                        assert(refines(right.squares@, sol));
                                    }
                                }
                            }
                        },
                    }
                }
                rr
            },
        }
    }
}

} // verus!
