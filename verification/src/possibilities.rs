use vstd::prelude::*;

verus! {

/// A set of candidate digits drawn from 1..=9, stored as a 9-bit mask:
/// bit `d - 1` is set exactly when digit `d` is still possible.
#[derive(Clone, Copy, PartialEq, Eq, Structural, Debug)]
pub struct Possibilities {
    pub bits: u32,
}

/// A well-formed mask uses only the low 9 bits.
pub open spec fn mask_wf(bits: u32) -> bool {
    bits < 512
}

/// Digit `d` is a member of the mask.
pub open spec fn mask_has(bits: u32, d: int) -> bool {
    1 <= d <= 9 && (bits >> ((d - 1) as u32)) & 1 == 1
}

/// Number of digits in 1..=d that are members of the mask.
pub open spec fn count_upto(bits: u32, d: int) -> int
    decreases d,
{
    if d <= 0 {
        0
    } else {
        count_upto(bits, d - 1) + if mask_has(bits, d) {
            1int
        } else {
            0int
        }
    }
}

/// Number of digits in the mask.
pub open spec fn mask_count(bits: u32) -> int {
    count_upto(bits, 9)
}

/// The mask holding exactly digit `d`.
pub open spec fn mask_single(d: int) -> u32 {
    1u32 << ((d - 1) as u32)
}

proof fn lemma_bit_or(a: u32, b: u32, s: u32)
    requires
        s < 32,
    ensures
        ((a | b) >> s) & 1 == 1 <==> ((a >> s) & 1 == 1 || (b >> s) & 1 == 1),
{
    assert(((a | b) >> s) & 1 == 1 <==> ((a >> s) & 1 == 1 || (b >> s) & 1 == 1)) by (bit_vector)
        requires
            s < 32,
    ;
}

proof fn lemma_bit_and(a: u32, b: u32, s: u32)
    requires
        s < 32,
    ensures
        ((a & b) >> s) & 1 == 1 <==> ((a >> s) & 1 == 1 && (b >> s) & 1 == 1),
{
    assert(((a & b) >> s) & 1 == 1 <==> ((a >> s) & 1 == 1 && (b >> s) & 1 == 1)) by (bit_vector)
        requires
            s < 32,
    ;
}

proof fn lemma_bit_diff(a: u32, b: u32, s: u32)
    requires
        s < 32,
    ensures
        ((a & !b) >> s) & 1 == 1 <==> ((a >> s) & 1 == 1 && !((b >> s) & 1 == 1)),
{
    assert(((a & !b) >> s) & 1 == 1 <==> ((a >> s) & 1 == 1 && !((b >> s) & 1 == 1))) by (bit_vector)
        requires
            s < 32,
    ;
}

proof fn lemma_bit_single(x: u32, s: u32)
    requires
        1 <= x <= 9,
        s < 32,
    ensures
        ((1u32 << (x - 1) as u32) >> s) & 1 == 1 <==> s == x - 1,
{
    assert(((1u32 << (x - 1) as u32) >> s) & 1 == 1 <==> s == x - 1) by (bit_vector)
        requires
            1 <= x <= 9,
            s < 32,
    ;
}

proof fn lemma_zero_bits(s: u32)
    ensures
        (0u32 >> s) & 1 == 0,
{
    assert((0u32 >> s) & 1 == 0) by (bit_vector);
}

/// The zero mask holds no digit.
pub proof fn lemma_zero_has()
    ensures
        forall|d: int| !mask_has(0u32, d),
{
    assert forall|d: int| !mask_has(0u32, d) by {
        if 1 <= d <= 9 {
            lemma_zero_bits((d - 1) as u32);
        }
    }
}

/// Membership characterization of the union of two masks.
pub proof fn lemma_union_has(a: u32, b: u32)
    ensures
        forall|d: int| mask_has(a | b, d) <==> mask_has(a, d) || mask_has(b, d),
{
    assert forall|d: int| mask_has(a | b, d) <==> mask_has(a, d) || mask_has(b, d) by {
        if 1 <= d <= 9 {
            lemma_bit_or(a, b, (d - 1) as u32);
        }
    }
}

/// Membership characterization of the intersection of two masks.
pub proof fn lemma_intersect_has(a: u32, b: u32)
    ensures
        forall|d: int| mask_has(a & b, d) <==> mask_has(a, d) && mask_has(b, d),
{
    assert forall|d: int| mask_has(a & b, d) <==> mask_has(a, d) && mask_has(b, d) by {
        if 1 <= d <= 9 {
            lemma_bit_and(a, b, (d - 1) as u32);
        }
    }
}

/// Membership characterization of the difference of two masks.
pub proof fn lemma_diff_has(a: u32, b: u32)
    ensures
        forall|d: int| mask_has(a & !b, d) <==> mask_has(a, d) && !mask_has(b, d),
{
    assert forall|d: int| mask_has(a & !b, d) <==> mask_has(a, d) && !mask_has(b, d) by {
        if 1 <= d <= 9 {
            lemma_bit_diff(a, b, (d - 1) as u32);
        }
    }
}

/// Membership characterization of a one-digit mask.
pub proof fn lemma_single_has(x: int)
    requires
        1 <= x <= 9,
    ensures
        forall|d: int| mask_has(mask_single(x), d) <==> d == x,
        mask_wf(mask_single(x)),
{
    assert forall|d: int| mask_has(mask_single(x), d) <==> d == x by {
        if 1 <= d <= 9 {
            lemma_bit_single(x as u32, (d - 1) as u32);
        }
    }
    let xu = x as u32;
    assert(1 <= xu <= 9 ==> (1u32 << (xu - 1) as u32) < 512) by (bit_vector);
}

/// Well-formedness is preserved by the mask operations.
pub proof fn lemma_ops_wf(a: u32, b: u32)
    requires
        mask_wf(a),
    ensures
        mask_wf(a & b),
        mask_wf(a & !b),
        mask_wf(b) ==> mask_wf(a | b),
{
    assert(a < 512 ==> (a & b) < 512 && (a & !b) < 512) by (bit_vector);
    assert(a < 512 && b < 512 ==> (a | b) < 512) by (bit_vector);
}

/// A well-formed, non-zero mask holds some digit.
pub proof fn lemma_nonzero_has(a: u32)
    requires
        mask_wf(a),
        a != 0,
    ensures
        exists|d: int| mask_has(a, d),
{
    assert(a < 512 && a != 0 ==> ((a >> 0u32) & 1 == 1 || (a >> 1u32) & 1 == 1 || (a >> 2u32) & 1
        == 1 || (a >> 3u32) & 1 == 1 || (a >> 4u32) & 1 == 1 || (a >> 5u32) & 1 == 1 || (a
        >> 6u32) & 1 == 1 || (a >> 7u32) & 1 == 1 || (a >> 8u32) & 1 == 1)) by (bit_vector);
    if (a >> 0u32) & 1 == 1 {
        assert(mask_has(a, 1));
    } else if (a >> 1u32) & 1 == 1 {
        assert(mask_has(a, 2));
    } else if (a >> 2u32) & 1 == 1 {
        assert(mask_has(a, 3));
    } else if (a >> 3u32) & 1 == 1 {
        assert(mask_has(a, 4));
    } else if (a >> 4u32) & 1 == 1 {
        assert(mask_has(a, 5));
    } else if (a >> 5u32) & 1 == 1 {
        assert(mask_has(a, 6));
    } else if (a >> 6u32) & 1 == 1 {
        assert(mask_has(a, 7));
    } else if (a >> 7u32) & 1 == 1 {
        assert(mask_has(a, 8));
    } else {
        assert(mask_has(a, 9));
    }
}

/// Two well-formed masks with the same members are equal.
pub proof fn lemma_mask_ext(a: u32, b: u32)
    requires
        mask_wf(a),
        mask_wf(b),
        forall|d: int| mask_has(a, d) <==> mask_has(b, d),
    ensures
        a == b,
{
    if a != b {
        let c = a ^ b;
        assert(a < 512 && b < 512 && a != b ==> (a ^ b) < 512 && (a ^ b) != 0) by (bit_vector);
        lemma_nonzero_has(c);
        let d = choose|d: int| mask_has(c, d);
        let s = (d - 1) as u32;
        assert(((a ^ b) >> s) & 1 == 1 ==> ((a >> s) & 1 == 1) != ((b >> s) & 1 == 1))
            by (bit_vector);
        assert(mask_has(a, d) != mask_has(b, d));
    }
}

/// `count_upto` is bounded by the digit range considered.
pub proof fn lemma_count_upto_bounds(bits: u32, d: int)
    ensures
        0 <= count_upto(bits, d),
        d >= 0 ==> count_upto(bits, d) <= d,
    decreases d,
{
    if d > 0 {
        lemma_count_upto_bounds(bits, d - 1);
    }
}

/// `count_upto` grows with the digit range considered.
pub proof fn lemma_count_upto_mono(bits: u32, a: int, b: int)
    requires
        a <= b,
    ensures
        count_upto(bits, a) <= count_upto(bits, b),
    decreases b - a,
{
    if a < b {
        lemma_count_upto_mono(bits, a, b - 1);
    }
}

/// A mask that holds digit `d` counts at least one digit.
pub proof fn lemma_count_ge_one(bits: u32, d: int)
    requires
        mask_has(bits, d),
    ensures
        mask_count(bits) >= 1,
{
    lemma_count_upto_bounds(bits, d - 1);
    lemma_count_upto_mono(bits, d, 9);
}

/// A sub-mask counts no more digits than its super-mask.
pub proof fn lemma_count_subset(p: u32, q: u32, d: int)
    requires
        forall|e: int| mask_has(q, e) ==> mask_has(p, e),
    ensures
        count_upto(q, d) <= count_upto(p, d),
    decreases d,
{
    if d > 0 {
        lemma_count_subset(p, q, d - 1);
    }
}

/// A strict sub-mask counts strictly fewer digits.
pub proof fn lemma_count_strict_subset(p: u32, q: u32, w: int)
    requires
        forall|e: int| mask_has(q, e) ==> mask_has(p, e),
        mask_has(p, w),
        !mask_has(q, w),
    ensures
        mask_count(q) < mask_count(p),
{
    lemma_count_subset(p, q, w - 1);
    lemma_count_strict_upto(p, q, w, 9);
}

proof fn lemma_count_strict_upto(p: u32, q: u32, w: int, d: int)
    requires
        forall|e: int| mask_has(q, e) ==> mask_has(p, e),
        mask_has(p, w),
        !mask_has(q, w),
        w <= d,
    ensures
        count_upto(q, d) < count_upto(p, d),
    decreases d - w,
{
    if d == w {
        lemma_count_subset(p, q, w - 1);
    } else {
        lemma_count_strict_upto(p, q, w, d - 1);
    }
}

/// A well-formed mask counts zero digits exactly when it is zero.
pub proof fn lemma_count_zero_iff(p: u32)
    requires
        mask_wf(p),
    ensures
        mask_count(p) == 0 <==> p == 0,
{
    if p == 0 {
        assert forall|d: int| !mask_has(0u32, d) by {
            if 1 <= d <= 9 {
                lemma_zero_bits((d - 1) as u32);
            }
        }
        lemma_count_upto_none(0u32, 9);
    } else {
        lemma_nonzero_has(p);
        let d = choose|d: int| mask_has(p, d);
        lemma_count_ge_one(p, d);
    }
}

proof fn lemma_count_upto_none(bits: u32, d: int)
    requires
        forall|e: int| !mask_has(bits, e),
    ensures
        count_upto(bits, d) == 0,
    decreases d,
{
    if d > 0 {
        lemma_count_upto_none(bits, d - 1);
    }
}

/// In a one-digit mask, all members coincide.
pub proof fn lemma_count_one_unique(p: u32, d1: int, d2: int)
    requires
        mask_count(p) == 1,
        mask_has(p, d1),
        mask_has(p, d2),
    ensures
        d1 == d2,
{
    if d1 != d2 {
        let lo = if d1 < d2 {
            d1
        } else {
            d2
        };
        let hi = if d1 < d2 {
            d2
        } else {
            d1
        };
        lemma_count_upto_bounds(p, lo - 1);
        assert(count_upto(p, lo) >= 1);
        lemma_count_upto_mono(p, lo, hi - 1);
        assert(count_upto(p, hi) >= 2);
        lemma_count_upto_mono(p, hi, 9);
    }
}

proof fn lemma_count_upto_unique(p: u32, x: int, d: int)
    requires
        forall|e: int| mask_has(p, e) <==> e == x,
        1 <= x <= 9,
    ensures
        count_upto(p, d) == if d >= x {
            1int
        } else {
            0int
        },
    decreases d,
{
    if d > 0 {
        lemma_count_upto_unique(p, x, d - 1);
    }
}

/// A well-formed mask with exactly one member is that one-digit mask.
pub proof fn lemma_count_one_single(p: u32, d: int)
    requires
        mask_wf(p),
        mask_count(p) == 1,
        mask_has(p, d),
    ensures
        p == mask_single(d),
{
    lemma_single_has(d);
    assert forall|e: int| mask_has(p, e) <==> mask_has(mask_single(d), e) by {
        if mask_has(p, e) {
            lemma_count_one_unique(p, e, d);
        }
    }
    lemma_mask_ext(p, mask_single(d));
}

/// Subset characterization of the bitwise containment test.
pub proof fn lemma_subset_char(a: u32, b: u32)
    requires
        mask_wf(a),
        mask_wf(b),
    ensures
        (a & b == b) <==> (forall|d: int| mask_has(b, d) ==> mask_has(a, d)),
{
    if a & b == b {
        assert forall|d: int| mask_has(b, d) implies mask_has(a, d) by {
            let s = (d - 1) as u32;
            assert(a & b == b && (b >> s) & 1 == 1 ==> (a >> s) & 1 == 1) by (bit_vector);
        }
    }
    if a & b != b {
        let c = (a & b) ^ b;
        assert(a & b != b ==> ((a & b) ^ b) != 0) by (bit_vector);
        assert(b < 512 ==> ((a & b) ^ b) < 512) by (bit_vector);
        lemma_nonzero_has(c);
        let d = choose|d: int| mask_has(c, d);
        let s = (d - 1) as u32;
        assert((((a & b) ^ b) >> s) & 1 == 1 ==> ((b >> s) & 1 == 1 && !((a >> s) & 1 == 1)))
            by (bit_vector);
        assert(mask_has(b, d) && !mask_has(a, d));
    }
}

impl Possibilities {
    /// The set of digits this mask represents, as a membership predicate.
    #[verifier::inline]
    pub open spec fn has(self, d: int) -> bool {
        mask_has(self.bits, d)
    }

    /// The number of digits in the set.
    #[verifier::inline]
    pub open spec fn count(self) -> int {
        mask_count(self.bits)
    }

    /// Only the low 9 bits may be used.
    #[verifier::inline]
    pub open spec fn wf(self) -> bool {
        mask_wf(self.bits)
    }

    /// The empty set: no digit is possible.
    pub fn empty() -> (r: Self)
        ensures
            r.bits == 0,
            r.wf(),
            forall|d: int| !r.has(d),
    {
        let r = Possibilities { bits: 0 };
        proof {
            assert forall|d: int| !r.has(d) by {
                if 1 <= d <= 9 {
                    lemma_zero_bits((d - 1) as u32);
                }
            }
        }
        r
    }

    /// The full set: all nine digits are possible.
    pub fn all() -> (r: Self)
        ensures
            r.bits == 511,
            r.wf(),
            forall|d: int| 1 <= d <= 9 ==> r.has(d),
    {
        let r = Possibilities { bits: 511 };
        proof {
            assert forall|d: int| 1 <= d <= 9 implies r.has(d) by {
                let s = (d - 1) as u32;
                assert(s < 9 ==> (511u32 >> s) & 1 == 1) by (bit_vector);
            }
        }
        r
    }

    /// The set holding exactly the digit `x`.
    pub fn new_from_u32(x: u32) -> (r: Self)
        requires
            1 <= x <= 9,
        ensures
            r.bits == mask_single(x as int),
            r.wf(),
            forall|d: int| r.has(d) <==> d == x as int,
    {
        proof {
            lemma_single_has(x as int);
        }
        Possibilities { bits: 1u32 << (x - 1) }
    }

    /// The nine one-digit sets, in digit order.
    pub fn each() -> (r: [Possibilities; 9])
        ensures
            forall|i: int| 0 <= i < 9 ==> r[i].bits == mask_single(i + 1),
    {
        [
            Self::new_from_u32(1),
            Self::new_from_u32(2),
            Self::new_from_u32(3),
            Self::new_from_u32(4),
            Self::new_from_u32(5),
            Self::new_from_u32(6),
            Self::new_from_u32(7),
            Self::new_from_u32(8),
            Self::new_from_u32(9),
        ]
    }

    /// Whether digit `d` is in the set.
    pub fn has_digit(self, d: u32) -> (r: bool)
        requires
            1 <= d <= 9,
        ensures
            r == self.has(d as int),
    {
        (self.bits >> (d - 1)) & 1 == 1
    }

    /// Union of two sets.
    pub fn union(self, other: Self) -> (r: Self)
        ensures
            r.bits == self.bits | other.bits,
            forall|d: int| r.has(d) <==> self.has(d) || other.has(d),
            self.wf() && other.wf() ==> r.wf(),
    {
        proof {
            lemma_union_has(self.bits, other.bits);
            if self.wf() {
                lemma_ops_wf(self.bits, other.bits);
            }
        }
        Possibilities { bits: self.bits | other.bits }
    }

    /// The digits of `self` that are not in `other`.
    pub fn difference(self, other: Self) -> (r: Self)
        ensures
            r.bits == self.bits & !other.bits,
            forall|d: int| r.has(d) <==> self.has(d) && !other.has(d),
            self.wf() ==> r.wf(),
    {
        proof {
            lemma_diff_has(self.bits, other.bits);
            if self.wf() {
                lemma_ops_wf(self.bits, other.bits);
            }
        }
        Possibilities { bits: self.bits & !other.bits }
    }

    /// The digits shared by both sets.
    pub fn intersect(self, other: Self) -> (r: Self)
        ensures
            r.bits == self.bits & other.bits,
            forall|d: int| r.has(d) <==> self.has(d) && other.has(d),
            self.wf() ==> r.wf(),
    {
        proof {
            lemma_intersect_has(self.bits, other.bits);
            if self.wf() {
                lemma_ops_wf(self.bits, other.bits);
            }
        }
        Possibilities { bits: self.bits & other.bits }
    }

    /// Whether the two sets share a digit (or any bit at all).
    pub fn intersects(self, other: Self) -> (r: bool)
        ensures
            r == (self.bits & other.bits != 0),
    {
        self.bits & other.bits != 0
    }

    /// Whether every digit of `other` is also in `self`.
    pub fn contains(self, other: Self) -> (r: bool)
        ensures
            r == (self.bits & other.bits == other.bits),
            self.wf() && other.wf() ==> (r <==> (forall|d: int|
                other.has(d) ==> self.has(d))),
    {
        proof {
            if self.wf() && other.wf() {
                lemma_subset_char(self.bits, other.bits);
            }
        }
        self.bits & other.bits == other.bits
    }

    /// Whether the set is empty.
    pub fn is_empty(self) -> (r: bool)
        ensures
            r == (self.bits == 0),
            self.wf() ==> (r <==> (forall|d: int| !self.has(d))),
    {
        proof {
            if self.wf() {
                if self.bits == 0 {
                    assert forall|d: int| !self.has(d) by {
                        if 1 <= d <= 9 {
                            lemma_zero_bits((d - 1) as u32);
                        }
                    }
                } else {
                    lemma_nonzero_has(self.bits);
                }
            }
        }
        self.bits == 0
    }

    /// How many digits are in the set.
    pub fn pop_count(self) -> (r: u32)
        ensures
            r == self.count(),
            0 <= r <= 9,
    {
        let mut c: u32 = 0;
        let mut d: u32 = 1;
        while d <= 9
            invariant
                1 <= d <= 10,
                c == count_upto(self.bits, d as int - 1),
                c <= d - 1,
            decreases 10 - d,
        {
            proof {
                lemma_count_upto_bounds(self.bits, d as int);
            }
            if (self.bits >> (d - 1)) & 1 == 1 {
                c = c + 1;
            }
            d = d + 1;
        }
        c
    }

    /// The one digit of a one-digit set.
    pub fn single_selection(self) -> (r: u32)
        requires
            self.wf(),
            self.count() == 1,
        ensures
            1 <= r <= 9,
            self.has(r as int),
            self.bits == mask_single(r as int),
            forall|d: int| self.has(d) ==> d == r as int,
    {
        let r = self.least_set();
        proof {
            lemma_count_zero_iff(self.bits);
            assert forall|d: int| self.has(d) implies d == r as int by {
                lemma_count_one_unique(self.bits, d, r as int);
            }
            lemma_count_one_single(self.bits, r as int);
        }
        r
    }

    /// The lowest digit in the set, or 0 when the set is empty.
    pub fn least_set(self) -> (r: u32)
        requires
            self.wf(),
        ensures
            self.bits == 0 ==> r == 0,
            self.bits != 0 ==> 1 <= r <= 9 && self.has(r as int) && (forall|d: int|
                self.has(d) ==> r as int <= d),
    {
        let mut d: u32 = 1;
        while d <= 9
            invariant
                1 <= d <= 10,
                self.wf(),
                forall|e: int| 1 <= e < d as int ==> !self.has(e),
            decreases 10 - d,
        {
            if (self.bits >> (d - 1)) & 1 == 1 {
                proof {
                    if self.bits == 0 {
                        lemma_zero_bits((d - 1) as u32);
                    }
                }
                return d;
            }
            d = d + 1;
        }
        proof {
            if self.bits != 0 {
                lemma_nonzero_has(self.bits);
            }
        }
        0
    }

    /// Renders `val` when the set meets `candidate`, a blank otherwise.
    pub fn show_possibles(self, candidate: Possibilities, val: &'static str) -> (r: &'static str)
        ensures
            self.bits & candidate.bits != 0 ==> r@ == val@,
            self.bits & candidate.bits == 0 ==> r@ == " "@,
    {
        if self.intersects(candidate) {
            val
        } else {
            " "
        }
    }
}

/// First index of `key` in the association list, or -1 when absent.
pub open spec fn find_key(s: Seq<(Possibilities, Possibilities)>, key: Possibilities) -> int
    decreases s.len(),
{
    if s.len() == 0 {
        -1
    } else if s[0].0 == key {
        0
    } else {
        let t = find_key(s.drop_first(), key);
        if t == -1 {
            -1
        } else {
            t + 1
        }
    }
}

pub proof fn lemma_find_key(s: Seq<(Possibilities, Possibilities)>, key: Possibilities)
    ensures
        find_key(s, key) == -1 ==> forall|j: int| 0 <= j < s.len() ==> s[j].0 != key,
        find_key(s, key) != -1 ==> 0 <= find_key(s, key) < s.len() && s[find_key(s, key)].0 == key
            && (forall|j: int| 0 <= j < find_key(s, key) ==> s[j].0 != key),
    decreases s.len(),
{
    if s.len() > 0 && s[0].0 != key {
        lemma_find_key(s.drop_first(), key);
        assert forall|j: int| 1 <= j < s.len() implies s.drop_first()[j - 1] == s[j] by {}
    }
}

/// An insertion-ordered association list from candidate sets to candidate
/// sets; adding to a present key unions the values.
#[derive(Debug)]
pub struct PossibilityMap {
    pub entries: Vec<(Possibilities, Possibilities)>,
}

impl PossibilityMap {
    /// An empty map.
    pub fn new() -> (r: Self)
        ensures
            r.entries@ =~= Seq::<(Possibilities, Possibilities)>::empty(),
    {
        PossibilityMap { entries: Vec::new() }
    }

    /// Union `val` into the entry at `key`, appending a new entry when the
    /// key is not yet present.
    pub fn add_possible(&mut self, key: Possibilities, val: Possibilities)
        ensures
            find_key(old(self).entries@, key) == -1 ==> final(self).entries@ =~= old(
                self,
            ).entries@.push((key, val)),
            find_key(old(self).entries@, key) != -1 ==> final(self).entries@ =~= old(
                self,
            ).entries@.update(
                find_key(old(self).entries@, key),
                (key, Possibilities { bits: old(self).entries@[find_key(old(self).entries@, key)].1.bits | val.bits }),
            ),
    {
        let n = self.entries.len();
        let mut i: usize = 0;
        while i < n
            invariant
                self.entries@ == old(self).entries@,
                n == old(self).entries@.len(),
                0 <= i <= n,
                forall|j: int| 0 <= j < i ==> old(self).entries@[j].0 != key,
            decreases n - i,
        {
            let (k, v) = self.entries[i];
            if k == key {
                proof {
                    lemma_find_key(old(self).entries@, key);
                }
                let joined = v.union(val);
                self.entries.set(i, (key, joined));
                return ;
            }
            i = i + 1;
        }
        proof {
            lemma_find_key(old(self).entries@, key);
        }
        self.entries.push((key, val));
    }
}

} // verus!
