//! Machine words read as sets of small naturals.
//!
//! A word `x` stands for the set of positions of its one-bits. Everything the
//! packed subset engine does with a word is phrased over that set, so the
//! engine itself never reasons about bits.

use vstd::prelude::*;
use vstd::std_specs::bits::{
    axiom_u64_leading_zeros, axiom_u64_trailing_zeros, u64_leading_zeros, u64_trailing_zeros,
};

verus! {

/// The naturals below `k`.
pub open spec fn below(k: nat) -> Set<nat> {
    Set::new(|i: nat| i < k)
}

/// Every member of `s` moved up by `k`, within a word of `w` bits.
pub open spec fn set_shl(s: Set<nat>, k: nat, w: nat) -> Set<nat> {
    Set::new(|i: nat| k <= i && i < w && s.contains((i - k) as nat))
}

/// Every member of `s` that is at least `k`, moved down by `k`.
pub open spec fn set_shr(s: Set<nat>, k: nat) -> Set<nat> {
    Set::new(|i: nat| s.contains(i + k))
}

/// `m` is the least member of `s`.
pub open spec fn is_least(s: Set<nat>, m: nat) -> bool {
    s.contains(m) && forall|i: nat| s.contains(i) ==> m <= i
}

/// `m` is the greatest member of `s`.
pub open spec fn is_greatest(s: Set<nat>, m: nat) -> bool {
    s.contains(m) && forall|i: nat| s.contains(i) ==> i <= m
}

/// The number of members of `s` below `n`.
pub open spec fn count_below(s: Set<nat>, n: nat) -> nat
    decreases n,
{
    if n == 0 {
        0
    } else {
        count_below(s, (n - 1) as nat) + if s.contains((n - 1) as nat) {
            1nat
        } else {
            0nat
        }
    }
}

/// A set of naturals below `n` is finite, and `count_below` is its size.
pub proof fn lemma_count_below(s: Set<nat>, n: nat)
    requires
        forall|i: nat| s.contains(i) ==> i < n,
    ensures
        s.finite(),
        s.len() == count_below(s, n),
        s.len() <= n,
    decreases n,
{
    if n == 0 {
        assert(s =~= Set::empty());
    } else {
        let p = (n - 1) as nat;
        let t = s.remove(p);
        lemma_count_below(t, p);
        lemma_count_below_agree(s, t, p);
        if s.contains(p) {
            assert(s =~= t.insert(p));
        } else {
            assert(s =~= t);
        }
    }
}

/// `count_below` looks only at the members below its bound.
pub proof fn lemma_count_below_agree(s: Set<nat>, t: Set<nat>, n: nat)
    requires
        forall|i: nat| i < n ==> s.contains(i) == t.contains(i),
    ensures
        count_below(s, n) == count_below(t, n),
    decreases n,
{
    if n > 0 {
        lemma_count_below_agree(s, t, (n - 1) as nat);
    }
}


/// A fixed-width unsigned word used as the contents of a packed subset.
///
/// Position `i` belongs to `elems()` exactly when bit `i` of the word is one.
pub trait BitSetContents: Copy + Sized {
    /// The number of bits of the word.
    spec fn width() -> nat;

    /// The positions of the one-bits.
    spec fn elems(self) -> Set<nat>;

    /// A word has at least two bits, and their number fits a `u32`.
    proof fn lemma_width()
        ensures
            2 <= Self::width() <= u32::MAX,
    ;

    /// Every position is below the width.
    proof fn lemma_elems_below(self)
        ensures
            forall|i: nat| self.elems().contains(i) ==> i < Self::width(),
            self.elems().finite(),
            self.elems().len() <= Self::width(),
    ;

    /// Two words with the same one-bits are the same word.
    proof fn lemma_elems_injective(self, other: Self)
        requires
            self.elems() == other.elems(),
        ensures
            self == other,
    ;

    fn one() -> (r: Self)
        ensures
            r.elems() == below(1),
    ;

    fn zero() -> (r: Self)
        ensures
            r.elems() == Set::<nat>::empty(),
    ;

    fn max() -> (r: Self)
        ensures
            r.elems() == below(Self::width()),
    ;

    fn bit_size() -> (r: u32)
        ensures
            r == Self::width(),
            r >= 1,
    ;

    fn num_ones(&self) -> (r: u32)
        ensures
            r == self.elems().len(),
    ;

    /// The number of zero bits below the lowest one-bit: the least member, or
    /// the width for the empty set.
    fn bit_scan_low(&self) -> (r: u32)
        ensures
            self.elems().is_empty() ==> r == Self::width(),
            !self.elems().is_empty() ==> is_least(self.elems(), r as nat),
    ;

    /// The number of zero bits above the highest one-bit: the width less one
    /// less the greatest member, or the width for the empty set.
    fn bit_scan_high(&self) -> (r: u32)
        ensures
            self.elems().is_empty() ==> r == Self::width(),
            !self.elems().is_empty() ==> r < Self::width() && is_greatest(
                self.elems(),
                (Self::width() - 1 - r) as nat,
            ),
    ;

    fn shl(self, k: u32) -> (r: Self)
        requires
            k < Self::width(),
        ensures
            r.elems() == set_shl(self.elems(), k as nat, Self::width()),
    ;

    fn shr(self, k: u32) -> (r: Self)
        requires
            k < Self::width(),
        ensures
            r.elems() == set_shr(self.elems(), k as nat),
    ;

    fn and(self, other: Self) -> (r: Self)
        ensures
            r.elems() == self.elems().intersect(other.elems()),
    ;

    fn or(self, other: Self) -> (r: Self)
        ensures
            r.elems() == self.elems().union(other.elems()),
    ;

    fn not(self) -> (r: Self)
        ensures
            r.elems() == below(Self::width()).difference(self.elems()),
    ;

    /// The word whose one-bits are the `k` lowest positions.
    fn low_mask(k: u32) -> (r: Self)
        requires
            k <= Self::width(),
        ensures
            r.elems() == below(k as nat),
    ;

    /// The word without its lowest one-bit.
    fn clear_lowest(self) -> (r: Self)
        ensures
            self.elems().is_empty() ==> r.elems() == self.elems(),
            forall|m: nat| is_least(self.elems(), m) ==> r.elems() == self.elems().remove(m),
    ;

    fn same(self, other: Self) -> (r: bool)
        ensures
            r == (self.elems() == other.elems()),
    ;
}

/// Bit `i` of `x`.
pub open spec fn bit64(x: u64, i: u64) -> bool {
    (x >> i) & 1 == 1
}

/// The positions of the one-bits of `x`.
pub open spec fn elems64(x: u64) -> Set<nat> {
    Set::new(|i: nat| i < 64 && bit64(x, i as u64))
}

/// The number of one-bits of `x`, one binary digit at a time.
pub open spec fn u64_count_ones(x: u64) -> nat
    decreases x,
{
    if x == 0 {
        0
    } else {
        (x % 2) as nat + u64_count_ones(x / 2)
    }
}

/// `u64::count_ones` returns the number of ones in the binary representation
/// of its argument.
pub assume_specification[ u64::count_ones ](i: u64) -> (r: u32)
    ensures
        r == u64_count_ones(i),
;

proof fn lemma_bit64_shift(x: u64, k: u64, i: u64)
    by (bit_vector)
    requires
        k < 64,
        i < 64,
    ensures
        bit64(x << k, i) == (k <= i && bit64(x, (i - k) as u64)),
        bit64(x >> k, i) == (i + k < 64 && bit64(x, (i + k) as u64)),
{
}

proof fn lemma_bit64_logic(x: u64, y: u64, i: u64)
    by (bit_vector)
    requires
        i < 64,
    ensures
        bit64(x & y, i) == (bit64(x, i) && bit64(y, i)),
        bit64(x | y, i) == (bit64(x, i) || bit64(y, i)),
        bit64(!x, i) == !bit64(x, i),
        bit64(x ^ y, i) == (bit64(x, i) != bit64(y, i)),
        bit64(0, i) == false,
        bit64(1, i) == (i == 0),
        bit64(0xffff_ffff_ffff_ffff, i) == true,
        (x >> i) & 1 == 0 || (x >> i) & 1 == 1,
        x ^ y == 0 ==> x == y,
{
}

proof fn lemma_bit64_mask(k: u64, i: u64)
    by (bit_vector)
    requires
        k < 64,
        i < 64,
    ensures
        1u64 << k >= 1,
        bit64(((1u64 << k) - 1) as u64, i) == (i < k),
{
}

proof fn lemma_bit64_clear(x: u64, t: u64, i: u64)
    by (bit_vector)
    requires
        t < 64,
        i < 64,
        bit64(x, t),
        x << ((64 - t) as u64) == 0 || t == 0,
    ensures
        x >= 1,
        bit64(x & ((x - 1) as u64), i) == (bit64(x, i) && i != t),
{
}

proof fn lemma_bit64_halve(x: u64, i: u64)
    by (bit_vector)
    requires
        i < 64,
    ensures
        bit64(x, 0) == (x % 2 == 1),
        bit64(x / 2, i) == (i + 1 < 64 && bit64(x, (i + 1) as u64)),
{
}

/// The members of `s`, each one step up.
pub open spec fn set_up(s: Set<nat>) -> Set<nat> {
    Set::new(|i: nat| i >= 1 && s.contains((i - 1) as nat))
}

/// Moving a bounded set one step up keeps its count.
pub proof fn lemma_count_up(s: Set<nat>, n: nat)
    ensures
        count_below(set_up(s), n + 1) == count_below(s, n),
    decreases n,
{
    if n > 0 {
        lemma_count_up(s, (n - 1) as nat);
    } else {
        assert(count_below(set_up(s), 1) == count_below(set_up(s), 0) + 0);
    }
}

proof fn lemma_count_ones64(x: u64)
    ensures
        u64_count_ones(x) == elems64(x).len(),
        elems64(x).finite(),
        elems64(x).len() <= 64,
    decreases x,
{
    let s = elems64(x);
    lemma_count_below(s, 64);
    if x == 0 {
        assert forall|i: nat| !s.contains(i) by {
            if i < 64 {
                lemma_bit64_logic(x, x, i as u64);
            }
        }
        assert(s =~= Set::empty());
    } else {
        let h = elems64(x / 2);
        lemma_count_ones64(x / 2);
        lemma_count_below(h, 64);
        assert forall|i: nat| h.contains(i) implies i < 63 by {
            lemma_bit64_halve(x, i as u64);
        }
        lemma_count_below(h, 63);
        lemma_count_up(h, 63);
        let up = set_up(h);
        lemma_bit64_halve(x, 0);
        assert forall|i: nat| 1 <= i < 64 implies s.contains(i) == up.contains(i) by {
            lemma_bit64_halve(x, (i - 1) as u64);
        }
        // count the members of s from 1 up, then member 0
        lemma_count_from_one(s, up, 64);
        assert(count_below(up, 1) == count_below(up, 0) + 0);
        assert(count_below(s, 1) == count_below(s, 0) + (if s.contains(0) { 1nat } else { 0nat }));
    }
}

/// Two sets that agree from 1 up differ in count by what they hold at 0.
proof fn lemma_count_from_one(s: Set<nat>, t: Set<nat>, n: nat)
    requires
        n >= 1,
        forall|i: nat| 1 <= i < n ==> s.contains(i) == t.contains(i),
    ensures
        count_below(s, n) - count_below(s, 1) == count_below(t, n) - count_below(t, 1),
    decreases n,
{
    if n > 1 {
        lemma_count_from_one(s, t, (n - 1) as nat);
    }
}


proof fn lemma_zero64(x: u64)
    ensures
        (x == 0) == elems64(x).is_empty(),
{
    if x == 0 {
        assert forall|i: nat| !elems64(x).contains(i) by {
            if i < 64 {
                lemma_bit64_logic(x, x, i as u64);
            }
        }
    } else {
        axiom_u64_trailing_zeros(x);
        let t = u64_trailing_zeros(x);
        lemma_bit64_logic(x, x, t as u64);
        assert(elems64(x).contains(t as nat));
    }
}

proof fn lemma_ext64(x: u64, y: u64)
    requires
        elems64(x) == elems64(y),
    ensures
        x == y,
{
    let d = x ^ y;
    if d != 0 {
        lemma_low64(d);
        let i = u64_trailing_zeros(d) as nat;
        assert(elems64(d).contains(i));
        lemma_bit64_logic(x, y, i as u64);
        assert(bit64(x, i as u64) != bit64(y, i as u64));
        assert(elems64(x).contains(i) == bit64(x, i as u64));
        assert(elems64(y).contains(i) == bit64(y, i as u64));
    }
    lemma_bit64_logic(x, y, 0);
}

proof fn lemma_low64(x: u64)
    requires
        x != 0,
    ensures
        u64_trailing_zeros(x) < 64,
        is_least(elems64(x), u64_trailing_zeros(x) as nat),
        x << ((64 - u64_trailing_zeros(x)) as u64) == 0 || u64_trailing_zeros(x) == 0,
{
    axiom_u64_trailing_zeros(x);
    let t = u64_trailing_zeros(x);
    lemma_bit64_logic(x, x, t as u64);
    assert forall|i: nat| elems64(x).contains(i) implies t <= i by {
        if i < t {
            let j = i as u64;
            assert((x >> j) & 1u64 == 0u64);
        }
    }
}

proof fn lemma_high64(x: u64)
    requires
        x != 0,
    ensures
        0 <= u64_leading_zeros(x) < 64,
        is_greatest(elems64(x), (63 - u64_leading_zeros(x)) as nat),
{
    axiom_u64_leading_zeros(x);
    let z = u64_leading_zeros(x);
    let t = (63 - z) as u64;
    lemma_bit64_logic(x, x, t);
    assert forall|i: nat| elems64(x).contains(i) implies i <= t by {
        if i > t {
            let j = i as u64;
            assert((x >> j) & 1u64 == 0u64);
        }
    }
}

impl BitSetContents for u64 {
    open spec fn width() -> nat {
        64
    }

    open spec fn elems(self) -> Set<nat> {
        elems64(self)
    }

    proof fn lemma_width() {
    }

    proof fn lemma_elems_below(self) {
        lemma_count_ones64(self);
    }

    proof fn lemma_elems_injective(self, other: Self) {
        lemma_ext64(self, other);
    }

    #[inline(always)]
    fn one() -> (r: u64) {
        proof {
            assert forall|i: nat| elems64(1).contains(i) == below(1).contains(i) by {
                if i < 64 {
                    lemma_bit64_logic(1, 1, i as u64);
                }
            }
            assert(elems64(1) =~= below(1));
        }
        1
    }

    #[inline(always)]
    fn zero() -> (r: u64) {
        proof {
            lemma_zero64(0);
            assert(elems64(0) =~= Set::<nat>::empty());
        }
        0
    }

    #[inline(always)]
    fn max() -> (r: u64) {
        proof {
            assert forall|i: nat| elems64(u64::MAX).contains(i) == below(64).contains(i) by {
                if i < 64 {
                    lemma_bit64_logic(0, 0, i as u64);
                }
            }
            assert(elems64(u64::MAX) =~= below(64));
        }
        u64::MAX
    }

    #[inline(always)]
    fn bit_size() -> (r: u32) {
        64u32
    }

    #[inline(always)]
    fn num_ones(&self) -> (r: u32) {
        proof {
            lemma_count_ones64(*self);
        }
        self.count_ones()
    }

    #[inline(always)]
    fn bit_scan_low(&self) -> (r: u32) {
        proof {
            lemma_zero64(*self);
            axiom_u64_trailing_zeros(*self);
            if *self != 0 {
                lemma_low64(*self);
            }
        }
        self.trailing_zeros()
    }

    #[inline(always)]
    fn bit_scan_high(&self) -> (r: u32) {
        proof {
            lemma_zero64(*self);
            axiom_u64_leading_zeros(*self);
            if *self != 0 {
                lemma_high64(*self);
            }
        }
        self.leading_zeros()
    }

    #[inline(always)]
    fn shl(self, k: u32) -> (r: u64) {
        let r = self << k;
        proof {
            let want = set_shl(elems64(self), k as nat, 64);
            assert forall|i: nat| elems64(r).contains(i) == want.contains(i) by {
                if i < 64 {
                    lemma_bit64_shift(self, k as u64, i as u64);
                }
            }
            assert(elems64(r) =~= want);
        }
        r
    }

    #[inline(always)]
    fn shr(self, k: u32) -> (r: u64) {
        let r = self >> k;
        proof {
            let want = set_shr(elems64(self), k as nat);
            assert forall|i: nat| elems64(r).contains(i) == want.contains(i) by {
                if i < 64 {
                    lemma_bit64_shift(self, k as u64, i as u64);
                }
            }
            assert(elems64(r) =~= want);
        }
        r
    }

    #[inline(always)]
    fn and(self, other: u64) -> (r: u64) {
        let r = self & other;
        proof {
            let want = elems64(self).intersect(elems64(other));
            assert forall|i: nat| elems64(r).contains(i) == want.contains(i) by {
                if i < 64 {
                    lemma_bit64_logic(self, other, i as u64);
                }
            }
            assert(elems64(r) =~= want);
        }
        r
    }

    #[inline(always)]
    fn or(self, other: u64) -> (r: u64) {
        let r = self | other;
        proof {
            let want = elems64(self).union(elems64(other));
            assert forall|i: nat| elems64(r).contains(i) == want.contains(i) by {
                if i < 64 {
                    lemma_bit64_logic(self, other, i as u64);
                }
            }
            assert(elems64(r) =~= want);
        }
        r
    }

    #[inline(always)]
    fn not(self) -> (r: u64) {
        let r = !self;
        proof {
            let want = below(64).difference(elems64(self));
            assert forall|i: nat| elems64(r).contains(i) == want.contains(i) by {
                if i < 64 {
                    lemma_bit64_logic(self, self, i as u64);
                }
            }
            assert(elems64(r) =~= want);
        }
        r
    }

    #[inline(always)]
    fn low_mask(k: u32) -> (r: u64) {
        if k >= 64 {
            proof {
                assert forall|i: nat| elems64(u64::MAX).contains(i) == below(64).contains(i) by {
                    if i < 64 {
                        lemma_bit64_logic(0, 0, i as u64);
                    }
                }
                assert(elems64(u64::MAX) =~= below(64));
            }
            u64::MAX
        } else {
            proof {
                lemma_bit64_mask(k as u64, 0);
            }
            let r = (1u64 << k) - 1;
            proof {
                assert forall|i: nat| elems64(r).contains(i) == below(k as nat).contains(i) by {
                    if i < 64 {
                        lemma_bit64_mask(k as u64, i as u64);
                    }
                }
                assert(elems64(r) =~= below(k as nat));
            }
            r
        }
    }

    #[inline(always)]
    fn clear_lowest(self) -> (r: u64) {
        if self == 0 {
            proof {
                lemma_zero64(self);
            }
            self
        } else {
            proof {
                lemma_low64(self);
                lemma_bit64_clear(self, u64_trailing_zeros(self) as u64, 0);
            }
            let r = self & (self - 1);
            proof {
                let t = u64_trailing_zeros(self) as nat;
                assert forall|i: nat| elems64(r).contains(i) == elems64(self).remove(t).contains(
                    i,
                ) by {
                    if i < 64 {
                        lemma_bit64_clear(self, t as u64, i as u64);
                    }
                }
                assert(elems64(r) =~= elems64(self).remove(t));
            }
            r
        }
    }

    #[inline(always)]
    fn same(self, other: u64) -> (r: bool) {
        proof {
            if elems64(self) == elems64(other) {
                lemma_ext64(self, other);
            }
        }
        self == other
    }
}


/// Bit `i` of `x`.
pub open spec fn bit128(x: u128, i: u128) -> bool {
    (x >> i) & 1 == 1
}

/// The positions of the one-bits of `x`.
pub open spec fn elems128(x: u128) -> Set<nat> {
    Set::new(|i: nat| i < 128 && bit128(x, i as u128))
}

/// The low 64 bits of `x`.
pub open spec fn low_half(x: u128) -> u64 {
    (x & 0xffff_ffff_ffff_ffff) as u64
}

/// The high 64 bits of `x`.
pub open spec fn high_half(x: u128) -> u64 {
    (x >> 64) as u64
}

/// The number of one-bits of `x`: those of its two halves.
pub open spec fn u128_count_ones(x: u128) -> nat {
    u64_count_ones(low_half(x)) + u64_count_ones(high_half(x))
}

/// The number of zero bits below the lowest one-bit of `x`; 128 for zero.
pub open spec fn u128_trailing_zeros(x: u128) -> nat {
    if low_half(x) != 0 {
        u64_trailing_zeros(low_half(x)) as nat
    } else {
        64 + u64_trailing_zeros(high_half(x)) as nat
    }
}

/// The number of zero bits above the highest one-bit of `x`; 128 for zero.
pub open spec fn u128_leading_zeros(x: u128) -> nat {
    if high_half(x) != 0 {
        u64_leading_zeros(high_half(x)) as nat
    } else {
        (64 + u64_leading_zeros(low_half(x))) as nat
    }
}

/// `u128::count_ones` returns the number of ones in the binary representation
/// of its argument.
pub assume_specification[ u128::count_ones ](i: u128) -> (r: u32)
    ensures
        r == u128_count_ones(i),
;

/// `u128::trailing_zeros` returns the number of trailing zeros in the binary
/// representation of its argument.
pub assume_specification[ u128::trailing_zeros ](i: u128) -> (r: u32)
    ensures
        r == u128_trailing_zeros(i),
;

/// `u128::leading_zeros` returns the number of leading zeros in the binary
/// representation of its argument.
pub assume_specification[ u128::leading_zeros ](i: u128) -> (r: u32)
    ensures
        r == u128_leading_zeros(i),
;

proof fn lemma_bit128_shift(x: u128, k: u128, i: u128)
    by (bit_vector)
    requires
        k < 128,
        i < 128,
    ensures
        bit128(x << k, i) == (k <= i && bit128(x, (i - k) as u128)),
        bit128(x >> k, i) == (i + k < 128 && bit128(x, (i + k) as u128)),
{
}

proof fn lemma_bit128_logic(x: u128, y: u128, i: u128)
    by (bit_vector)
    requires
        i < 128,
    ensures
        bit128(x & y, i) == (bit128(x, i) && bit128(y, i)),
        bit128(x | y, i) == (bit128(x, i) || bit128(y, i)),
        bit128(!x, i) == !bit128(x, i),
        bit128(0, i) == false,
        bit128(1, i) == (i == 0),
        bit128(0xffff_ffff_ffff_ffff_ffff_ffff_ffff_ffff, i) == true,
{
}

proof fn lemma_bit128_mask(k: u128, i: u128)
    by (bit_vector)
    requires
        k < 128,
        i < 128,
    ensures
        1u128 << k >= 1,
        bit128(((1u128 << k) - 1) as u128, i) == (i < k),
{
}

proof fn lemma_bit128_clear(x: u128, t: u128, i: u128)
    by (bit_vector)
    requires
        t < 128,
        i < 128,
        bit128(x, t),
        t < 64 ==> low_half(x) << ((64 - t) as u64) == 0 || t == 0,
        t >= 64 ==> low_half(x) == 0 && (high_half(x) << ((128 - t) as u64) == 0 || t == 64),
    ensures
        x >= 1,
        bit128(x & ((x - 1) as u128), i) == (bit128(x, i) && i != t),
{
}

proof fn lemma_bit128_halves(x: u128, i: u64)
    by (bit_vector)
    requires
        i < 64,
    ensures
        x & 0xffff_ffff_ffff_ffff <= 0xffff_ffff_ffff_ffff,
        x >> 64 <= 0xffff_ffff_ffff_ffff,
        bit64(low_half(x), i) == bit128(x, i as u128),
        bit64(high_half(x), i) == bit128(x, (i + 64) as u128),
        (low_half(x) == 0 && high_half(x) == 0) == (x == 0),
{
}

/// The one-bits of a 128-bit word are those of its low half and, 64 higher,
/// those of its high half.
proof fn lemma_elems128_halves(x: u128)
    ensures
        forall|i: nat| i < 64 ==> elems128(x).contains(i) == elems64(low_half(x)).contains(i),
        forall|i: nat|
            64 <= i ==> elems128(x).contains(i) == elems64(high_half(x)).contains((i - 64) as nat),
{
    assert forall|i: nat| i < 64 implies elems128(x).contains(i) == elems64(low_half(x)).contains(
        i,
    ) by {
        lemma_bit128_halves(x, i as u64);
    }
    assert forall|i: nat| 64 <= i implies elems128(x).contains(i) == elems64(
        high_half(x),
    ).contains((i - 64) as nat) by {
        if i < 128 {
            lemma_bit128_halves(x, (i - 64) as u64);
        }
    }
}

/// Counting below `a + b` is counting below `a`, then `b` further on.
pub proof fn lemma_count_split(s: Set<nat>, a: nat, b: nat)
    ensures
        count_below(s, a + b) == count_below(s, a) + count_below(set_shr(s, a), b),
    decreases b,
{
    if b > 0 {
        lemma_count_split(s, a, (b - 1) as nat);
        assert(set_shr(s, a).contains((b - 1) as nat) == s.contains((a + b - 1) as nat));
    }
}

proof fn lemma_count_ones128(x: u128)
    ensures
        u128_count_ones(x) == elems128(x).len(),
        elems128(x).finite(),
        elems128(x).len() <= 128,
{
    let s = elems128(x);
    lemma_count_below(s, 128);
    lemma_count_split(s, 64, 64);
    lemma_elems128_halves(x);
    let lo = elems64(low_half(x));
    let hi = elems64(high_half(x));
    lemma_count_ones64(low_half(x));
    lemma_count_ones64(high_half(x));
    lemma_count_below(lo, 64);
    lemma_count_below(hi, 64);
    lemma_count_below_agree(s, lo, 64);
    assert forall|i: nat| i < 64 implies set_shr(s, 64).contains(i) == hi.contains(i) by {
        assert(s.contains(i + 64) == hi.contains(((i + 64) - 64) as nat));
    }
    lemma_count_below_agree(set_shr(s, 64), hi, 64);
}

proof fn lemma_zero128(x: u128)
    ensures
        (x == 0) == elems128(x).is_empty(),
        x == 0 ==> elems128(x) == Set::<nat>::empty(),
{
    lemma_elems128_halves(x);
    lemma_bit128_halves(x, 0);
    lemma_zero64(low_half(x));
    lemma_zero64(high_half(x));
    if x == 0 {
        assert forall|i: nat| !elems128(x).contains(i) by {
            if i < 64 {
                assert(!elems64(low_half(x)).contains(i));
            } else {
                assert(!elems64(high_half(x)).contains((i - 64) as nat));
            }
        }
        assert(elems128(x) =~= Set::<nat>::empty());
    } else if low_half(x) != 0 {
        lemma_low64(low_half(x));
        let t = u64_trailing_zeros(low_half(x)) as nat;
        assert(elems128(x).contains(t));
    } else {
        lemma_low64(high_half(x));
        let t = u64_trailing_zeros(high_half(x)) as nat;
        assert(elems64(high_half(x)).contains(((t + 64) - 64) as nat));
        assert(elems128(x).contains(t + 64));
    }
}

proof fn lemma_low128(x: u128)
    requires
        x != 0,
    ensures
        u128_trailing_zeros(x) < 128,
        is_least(elems128(x), u128_trailing_zeros(x)),
        ({
            let t = u128_trailing_zeros(x);
            &&& t < 64 ==> low_half(x) << ((64 - t) as u64) == 0 || t == 0
            &&& t >= 64 ==> low_half(x) == 0 && (high_half(x) << ((128 - t) as u64) == 0 || t
                == 64)
        }),
{
    lemma_elems128_halves(x);
    lemma_bit128_halves(x, 0);
    let s = elems128(x);
    if low_half(x) != 0 {
        lemma_low64(low_half(x));
        let t = u64_trailing_zeros(low_half(x)) as nat;
        assert(s.contains(t));
        assert forall|i: nat| s.contains(i) implies t <= i by {
            if i < 64 {
                assert(elems64(low_half(x)).contains(i));
            }
        }
    } else {
        lemma_zero64(low_half(x));
        lemma_low64(high_half(x));
        let t = u64_trailing_zeros(high_half(x)) as nat;
        assert(elems64(high_half(x)).contains(((t + 64) - 64) as nat));
        assert(s.contains(t + 64));
        assert forall|i: nat| s.contains(i) implies t + 64 <= i by {
            if i < 64 {
                assert(elems64(low_half(x)).contains(i));
            } else {
                assert(elems64(high_half(x)).contains((i - 64) as nat));
            }
        }
    }
}

proof fn lemma_high128(x: u128)
    requires
        x != 0,
    ensures
        u128_leading_zeros(x) < 128,
        is_greatest(elems128(x), (127 - u128_leading_zeros(x)) as nat),
{
    lemma_elems128_halves(x);
    lemma_bit128_halves(x, 0);
    let s = elems128(x);
    if high_half(x) != 0 {
        lemma_high64(high_half(x));
        let t = (63 - u64_leading_zeros(high_half(x))) as nat;
        assert(elems64(high_half(x)).contains(((t + 64) - 64) as nat));
        assert(s.contains(t + 64));
        assert forall|i: nat| s.contains(i) implies i <= t + 64 by {
            if i >= 64 {
                assert(elems64(high_half(x)).contains((i - 64) as nat));
            }
        }
    } else {
        lemma_zero64(high_half(x));
        lemma_high64(low_half(x));
        let t = (63 - u64_leading_zeros(low_half(x))) as nat;
        assert(s.contains(t));
        assert forall|i: nat| s.contains(i) implies i <= t by {
            if i < 64 {
                assert(elems64(low_half(x)).contains(i));
            } else {
                assert(elems64(high_half(x)).contains((i - 64) as nat));
            }
        }
    }
}

proof fn lemma_ext128(x: u128, y: u128)
    requires
        elems128(x) == elems128(y),
    ensures
        x == y,
{
    lemma_elems128_halves(x);
    lemma_elems128_halves(y);
    assert forall|i: nat| elems64(low_half(x)).contains(i) == elems64(low_half(y)).contains(
        i,
    ) by {
        if i < 64 {
            assert(elems128(x).contains(i) == elems64(low_half(x)).contains(i));
            assert(elems128(y).contains(i) == elems64(low_half(y)).contains(i));
        }
    }
    assert(elems64(low_half(x)) =~= elems64(low_half(y)));
    assert forall|i: nat| elems64(high_half(x)).contains(i) == elems64(high_half(y)).contains(
        i,
    ) by {
        assert(elems128(x).contains(i + 64) == elems64(high_half(x)).contains(
            ((i + 64) - 64) as nat,
        ));
        assert(elems128(y).contains(i + 64) == elems64(high_half(y)).contains(
            ((i + 64) - 64) as nat,
        ));
    }
    assert(elems64(high_half(x)) =~= elems64(high_half(y)));
    lemma_ext64(low_half(x), low_half(y));
    lemma_ext64(high_half(x), high_half(y));
    lemma_halves_join(x, y);
}

proof fn lemma_halves_join(x: u128, y: u128)
    by (bit_vector)
    requires
        low_half(x) == low_half(y),
        high_half(x) == high_half(y),
    ensures
        x == y,
{
}


impl BitSetContents for u128 {
    open spec fn width() -> nat {
        128
    }

    open spec fn elems(self) -> Set<nat> {
        elems128(self)
    }

    proof fn lemma_width() {
    }

    proof fn lemma_elems_below(self) {
        lemma_count_ones128(self);
    }

    proof fn lemma_elems_injective(self, other: Self) {
        lemma_ext128(self, other);
    }

    #[inline(always)]
    fn one() -> (r: u128) {
        proof {
            assert forall|i: nat| elems128(1).contains(i) == below(1).contains(i) by {
                if i < 128 {
                    lemma_bit128_logic(1, 1, i as u128);
                }
            }
            assert(elems128(1) =~= below(1));
        }
        1
    }

    #[inline(always)]
    fn zero() -> (r: u128) {
        proof {
            lemma_zero128(0);
        }
        0
    }

    #[inline(always)]
    fn max() -> (r: u128) {
        proof {
            assert forall|i: nat| elems128(u128::MAX).contains(i) == below(128).contains(i) by {
                if i < 128 {
                    lemma_bit128_logic(0, 0, i as u128);
                }
            }
            assert(elems128(u128::MAX) =~= below(128));
        }
        u128::MAX
    }

    #[inline(always)]
    fn bit_size() -> (r: u32) {
        128u32
    }

    #[inline(always)]
    fn num_ones(&self) -> (r: u32) {
        proof {
            lemma_count_ones128(*self);
        }
        self.count_ones()
    }

    #[inline(always)]
    fn bit_scan_low(&self) -> (r: u32) {
        proof {
            lemma_zero128(*self);
            lemma_bit128_halves(*self, 0);
            if *self != 0 {
                lemma_low128(*self);
            } else {
                axiom_u64_trailing_zeros(0);
            }
        }
        self.trailing_zeros()
    }

    #[inline(always)]
    fn bit_scan_high(&self) -> (r: u32) {
        proof {
            lemma_zero128(*self);
            lemma_bit128_halves(*self, 0);
            if *self != 0 {
                lemma_high128(*self);
            } else {
                axiom_u64_leading_zeros(0);
            }
        }
        self.leading_zeros()
    }

    #[inline(always)]
    fn shl(self, k: u32) -> (r: u128) {
        let r = self << k;
        proof {
            let want = set_shl(elems128(self), k as nat, 128);
            assert forall|i: nat| elems128(r).contains(i) == want.contains(i) by {
                if i < 128 {
                    lemma_bit128_shift(self, k as u128, i as u128);
                }
            }
            assert(elems128(r) =~= want);
        }
        r
    }

    #[inline(always)]
    fn shr(self, k: u32) -> (r: u128) {
        let r = self >> k;
        proof {
            let want = set_shr(elems128(self), k as nat);
            assert forall|i: nat| elems128(r).contains(i) == want.contains(i) by {
                if i < 128 {
                    lemma_bit128_shift(self, k as u128, i as u128);
                }
            }
            assert(elems128(r) =~= want);
        }
        r
    }

    #[inline(always)]
    fn and(self, other: u128) -> (r: u128) {
        let r = self & other;
        proof {
            let want = elems128(self).intersect(elems128(other));
            assert forall|i: nat| elems128(r).contains(i) == want.contains(i) by {
                if i < 128 {
                    lemma_bit128_logic(self, other, i as u128);
                }
            }
            assert(elems128(r) =~= want);
        }
        r
    }

    #[inline(always)]
    fn or(self, other: u128) -> (r: u128) {
        let r = self | other;
        proof {
            let want = elems128(self).union(elems128(other));
            assert forall|i: nat| elems128(r).contains(i) == want.contains(i) by {
                if i < 128 {
                    lemma_bit128_logic(self, other, i as u128);
                }
            }
            assert(elems128(r) =~= want);
        }
        r
    }

    #[inline(always)]
    fn not(self) -> (r: u128) {
        let r = !self;
        proof {
            let want = below(128).difference(elems128(self));
            assert forall|i: nat| elems128(r).contains(i) == want.contains(i) by {
                if i < 128 {
                    lemma_bit128_logic(self, self, i as u128);
                }
            }
            assert(elems128(r) =~= want);
        }
        r
    }

    #[inline(always)]
    fn low_mask(k: u32) -> (r: u128) {
        if k >= 128 {
            proof {
                assert forall|i: nat| elems128(u128::MAX).contains(i) == below(128).contains(
                    i,
                ) by {
                    if i < 128 {
                        lemma_bit128_logic(0, 0, i as u128);
                    }
                }
                assert(elems128(u128::MAX) =~= below(128));
            }
            u128::MAX
        } else {
            proof {
                lemma_bit128_mask(k as u128, 0);
            }
            let r = (1u128 << k) - 1;
            proof {
                assert forall|i: nat| elems128(r).contains(i) == below(k as nat).contains(i) by {
                    if i < 128 {
                        lemma_bit128_mask(k as u128, i as u128);
                    }
                }
                assert(elems128(r) =~= below(k as nat));
            }
            r
        }
    }

    #[inline(always)]
    fn clear_lowest(self) -> (r: u128) {
        if self == 0 {
            proof {
                lemma_zero128(self);
            }
            self
        } else {
            proof {
                lemma_low128(self);
                lemma_bit128_clear(self, u128_trailing_zeros(self) as u128, 0);
            }
            let r = self & (self - 1);
            proof {
                let t = u128_trailing_zeros(self);
                assert forall|i: nat| elems128(r).contains(i) == elems128(self).remove(
                    t,
                ).contains(i) by {
                    if i < 128 {
                        lemma_bit128_clear(self, t as u128, i as u128);
                    }
                }
                assert(elems128(r) =~= elems128(self).remove(t));
            }
            r
        }
    }

    #[inline(always)]
    fn same(self, other: u128) -> (r: bool) {
        proof {
            if elems128(self) == elems128(other) {
                lemma_ext128(self, other);
            }
        }
        self == other
    }
}

} // verus!
