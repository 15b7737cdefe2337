//! The greatest size of a subset whose sumset is as large as a sumset of a
//! set of that size can be.

use crate::comb::search::{find, Fold, Found, Probe};
use crate::comb::{
    a_spec, c_spec, cap_add, cap_mul, cap_two_pow, capped, checked_a, checked_c, checked_choose,
    choose_spec, two_pow,
};
use crate::model::{group_size, is_subset_with};
use crate::setlike::{Group, SetLike};
use vstd::prelude::*;

verus! {

/// The sum of `choose(m, h)` for `h` below `count`; with `signed`, of
/// `choose(m, h) * 2^h`.
pub open spec fn choose_sum(m: nat, count: nat, signed: bool) -> nat
    decreases count,
{
    if count == 0 {
        0
    } else {
        choose_sum(m, (count - 1) as nat, signed) + choose_spec(m, (count - 1) as nat) * (if signed {
            two_pow((count - 1) as nat)
        } else {
            1
        })
    }
}

/// The number of summands of `choose_sum` for an interval that ends at `s`.
pub open spec fn summands(s: nat, m: nat) -> nat {
    if s <= m {
        s + 1
    } else {
        m + 1
    }
}

/// The size that the sumset of a subset of `m` elements has where no two sums
/// coincide. For an interval, the one from 0 to its end is meant.
pub open spec fn expected_size(fold: Fold, m: nat) -> nat {
    match fold {
        Fold::Plain(h) => choose_spec((m + h - 1) as nat, h as nat),
        Fold::PlainInterval(_, s) => choose_spec(m + s as nat, s as nat),
        Fold::Signed(h) => c_spec(h as nat, m),
        Fold::SignedInterval(_, s) => a_spec(m, s as nat),
        Fold::Restricted(h) => choose_spec(m, h as nat),
        Fold::RestrictedInterval(_, s) => choose_sum(m, summands(s as nat, m), false),
        Fold::SignedRestricted(h) => choose_spec(m, h as nat) * two_pow(h as nat),
        Fold::SignedRestrictedInterval(_, s) => choose_sum(m, summands(s as nat, m), true),
    }
}

/// Some subset of `m` elements has a sumset of `target` members.
pub open spec fn attains(mods: Seq<nat>, m: nat, fold: Fold, target: nat) -> bool {
    exists|a: Set<Seq<nat>>|
        is_subset_with(a, mods, m) && (#[trigger] fold.of(a, mods)).len() == target
}

/// `r` is the greatest size below the size of the group at which some subset
/// has a sumset of the expected size, or 0 where there is none.
pub open spec fn is_sigma(mods: Seq<nat>, fold: Fold, r: nat) -> bool {
    &&& r == 0 || r < group_size(mods)
    &&& r >= 1 ==> attains(mods, r, fold, expected_size(fold, r))
    &&& forall|m: nat|
        r < m < group_size(mods) ==> !#[trigger] attains(mods, m, fold, expected_size(fold, m))
}

/// Two numbers that are both that greatest size are the same.
pub proof fn lemma_sigma_unique(mods: Seq<nat>, fold: Fold, r1: nat, r2: nat)
    requires
        is_sigma(mods, fold, r1),
        is_sigma(mods, fold, r2),
    ensures
        r1 == r2,
{
    if r1 < r2 {
        assert(attains(mods, r2, fold, expected_size(fold, r2)));
    }
    if r2 < r1 {
        assert(attains(mods, r1, fold, expected_size(fold, r1)));
    }
}

/// There are at least `n` ways to pick `k` of `n` things, unless `k` is 0 or
/// `n`.
pub proof fn lemma_choose_at_least(n: nat, k: nat)
    requires
        1 <= k < n,
    ensures
        choose_spec(n, k) >= n,
    decreases k,
{
    let inner = choose_spec((n - 1) as nat, (k - 1) as nat);
    if k >= 2 {
        lemma_choose_at_least((n - 1) as nat, (k - 1) as nat);
    }
    assert(inner >= k) by {
        if k >= 2 {
            assert(inner >= n - 1);
        }
    }
    assert((n * inner) / k >= n) by (nonlinear_arith)
        requires
            inner >= k,
            k >= 1,
            n >= 0,
    ;
}

/// `choose_spec(n, k)`, capped, for an `n` that need not fit a `u32`.
fn wide_choose(n: u64, k: u32) -> (r: Option<u32>)
    ensures
        r == capped(choose_spec(n as nat, k as nat)),
{
    if n > u32::MAX as u64 {
        if k == 0 {
            Some(1)
        } else {
            proof {
                lemma_choose_at_least(n as nat, k as nat);
            }
            None
        }
    } else {
        checked_choose(n as u32, k)
    }
}

/// `choose_sum(m, summands(s, m), signed)`, capped.
fn checked_choose_sum(m: u32, s: u32, signed: bool) -> (r: Option<u32>)
    ensures
        r == capped(choose_sum(m as nat, summands(s as nat, m as nat), signed)),
{
    let last: u32 = if s <= m {
        s
    } else {
        m
    };
    let mut sum: Option<u32> = Some(0);
    let mut h: u32 = 0;
    loop
        invariant_except_break
            sum == capped(choose_sum(m as nat, h as nat, signed)),
        invariant
            h <= last,
            last == if s <= m {
                s
            } else {
                m
            },
        ensures
            sum == capped(choose_sum(m as nat, (last + 1) as nat, signed)),
        decreases last - h,
    {
        let ghost ways = choose_spec(m as nat, h as nat);
        let term = if signed {
            cap_mul(checked_choose(m, h), cap_two_pow(h), Ghost(ways), Ghost(two_pow(h as nat)))
        } else {
            cap_mul(checked_choose(m, h), Some(1), Ghost(ways), Ghost(1nat))
        };
        sum = cap_add(
            sum,
            term,
            Ghost(choose_sum(m as nat, h as nat, signed)),
            Ghost(
                ways * (if signed {
                    two_pow(h as nat)
                } else {
                    1
                }),
            ),
        );
        if h == last {
            break;
        }
        h += 1;
    }
    sum
}

/// The expected size, capped.
fn expected(fold: Fold, m: u32) -> (r: Option<u32>)
    requires
        m >= 1,
    ensures
        r == capped(expected_size(fold, m as nat)),
{
    match fold {
        Fold::Plain(h) => wide_choose((m as u64 - 1) + h as u64, h),
        Fold::PlainInterval(_, s) => wide_choose(m as u64 + s as u64, s),
        Fold::Signed(h) => checked_c(h, m),
        Fold::SignedInterval(_, s) => checked_a(m, s),
        Fold::Restricted(h) => checked_choose(m, h),
        Fold::RestrictedInterval(_, s) => checked_choose_sum(m, s, false),
        Fold::SignedRestricted(h) => cap_mul(
            checked_choose(m, h),
            cap_two_pow(h),
            Ghost(choose_spec(m as nat, h as nat)),
            Ghost(two_pow(h as nat)),
        ),
        Fold::SignedRestrictedInterval(_, s) => checked_choose_sum(m, s, true),
    }
}

/// The search behind the family: sizes from one less than the size of the
/// group down to 1, until a subset is found whose sumset has the expected
/// size; that size and the subset, or `None` where there is none. An expected
/// size that does not fit a `u32` is more than any sumset has.
pub fn sigma_with<S: SetLike>(n: &S::Group, fold: Fold) -> (r: Option<Found<S>>)
    requires
        n.wf(),
        S::supports(n),
    ensures
        r is None ==> is_sigma(n.moduli(), fold, 0),
        r is Some ==> r->0.size >= 1 && is_sigma(n.moduli(), fold, r->0.size as nat),
        r is Some ==> r->0.set.fits(n) && is_subset_with(
            r->0.set.model(),
            n.moduli(),
            r->0.size as nat,
        ) && fold.of(r->0.set.model(), n.moduli()).len() == expected_size(fold, r->0.size as nat),
{
    let ghost mods = n.moduli();
    proof {
        n.lemma_wf();
    }
    let size = n.gsize();
    let mut m: u32 = size - 1;
    while m >= 1
        invariant
            m < size,
            size == group_size(mods),
            mods == n.moduli(),
            n.wf(),
            S::supports(n),
            forall|k: nat|
                m < k < group_size(mods) ==> !#[trigger] attains(
                    mods,
                    k,
                    fold,
                    expected_size(fold, k),
                ),
        decreases m,
    {
        match expected(fold, m) {
            Some(e) => {
                let hit = find::<S>(n, m, Probe::HasSize(fold, e), false);
                proof {
                    let probe = Probe::HasSize(fold, e);
                    if hit is Some {
                        assert(fold.of(hit->0.model(), mods).len() == e);
                    } else {
                        assert forall|a: Set<Seq<nat>>| is_subset_with(a, mods, m as nat) implies (
                        #[trigger] fold.of(a, mods)).len() != e by {
                            assert(!probe.holds(a, mods));
                        }
                    }
                }
                match hit {
                    Some(a) => {
                        return Some(Found { size: m, set: a });
                    },
                    None => {},
                }
            },
            None => {
                proof {
                    n.lemma_wf();
                    assert forall|a: Set<Seq<nat>>| is_subset_with(a, mods, m as nat) implies (
                    #[trigger] fold.of(a, mods)).len() != expected_size(fold, m as nat) by {
                        fold.lemma_of_in_group(a, mods);
                    }
                }
            },
        }
        m -= 1;
    }
    None
}

/// The value of the family: the size that `sigma_with` finds, or 0.
fn sigma_of<S: SetLike>(n: &S::Group, fold: Fold) -> (r: u32)
    requires
        n.wf(),
        S::supports(n),
    ensures
        is_sigma(n.moduli(), fold, r as nat),
{
    match sigma_with::<S>(n, fold) {
        Some(found) => found.size,
        None => 0,
    }
}

/// The greatest `m` below the size of the group such that the `h`-fold sumset
/// of some subset of `m` elements has `choose(m + h - 1, h)` members; 0 where
/// there is none.
pub fn sigma<S: SetLike>(n: &S::Group, h: u32) -> (r: u32)
    requires
        n.wf(),
        S::supports(n),
    ensures
        is_sigma(n.moduli(), Fold::Plain(h), r as nat),
{
    sigma_of::<S>(n, Fold::Plain(h))
}

/// The greatest `m` below the size of the group such that the union of the
/// `h`-fold sumsets for `h` from 0 to `s` of some subset of `m` elements has
/// `choose(m + s, s)` members; 0 where there is none.
pub fn sigma_interval<S: SetLike>(n: &S::Group, s: u32) -> (r: u32)
    requires
        n.wf(),
        S::supports(n),
    ensures
        is_sigma(n.moduli(), Fold::PlainInterval(0, s), r as nat),
{
    sigma_of::<S>(n, Fold::PlainInterval(0, s))
}

/// The greatest `m` below the size of the group such that the `h`-fold signed
/// sumset of some subset of `m` elements has `c(h, m)` members; 0 where there
/// is none.
pub fn sigma_signed<S: SetLike>(n: &S::Group, h: u32) -> (r: u32)
    requires
        n.wf(),
        S::supports(n),
    ensures
        is_sigma(n.moduli(), Fold::Signed(h), r as nat),
{
    sigma_of::<S>(n, Fold::Signed(h))
}

/// The greatest `m` below the size of the group such that the union of the
/// `h`-fold signed sumsets for `h` from 0 to `s` of some subset of `m`
/// elements has `a(m, s)` members; 0 where there is none.
pub fn sigma_signed_interval<S: SetLike>(n: &S::Group, s: u32) -> (r: u32)
    requires
        n.wf(),
        S::supports(n),
    ensures
        is_sigma(n.moduli(), Fold::SignedInterval(0, s), r as nat),
{
    sigma_of::<S>(n, Fold::SignedInterval(0, s))
}

/// The greatest `m` below the size of the group such that the `h`-fold
/// restricted sumset of some subset of `m` elements has `choose(m, h)`
/// members; 0 where there is none.
pub fn sigma_restricted<S: SetLike>(n: &S::Group, h: u32) -> (r: u32)
    requires
        n.wf(),
        S::supports(n),
    ensures
        is_sigma(n.moduli(), Fold::Restricted(h), r as nat),
{
    sigma_of::<S>(n, Fold::Restricted(h))
}

/// The greatest `m` below the size of the group such that the union of the
/// `h`-fold restricted sumsets for `h` from 0 to `s` of some subset of `m`
/// elements has as many members as the sum of `choose(m, h)` for `h` from 0 to
/// the lesser of `s` and `m`; 0 where there is none.
pub fn sigma_restricted_interval<S: SetLike>(n: &S::Group, s: u32) -> (r: u32)
    requires
        n.wf(),
        S::supports(n),
    ensures
        is_sigma(n.moduli(), Fold::RestrictedInterval(0, s), r as nat),
{
    sigma_of::<S>(n, Fold::RestrictedInterval(0, s))
}

/// The greatest `m` below the size of the group such that the `h`-fold
/// restricted signed sumset of some subset of `m` elements has `choose(m, h) *
/// 2^h` members; 0 where there is none.
pub fn sigma_signed_restricted<S: SetLike>(n: &S::Group, h: u32) -> (r: u32)
    requires
        n.wf(),
        S::supports(n),
    ensures
        is_sigma(n.moduli(), Fold::SignedRestricted(h), r as nat),
{
    sigma_of::<S>(n, Fold::SignedRestricted(h))
}

/// The greatest `m` below the size of the group such that the union of the
/// `h`-fold restricted signed sumsets for `h` from 0 to `s` of some subset of
/// `m` elements has as many members as the sum of `choose(m, h) * 2^h` for `h`
/// from 0 to the lesser of `s` and `m`; 0 where there is none.
pub fn sigma_signed_restricted_interval<S: SetLike>(n: &S::Group, s: u32) -> (r: u32)
    requires
        n.wf(),
        S::supports(n),
    ensures
        is_sigma(n.moduli(), Fold::SignedRestrictedInterval(0, s), r as nat),
{
    sigma_of::<S>(n, Fold::SignedRestrictedInterval(0, s))
}

} // verus!
