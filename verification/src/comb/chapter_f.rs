//! The greatest size of a subset whose sumset does not hold the identity.

use crate::comb::search::{has_witness, last_with, Fold, Probe};
use crate::model::group_size;
use crate::setlike::{Group, SetLike};
use vstd::prelude::*;

verus! {

/// `r` is the greatest size, from 1 to the size of the group, at which some
/// subset has a sumset without the identity, or 0 where there is none; with
/// `without_zero`, among the subsets that do not hold the identity themselves.
pub open spec fn is_tau(mods: Seq<nat>, fold: Fold, without_zero: bool, r: nat) -> bool {
    &&& r <= group_size(mods)
    &&& r >= 1 ==> has_witness(mods, r, Probe::ZeroFree(fold), without_zero)
    &&& forall|m: nat|
        r < m <= group_size(mods) ==> !#[trigger] has_witness(
            mods,
            m,
            Probe::ZeroFree(fold),
            without_zero,
        )
}

/// Two numbers that are both that greatest size are the same.
pub proof fn lemma_tau_unique(mods: Seq<nat>, fold: Fold, without_zero: bool, r1: nat, r2: nat)
    requires
        is_tau(mods, fold, without_zero, r1),
        is_tau(mods, fold, without_zero, r2),
    ensures
        r1 == r2,
{
    if r1 < r2 {
        assert(has_witness(mods, r2, Probe::ZeroFree(fold), without_zero));
    }
    if r2 < r1 {
        assert(has_witness(mods, r1, Probe::ZeroFree(fold), without_zero));
    }
}

/// The search behind the family: sizes from the size of the group down to 1,
/// until a subset is found whose sumset does not hold the identity.
fn tau_of<S: SetLike>(n: &S::Group, fold: Fold, without_zero: bool) -> (r: u32)
    requires
        n.wf(),
        S::supports(n),
    ensures
        is_tau(n.moduli(), fold, without_zero, r as nat),
{
    match last_with::<S>(n, 1, n.gsize(), Probe::ZeroFree(fold), without_zero) {
        Some(found) => found.size,
        None => 0,
    }
}

/// What is known of `tau_restricted` without a search: for a cyclic group of
/// even order `n` from 12 on and odd `h` from 3 to `n - 1`.
pub open spec fn tau_restricted_known(order: Option<u32>, h: u32) -> Option<u32> {
    match order {
        Some(n) => if n >= 12 && n % 2 == 0 && 3 <= h && h <= n - 1 && h % 2 == 1 {
            if h <= n / 2 - 2 {
                Some((n / 2) as u32)
            } else if h == n / 2 - 1 {
                Some((n / 2 + 1) as u32)
            } else if h <= n - 2 {
                Some((h + 1) as u32)
            } else {
                Some((n - 1) as u32)
            }
        } else {
            None
        },
        None => None,
    }
}

/// The greatest `m` such that some subset of `m` elements without the identity
/// has a `h`-fold sumset without the identity; 0 where there is none.
pub fn tau<S: SetLike>(n: &S::Group, h: u32) -> (r: u32)
    requires
        n.wf(),
        S::supports(n),
    ensures
        is_tau(n.moduli(), Fold::Plain(h), true, r as nat),
{
    tau_of::<S>(n, Fold::Plain(h), true)
}

/// The greatest `m` such that some subset of `m` elements without the identity
/// has a union of the `h`-fold sumsets for `h` in the closed interval `hs`
/// without the identity; 0 where there is none.
pub fn tau_interval<S: SetLike>(n: &S::Group, hs: (u32, u32)) -> (r: u32)
    requires
        n.wf(),
        S::supports(n),
    ensures
        is_tau(n.moduli(), Fold::PlainInterval(hs.0, hs.1), true, r as nat),
{
    tau_of::<S>(n, Fold::PlainInterval(hs.0, hs.1), true)
}

/// The greatest `m` such that some subset of `m` elements without the identity
/// has a `h`-fold signed sumset without the identity; 0 where there is none.
pub fn tau_signed<S: SetLike>(n: &S::Group, h: u32) -> (r: u32)
    requires
        n.wf(),
        S::supports(n),
    ensures
        is_tau(n.moduli(), Fold::Signed(h), true, r as nat),
{
    tau_of::<S>(n, Fold::Signed(h), true)
}

/// The greatest `m` such that some subset of `m` elements without the identity
/// has a union of the `h`-fold signed sumsets for `h` in the closed interval
/// `hs` without the identity; 0 where there is none.
pub fn tau_signed_interval<S: SetLike>(n: &S::Group, hs: (u32, u32)) -> (r: u32)
    requires
        n.wf(),
        S::supports(n),
    ensures
        is_tau(n.moduli(), Fold::SignedInterval(hs.0, hs.1), true, r as nat),
{
    tau_of::<S>(n, Fold::SignedInterval(hs.0, hs.1), true)
}

/// The greatest `m` such that the `h`-fold restricted sumset of some subset of
/// `m` elements does not hold the identity; 0 where there is none, 1 for the
/// group of one element. Where the representation is a single even modulus `n`
/// from 12 on and `h` is odd, from 3 to `n - 1`, the value is known and no
/// search is made.
pub fn tau_restricted<S: SetLike>(n: &S::Group, h: u32) -> (r: u32)
    requires
        n.wf(),
        S::supports(n),
    ensures
        match tau_restricted_known(n.as_cyclic(), h) {
            Some(v) => r == v,
            None => if group_size(n.moduli()) == 1 {
                r == 1
            } else {
                is_tau(n.moduli(), Fold::Restricted(h), false, r as nat)
            },
        },
{
    // Theorem F.88
    match n.cyclic_order() {
        Some(n) => {
            if n >= 12 && n % 2 == 0 && (3 <= h) && (h <= n - 1) && (h % 2 == 1) {
                if (3 <= h) && (h <= n / 2 - 2) {
                    return n / 2;
                }
                if h == n / 2 - 1 {
                    return n / 2 + 1;
                }
                if (n / 2 <= h) && (h <= n - 2) {
                    return h + 1;
                }
                // h = n - 1
                return n - 1;
            }
        },
        None => {},
    }
    if n.gsize() == 1 {
        return 1;
    }
    tau_of::<S>(n, Fold::Restricted(h), false)
}

/// The greatest `m` such that some subset of `m` elements has a union of the
/// `h`-fold restricted sumsets for `h` in the closed interval `hs` without the
/// identity; 0 where there is none.
pub fn tau_restricted_interval<S: SetLike>(n: &S::Group, hs: (u32, u32)) -> (r: u32)
    requires
        n.wf(),
        S::supports(n),
    ensures
        is_tau(n.moduli(), Fold::RestrictedInterval(hs.0, hs.1), false, r as nat),
{
    tau_of::<S>(n, Fold::RestrictedInterval(hs.0, hs.1), false)
}

/// The greatest `m` such that some subset of `m` elements has a `h`-fold
/// restricted signed sumset without the identity; 0 where there is none.
pub fn tau_signed_restricted<S: SetLike>(n: &S::Group, h: u32) -> (r: u32)
    requires
        n.wf(),
        S::supports(n),
    ensures
        is_tau(n.moduli(), Fold::SignedRestricted(h), false, r as nat),
{
    tau_of::<S>(n, Fold::SignedRestricted(h), false)
}

/// The greatest `m` such that some subset of `m` elements has a union of the
/// `h`-fold restricted signed sumsets for `h` in the closed interval `hs`
/// without the identity; 0 where there is none.
pub fn tau_signed_restricted_interval<S: SetLike>(n: &S::Group, hs: (u32, u32)) -> (r: u32)
    requires
        n.wf(),
        S::supports(n),
    ensures
        is_tau(n.moduli(), Fold::SignedRestrictedInterval(hs.0, hs.1), false, r as nat),
{
    tau_of::<S>(n, Fold::SignedRestrictedInterval(hs.0, hs.1), false)
}

} // verus!
