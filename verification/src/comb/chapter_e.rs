//! The least size at which every subset has a sumset that is the whole group.

use crate::comb::search::{first_without, has_witness, lemma_no_witness_beyond, Fold, Probe};
use crate::model::group_size;
use crate::setlike::{Group, SetLike};
use vstd::prelude::*;

verus! {

/// `r` is the least size, from 1 on, at which no subset has a sumset that
/// falls short of the whole group.
pub open spec fn is_chi(mods: Seq<nat>, fold: Fold, r: nat) -> bool {
    &&& r >= 1
    &&& !has_witness(mods, r, Probe::FallsShort(fold), false)
    &&& forall|m: nat| 1 <= m < r ==> #[trigger] has_witness(mods, m, Probe::FallsShort(fold), false)
}

/// Two numbers that are both that least size are the same.
pub proof fn lemma_chi_unique(mods: Seq<nat>, fold: Fold, r1: nat, r2: nat)
    requires
        is_chi(mods, fold, r1),
        is_chi(mods, fold, r2),
    ensures
        r1 == r2,
{
    if r1 < r2 {
        assert(has_witness(mods, r1, Probe::FallsShort(fold), false));
    }
    if r2 < r1 {
        assert(has_witness(mods, r2, Probe::FallsShort(fold), false));
    }
}

/// The search behind the family: sizes from 1 up, until one has no subset
/// whose sumset falls short of the whole group. One beyond the size of the
/// group there is no subset at all.
fn chi_of<S: SetLike>(n: &S::Group, fold: Fold) -> (r: u32)
    requires
        n.wf(),
        S::supports(n),
        group_size(n.moduli()) < u32::MAX,
    ensures
        is_chi(n.moduli(), fold, r as nat),
{
    let top: u32 = n.gsize() + 1;
    proof {
        lemma_no_witness_beyond(n.moduli(), top as nat, Probe::FallsShort(fold), false);
    }
    match first_without::<S>(n, 1, top, Probe::FallsShort(fold), false) {
        Some(m) => m,
        None => top,
    }
}

/// The least `m`, from 1 on, such that the `h`-fold sumset of every subset of
/// `m` elements is the whole group.
pub fn chi<S: SetLike>(n: &S::Group, h: u32) -> (r: u32)
    requires
        n.wf(),
        S::supports(n),
        group_size(n.moduli()) < u32::MAX,
    ensures
        is_chi(n.moduli(), Fold::Plain(h), r as nat),
{
    chi_of::<S>(n, Fold::Plain(h))
}

/// The least `m`, from 1 on, such that the union of the `h`-fold sumsets for
/// `h` in the closed interval `hs` of every subset of `m` elements is the
/// whole group.
pub fn chi_interval<S: SetLike>(n: &S::Group, hs: (u32, u32)) -> (r: u32)
    requires
        n.wf(),
        S::supports(n),
        group_size(n.moduli()) < u32::MAX,
    ensures
        is_chi(n.moduli(), Fold::PlainInterval(hs.0, hs.1), r as nat),
{
    chi_of::<S>(n, Fold::PlainInterval(hs.0, hs.1))
}

/// The least `m`, from 1 on, such that the `h`-fold signed sumset of every
/// subset of `m` elements is the whole group.
pub fn chi_signed<S: SetLike>(n: &S::Group, h: u32) -> (r: u32)
    requires
        n.wf(),
        S::supports(n),
        group_size(n.moduli()) < u32::MAX,
    ensures
        is_chi(n.moduli(), Fold::Signed(h), r as nat),
{
    chi_of::<S>(n, Fold::Signed(h))
}

/// The least `m`, from 1 on, such that the union of the `h`-fold signed
/// sumsets for `h` in the closed interval `hs` of every subset of `m` elements
/// is the whole group.
pub fn chi_signed_interval<S: SetLike>(n: &S::Group, hs: (u32, u32)) -> (r: u32)
    requires
        n.wf(),
        S::supports(n),
        group_size(n.moduli()) < u32::MAX,
    ensures
        is_chi(n.moduli(), Fold::SignedInterval(hs.0, hs.1), r as nat),
{
    chi_of::<S>(n, Fold::SignedInterval(hs.0, hs.1))
}

/// The least `m`, from 1 on, such that the `h`-fold restricted sumset of every
/// subset of `m` elements is the whole group.
pub fn chi_restricted<S: SetLike>(n: &S::Group, h: u32) -> (r: u32)
    requires
        n.wf(),
        S::supports(n),
        group_size(n.moduli()) < u32::MAX,
    ensures
        is_chi(n.moduli(), Fold::Restricted(h), r as nat),
{
    chi_of::<S>(n, Fold::Restricted(h))
}

/// The least `m`, from 1 on, such that the union of the `h`-fold restricted
/// sumsets for `h` in the closed interval `hs` of every subset of `m` elements
/// is the whole group.
pub fn chi_restricted_interval<S: SetLike>(n: &S::Group, hs: (u32, u32)) -> (r: u32)
    requires
        n.wf(),
        S::supports(n),
        group_size(n.moduli()) < u32::MAX,
    ensures
        is_chi(n.moduli(), Fold::RestrictedInterval(hs.0, hs.1), r as nat),
{
    chi_of::<S>(n, Fold::RestrictedInterval(hs.0, hs.1))
}

/// The least `m`, from 1 on, such that the `h`-fold restricted signed sumset
/// of every subset of `m` elements is the whole group.
pub fn chi_signed_restricted<S: SetLike>(n: &S::Group, h: u32) -> (r: u32)
    requires
        n.wf(),
        S::supports(n),
        group_size(n.moduli()) < u32::MAX,
    ensures
        is_chi(n.moduli(), Fold::SignedRestricted(h), r as nat),
{
    chi_of::<S>(n, Fold::SignedRestricted(h))
}

/// The least `m`, from 1 on, such that the union of the `h`-fold restricted
/// signed sumsets for `h` in the closed interval `hs` of every subset of `m`
/// elements is the whole group.
pub fn chi_signed_restricted_interval<S: SetLike>(n: &S::Group, hs: (u32, u32)) -> (r: u32)
    requires
        n.wf(),
        S::supports(n),
        group_size(n.moduli()) < u32::MAX,
    ensures
        is_chi(n.moduli(), Fold::SignedRestrictedInterval(hs.0, hs.1), r as nat),
{
    chi_of::<S>(n, Fold::SignedRestrictedInterval(hs.0, hs.1))
}

} // verus!
