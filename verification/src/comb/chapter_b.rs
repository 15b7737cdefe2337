//! The least size of a subset whose sumset is the whole group.

use crate::comb::search::{first_with, has_witness, lemma_no_witness_beyond, Fold, Probe};
use crate::model::group_size;
use crate::setlike::{Group, SetLike};
use vstd::prelude::*;

verus! {

/// Some subset of `m` elements has a sumset that is the whole group.
pub open spec fn spans_at(mods: Seq<nat>, m: nat, fold: Fold) -> bool {
    has_witness(mods, m, Probe::Spans(fold), false)
}

/// `r` is the least size, from `from` on, at which some subset has a sumset
/// that is the whole group; `None` where there is no such size.
pub open spec fn is_least_spanning(mods: Seq<nat>, fold: Fold, from: nat, r: Option<u32>) -> bool {
    match r {
        Some(m) => from <= m && spans_at(mods, m as nat, fold) && forall|k: nat|
            from <= k < m ==> !#[trigger] spans_at(mods, k, fold),
        None => forall|k: nat| from <= k ==> !#[trigger] spans_at(mods, k, fold),
    }
}

/// Two answers that are both that least size are the same.
pub proof fn lemma_least_spanning_unique(
    mods: Seq<nat>,
    fold: Fold,
    from: nat,
    r1: Option<u32>,
    r2: Option<u32>,
)
    requires
        is_least_spanning(mods, fold, from, r1),
        is_least_spanning(mods, fold, from, r2),
    ensures
        r1 == r2,
{
    match (r1, r2) {
        (Some(a), Some(b)) => {
            if a < b {
                assert(spans_at(mods, a as nat, fold));
            }
            if b < a {
                assert(spans_at(mods, b as nat, fold));
            }
        },
        (Some(a), None) => {
            assert(spans_at(mods, a as nat, fold));
        },
        (None, Some(b)) => {
            assert(spans_at(mods, b as nat, fold));
        },
        (None, None) => {},
    }
}

/// The search behind the family: sizes from `from` up to the size of the
/// group, until a subset is found whose sumset is the whole group.
fn least_spanning<S: SetLike>(n: &S::Group, fold: Fold, from: u32) -> (r: Option<u32>)
    requires
        n.wf(),
        S::supports(n),
    ensures
        is_least_spanning(n.moduli(), fold, from as nat, r),
        r is Some ==> r->0 <= group_size(n.moduli()),
{
    match first_with::<S>(n, from, n.gsize(), Probe::Spans(fold), false) {
        Some(found) => Some(found.size),
        None => {
            proof {
                assert forall|k: nat| from <= k implies !#[trigger] spans_at(
                    n.moduli(),
                    k,
                    fold,
                ) by {
                    if k > group_size(n.moduli()) {
                        lemma_no_witness_beyond(n.moduli(), k, Probe::Spans(fold), false);
                    }
                }
            }
            None
        },
    }
}

/// The least `m`, from 1 on, such that the union of the `h`-fold sumsets for
/// `h` in the closed interval `hs` of some subset of `m` elements is the whole
/// group; `None` where there is no such `m`.
fn _phi_interval<S: SetLike>(n: &S::Group, hs: (u32, u32)) -> (r: Option<u32>)
    requires
        n.wf(),
        S::supports(n),
    ensures
        is_least_spanning(n.moduli(), Fold::PlainInterval(hs.0, hs.1), 1, r),
        r is Some ==> r->0 <= group_size(n.moduli()),
{
    least_spanning::<S>(n, Fold::PlainInterval(hs.0, hs.1), 1)
}

/// One more than `phi_interval` for the interval from 0 to `h`; 1 for the
/// group of one element, else the size of the group for `h = 1`.
pub fn phi<S: SetLike>(n: &S::Group, h: u32) -> (r: Option<u32>)
    requires
        n.wf(),
        S::supports(n),
        group_size(n.moduli()) < u32::MAX,
    ensures
        group_size(n.moduli()) == 1 ==> r == Some(1u32),
        group_size(n.moduli()) != 1 && h == 1 ==> r == Some(group_size(n.moduli()) as u32),
        group_size(n.moduli()) != 1 && h != 1 ==> match r {
            Some(v) => v >= 2 && is_least_spanning(
                n.moduli(),
                Fold::PlainInterval(0, h),
                1,
                Some((v - 1) as u32),
            ),
            None => is_least_spanning(n.moduli(), Fold::PlainInterval(0, h), 1, None),
        },
{
    if n.gsize() == 1 {
        return Some(1);
    }
    if h == 1 {
        return Some(n.gsize());
    }
    match _phi_interval::<S>(n, (0, h)) {
        Some(res) => Some(res + 1),
        None => None,
    }
}

/// The least `m`, from 1 on, such that the union of the `h`-fold sumsets for
/// `h` in the closed interval `hs` of some subset of `m` elements is the whole
/// group; `None` where there is no such `m`.
pub fn phi_interval<S: SetLike>(n: &S::Group, hs: (u32, u32)) -> (r: Option<u32>)
    requires
        n.wf(),
        S::supports(n),
    ensures
        is_least_spanning(n.moduli(), Fold::PlainInterval(hs.0, hs.1), 1, r),
{
    _phi_interval::<S>(n, hs)
}

/// The least `m`, from 2 on, such that the `h`-fold signed sumset of some
/// subset of `m` elements is the whole group; 1 for the group of one element;
/// `None` where there is no such `m`.
pub fn phi_signed<S: SetLike>(n: &S::Group, h: u32) -> (r: Option<u32>)
    requires
        n.wf(),
        S::supports(n),
    ensures
        group_size(n.moduli()) == 1 ==> r == Some(1u32),
        group_size(n.moduli()) != 1 ==> is_least_spanning(n.moduli(), Fold::Signed(h), 2, r),
{
    if n.gsize() == 1 {
        return Some(1);
    }
    least_spanning::<S>(n, Fold::Signed(h), 2)
}

/// The least `m`, from 1 on, such that the union of the `h`-fold signed
/// sumsets for `h` in the closed interval `hs` of some subset of `m` elements
/// is the whole group; `None` where there is no such `m`.
pub fn phi_signed_interval<S: SetLike>(n: &S::Group, hs: (u32, u32)) -> (r: Option<u32>)
    requires
        n.wf(),
        S::supports(n),
    ensures
        is_least_spanning(n.moduli(), Fold::SignedInterval(hs.0, hs.1), 1, r),
{
    least_spanning::<S>(n, Fold::SignedInterval(hs.0, hs.1), 1)
}

/// The least `m`, from 2 on, such that the `h`-fold restricted sumset of some
/// subset of `m` elements is the whole group; 1 for the group of one element,
/// else the size of the group where `h` is 1 or at least that size; `None`
/// where there is no such `m`.
pub fn phi_restricted<S: SetLike>(n: &S::Group, h: u32) -> (r: Option<u32>)
    requires
        n.wf(),
        S::supports(n),
    ensures
        group_size(n.moduli()) == 1 ==> r == Some(1u32),
        group_size(n.moduli()) != 1 && (h == 1 || group_size(n.moduli()) <= h) ==> r == Some(
            group_size(n.moduli()) as u32,
        ),
        group_size(n.moduli()) != 1 && h != 1 && group_size(n.moduli()) > h ==> is_least_spanning(
            n.moduli(),
            Fold::Restricted(h),
            2,
            r,
        ),
{
    if n.gsize() == 1 {
        return Some(1);
    }
    if h == 1 {
        return Some(n.gsize());
    }
    if n.gsize() <= h {
        return Some(n.gsize());
    }
    least_spanning::<S>(n, Fold::Restricted(h), 2)
}

/// The least `m`, from 1 on, such that the union of the `h`-fold restricted
/// sumsets for `h` in the closed interval `hs` of some subset of `m` elements
/// is the whole group; `None` where there is no such `m`.
pub fn phi_restricted_interval<S: SetLike>(n: &S::Group, hs: (u32, u32)) -> (r: Option<u32>)
    requires
        n.wf(),
        S::supports(n),
    ensures
        is_least_spanning(n.moduli(), Fold::RestrictedInterval(hs.0, hs.1), 1, r),
{
    least_spanning::<S>(n, Fold::RestrictedInterval(hs.0, hs.1), 1)
}

/// The least `m`, from 2 on, such that the `h`-fold restricted signed sumset
/// of some subset of `m` elements is the whole group; the size of the group
/// where `h` is at least that size; `None` where there is no such `m`.
pub fn phi_signed_restricted<S: SetLike>(n: &S::Group, h: u32) -> (r: Option<u32>)
    requires
        n.wf(),
        S::supports(n),
    ensures
        group_size(n.moduli()) <= h ==> r == Some(group_size(n.moduli()) as u32),
        group_size(n.moduli()) > h ==> is_least_spanning(
            n.moduli(),
            Fold::SignedRestricted(h),
            2,
            r,
        ),
{
    if n.gsize() <= h {
        return Some(n.gsize());
    }
    least_spanning::<S>(n, Fold::SignedRestricted(h), 2)
}

/// The least `m`, from 1 on, such that the union of the `h`-fold restricted
/// signed sumsets for `h` in the closed interval `hs` of some subset of `m`
/// elements is the whole group; `None` where there is no such `m`.
pub fn phi_signed_restricted_interval<S: SetLike>(n: &S::Group, hs: (u32, u32)) -> (r: Option<
    u32,
>)
    requires
        n.wf(),
        S::supports(n),
    ensures
        is_least_spanning(n.moduli(), Fold::SignedRestrictedInterval(hs.0, hs.1), 1, r),
{
    least_spanning::<S>(n, Fold::SignedRestrictedInterval(hs.0, hs.1), 1)
}

} // verus!
