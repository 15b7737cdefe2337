//! The greatest size of a sumset of a subset of a given size.

use crate::comb::search::{is_largest, largest, Fold};
use crate::setlike::{Group, SetLike};
use vstd::prelude::*;

verus! {

/// The greatest number of members that the `h`-fold sumset of a subset of `m`
/// elements of the group has; 0 where the group has no such subset.
pub fn nu<S: SetLike>(n: &S::Group, m: u32, h: u32) -> (r: u32)
    requires
        n.wf(),
        S::supports(n),
    ensures
        is_largest(n.moduli(), m as nat, Fold::Plain(h), r as nat),
{
    let best = largest::<S>(n, m, Fold::Plain(h));
    best.0
}

/// The greatest number of members that the union of the `h`-fold sumsets for
/// `h` in the closed interval `hs` of a subset of `m` elements of the group
/// has; 0 where the group has no such subset.
pub fn nu_interval<S: SetLike>(n: &S::Group, m: u32, hs: (u32, u32)) -> (r: u32)
    requires
        n.wf(),
        S::supports(n),
    ensures
        is_largest(n.moduli(), m as nat, Fold::PlainInterval(hs.0, hs.1), r as nat),
{
    let best = largest::<S>(n, m, Fold::PlainInterval(hs.0, hs.1));
    best.0
}

/// The greatest number of members that the `h`-fold signed sumset of a subset
/// of `m` elements of the group has; 0 where the group has no such subset.
pub fn nu_signed<S: SetLike>(n: &S::Group, m: u32, h: u32) -> (r: u32)
    requires
        n.wf(),
        S::supports(n),
    ensures
        is_largest(n.moduli(), m as nat, Fold::Signed(h), r as nat),
{
    let best = largest::<S>(n, m, Fold::Signed(h));
    best.0
}

/// The greatest number of members that the union of the `h`-fold signed
/// sumsets for `h` in the closed interval `hs` of a subset of `m` elements of
/// the group has; 0 where the group has no such subset.
pub fn nu_signed_interval<S: SetLike>(n: &S::Group, m: u32, hs: (u32, u32)) -> (r: u32)
    requires
        n.wf(),
        S::supports(n),
    ensures
        is_largest(n.moduli(), m as nat, Fold::SignedInterval(hs.0, hs.1), r as nat),
{
    let best = largest::<S>(n, m, Fold::SignedInterval(hs.0, hs.1));
    best.0
}

/// The greatest number of members that the `h`-fold restricted sumset of a
/// subset of `m` elements of the group has; 0 where the group has no such
/// subset.
pub fn nu_restricted<S: SetLike>(n: &S::Group, m: u32, h: u32) -> (r: u32)
    requires
        n.wf(),
        S::supports(n),
    ensures
        is_largest(n.moduli(), m as nat, Fold::Restricted(h), r as nat),
{
    let best = largest::<S>(n, m, Fold::Restricted(h));
    best.0
}

/// The greatest number of members that the union of the `h`-fold restricted
/// sumsets for `h` in the closed interval `hs` of a subset of `m` elements of
/// the group has; 0 where the group has no such subset.
pub fn nu_restricted_interval<S: SetLike>(n: &S::Group, m: u32, hs: (u32, u32)) -> (r: u32)
    requires
        n.wf(),
        S::supports(n),
    ensures
        is_largest(n.moduli(), m as nat, Fold::RestrictedInterval(hs.0, hs.1), r as nat),
{
    let best = largest::<S>(n, m, Fold::RestrictedInterval(hs.0, hs.1));
    best.0
}

/// The greatest number of members that the `h`-fold restricted signed sumset
/// of a subset of `m` elements of the group has; 0 where the group has no such
/// subset.
pub fn nu_signed_restricted<S: SetLike>(n: &S::Group, m: u32, h: u32) -> (r: u32)
    requires
        n.wf(),
        S::supports(n),
    ensures
        is_largest(n.moduli(), m as nat, Fold::SignedRestricted(h), r as nat),
{
    let best = largest::<S>(n, m, Fold::SignedRestricted(h));
    best.0
}

/// The greatest number of members that the union of the `h`-fold restricted
/// signed sumsets for `h` in the closed interval `hs` of a subset of `m`
/// elements of the group has; 0 where the group has no such subset.
pub fn nu_signed_restricted_interval<S: SetLike>(n: &S::Group, m: u32, hs: (u32, u32)) -> (r: u32)
    requires
        n.wf(),
        S::supports(n),
    ensures
        is_largest(n.moduli(), m as nat, Fold::SignedRestrictedInterval(hs.0, hs.1), r as nat),
{
    let best = largest::<S>(n, m, Fold::SignedRestrictedInterval(hs.0, hs.1));
    best.0
}

} // verus!
