//! The entry points for callers that name a group by its moduli: the choice
//! of the representation, and the checks that the searches ask of their
//! caller.

use crate::comb::chapter_a::{
    nu, nu_interval, nu_restricted, nu_restricted_interval, nu_signed, nu_signed_interval,
    nu_signed_restricted, nu_signed_restricted_interval,
};
use crate::comb::chapter_b::{
    is_least_spanning, phi, phi_interval, phi_restricted, phi_restricted_interval, phi_signed,
    phi_signed_interval, phi_signed_restricted, phi_signed_restricted_interval,
};
use crate::comb::chapter_c::{
    is_sigma, sigma, sigma_interval, sigma_restricted, sigma_restricted_interval, sigma_signed,
    sigma_signed_interval, sigma_signed_restricted, sigma_signed_restricted_interval,
};
use crate::comb::chapter_d::{
    rho, rho_interval, rho_restricted, rho_restricted_interval, rho_signed, rho_signed_interval,
    rho_signed_restricted, rho_signed_restricted_interval,
};
use crate::comb::chapter_e::{
    chi, chi_interval, chi_restricted, chi_restricted_interval, chi_signed, chi_signed_interval,
    chi_signed_restricted, chi_signed_restricted_interval, is_chi,
};
use crate::comb::chapter_f::{
    is_tau, tau, tau_interval, tau_restricted, tau_restricted_interval, tau_restricted_known,
    tau_signed, tau_signed_interval, tau_signed_restricted, tau_signed_restricted_interval,
};
use crate::comb::chapter_g::{
    is_mu, mu, mu_restricted, mu_restricted_start, mu_signed, mu_signed_restricted,
};
use crate::comb::search::{is_largest, is_smallest, Fold};
use crate::exactset::{copy_of, moduli_of, GElem};
use crate::fastset::FastSet;
use crate::model::{cyclic, group_size, lemma_cyclic_size};
use crate::setlike::{Group, HFolds, SetLike};
use std::rc::Rc;
use vstd::prelude::*;

verus! {

/// How a caller names a group: by a single modulus, or by a list of moduli.
#[derive(Debug, Clone, PartialEq, Eq)]
pub enum GroupName {
    Cyclic(u32),
    Product(Vec<u32>),
}

/// The kind of sumset.
#[derive(Debug, Clone, Copy, PartialEq, Eq)]
pub enum Kind {
    Plain,
    Signed,
    Restricted,
    SignedRestricted,
}

/// A number of terms, or a closed interval of numbers of terms.
#[derive(Debug, Clone, Copy, PartialEq, Eq)]
pub enum Terms {
    Exactly(u32),
    Between(u32, u32),
}

/// A search, with its arguments.
#[derive(Debug, Clone, Copy, PartialEq, Eq)]
pub enum Call {
    Nu(u32, Terms),
    Phi(Terms),
    Sigma(Terms),
    Rho(u32, Terms),
    Chi(Terms),
    Tau(Terms),
    Mu(u32, u32),
}

/// Why a call has no value.
#[derive(Debug, Clone, Copy, PartialEq, Eq)]
pub enum Failure {
    /// The moduli do not name a group whose size fits a `u32`: there is
    /// none, one is 0, or their product is too large.
    BadGroup,
    /// The size of the group is the greatest `u32`, and the search would
    /// have to count beyond it.
    TooLarge,
    /// `sigma` on an interval that does not start at 0.
    BadInterval,
    /// No size has a subset of the kind that `phi` searches for.
    NotFound,
}

/// The operator for a kind of sumset and its terms.
pub open spec fn fold_of(kind: Kind, terms: Terms) -> Fold {
    match (kind, terms) {
        (Kind::Plain, Terms::Exactly(h)) => Fold::Plain(h),
        (Kind::Plain, Terms::Between(a, b)) => Fold::PlainInterval(a, b),
        (Kind::Signed, Terms::Exactly(h)) => Fold::Signed(h),
        (Kind::Signed, Terms::Between(a, b)) => Fold::SignedInterval(a, b),
        (Kind::Restricted, Terms::Exactly(h)) => Fold::Restricted(h),
        (Kind::Restricted, Terms::Between(a, b)) => Fold::RestrictedInterval(a, b),
        (Kind::SignedRestricted, Terms::Exactly(h)) => Fold::SignedRestricted(h),
        (Kind::SignedRestricted, Terms::Between(a, b)) => Fold::SignedRestrictedInterval(a, b),
    }
}

/// What `phi` of the kind gives for the terms.
pub open spec fn phi_outcome(mods: Seq<nat>, kind: Kind, terms: Terms, r: Option<u32>) -> bool {
    let size = group_size(mods);
    match (kind, terms) {
        (Kind::Plain, Terms::Exactly(h)) => if size == 1 {
            r == Some(1u32)
        } else if h == 1 {
            r == Some(size as u32)
        } else {
            match r {
                Some(v) => v >= 2 && is_least_spanning(
                    mods,
                    Fold::PlainInterval(0, h),
                    1,
                    Some((v - 1) as u32),
                ),
                None => is_least_spanning(mods, Fold::PlainInterval(0, h), 1, None),
            }
        },
        (Kind::Signed, Terms::Exactly(h)) => if size == 1 {
            r == Some(1u32)
        } else {
            is_least_spanning(mods, Fold::Signed(h), 2, r)
        },
        (Kind::Restricted, Terms::Exactly(h)) => if size == 1 {
            r == Some(1u32)
        } else if h == 1 || size <= h {
            r == Some(size as u32)
        } else {
            is_least_spanning(mods, Fold::Restricted(h), 2, r)
        },
        (Kind::SignedRestricted, Terms::Exactly(h)) => if size <= h {
            r == Some(size as u32)
        } else {
            is_least_spanning(mods, Fold::SignedRestricted(h), 2, r)
        },
        (_, Terms::Between(a, b)) => is_least_spanning(mods, fold_of(kind, terms), 1, r),
    }
}

/// What `tau` of the kind gives for the terms.
pub open spec fn tau_outcome(
    mods: Seq<nat>,
    order: Option<u32>,
    kind: Kind,
    terms: Terms,
    r: u32,
) -> bool {
    match (kind, terms) {
        (Kind::Restricted, Terms::Exactly(h)) => match tau_restricted_known(order, h) {
            Some(v) => r == v,
            None => if group_size(mods) == 1 {
                r == 1
            } else {
                is_tau(mods, Fold::Restricted(h), false, r as nat)
            },
        },
        (Kind::Plain, _) => is_tau(mods, fold_of(kind, terms), true, r as nat),
        (Kind::Signed, _) => is_tau(mods, fold_of(kind, terms), true, r as nat),
        (_, _) => is_tau(mods, fold_of(kind, terms), false, r as nat),
    }
}

/// What `mu` of the kind gives for `k` and `l`.
pub open spec fn mu_outcome(
    mods: Seq<nat>,
    order: Option<u32>,
    kind: Kind,
    k: u32,
    l: u32,
    r: u32,
) -> bool {
    let size = group_size(mods);
    if k == l {
        r == 0
    } else {
        match kind {
            Kind::Plain => is_mu(mods, Fold::Plain(k), Fold::Plain(l), 1, r as nat),
            Kind::Signed => is_mu(mods, Fold::Signed(k), Fold::Signed(l), 1, r as nat),
            Kind::Restricted => if k > size || l > size {
                r == size
            } else {
                is_mu(
                    mods,
                    Fold::Restricted(k),
                    Fold::Restricted(l),
                    mu_restricted_start(order, k, l),
                    r as nat,
                )
            },
            Kind::SignedRestricted => if k > size || l > size {
                r == size
            } else {
                is_mu(mods, Fold::SignedRestricted(k), Fold::SignedRestricted(l), 1, r as nat)
            },
        }
    }
}

/// What a call gives on a group with the given moduli; `order` is the
/// modulus where the representation of the group is a single modulus.
pub open spec fn outcome(
    mods: Seq<nat>,
    order: Option<u32>,
    kind: Kind,
    call: Call,
    r: Result<u32, Failure>,
) -> bool {
    match call {
        Call::Nu(m, terms) => r is Ok && is_largest(mods, m as nat, fold_of(kind, terms), r->Ok_0 as nat),
        Call::Rho(m, terms) => r is Ok && is_smallest(
            mods,
            m as nat,
            fold_of(kind, terms),
            r->Ok_0 as nat,
        ),
        Call::Phi(terms) => match terms {
            Terms::Exactly(h) => if matches!(kind, Kind::Plain) && group_size(mods) == u32::MAX {
                r == Err::<u32, Failure>(Failure::TooLarge)
            } else {
                match r {
                    Ok(v) => phi_outcome(mods, kind, terms, Some(v)),
                    Err(e) => e == Failure::NotFound && phi_outcome(mods, kind, terms, None),
                }
            },
            Terms::Between(a, b) => match r {
                Ok(v) => phi_outcome(mods, kind, terms, Some(v)),
                Err(e) => e == Failure::NotFound && phi_outcome(mods, kind, terms, None),
            },
        },
        Call::Sigma(terms) => match terms {
            Terms::Exactly(h) => r is Ok && is_sigma(mods, fold_of(kind, terms), r->Ok_0 as nat),
            Terms::Between(a, b) => if a != 0 {
                r == Err::<u32, Failure>(Failure::BadInterval)
            } else {
                r is Ok && is_sigma(mods, fold_of(kind, terms), r->Ok_0 as nat)
            },
        },
        Call::Chi(terms) => if group_size(mods) == u32::MAX {
            r == Err::<u32, Failure>(Failure::TooLarge)
        } else {
            r is Ok && is_chi(mods, fold_of(kind, terms), r->Ok_0 as nat)
        },
        Call::Tau(terms) => r is Ok && tau_outcome(mods, order, kind, terms, r->Ok_0),
        Call::Mu(k, l) => r is Ok && mu_outcome(mods, order, kind, k, l, r->Ok_0),
    }
}

/// The value of `phi`, or the failure to find one.
fn found(r: Option<u32>) -> (out: Result<u32, Failure>)
    ensures
        match r {
            Some(v) => out == Ok::<u32, Failure>(v),
            None => out == Err::<u32, Failure>(Failure::NotFound),
        },
{
    match r {
        Some(v) => Ok(v),
        None => Err(Failure::NotFound),
    }
}

/// The call on one representation.
pub fn run<S: SetLike>(g: &S::Group, kind: Kind, call: Call) -> (r: Result<u32, Failure>)
    requires
        g.wf(),
        S::supports(g),
    ensures
        outcome(g.moduli(), g.as_cyclic(), kind, call, r),
{
    proof {
        g.lemma_wf();
    }
    match call {
        Call::Nu(m, terms) => match (kind, terms) {
            (Kind::Plain, Terms::Exactly(h)) => Ok(nu::<S>(g, m, h)),
            (Kind::Plain, Terms::Between(a, b)) => Ok(nu_interval::<S>(g, m, (a, b))),
            (Kind::Signed, Terms::Exactly(h)) => Ok(nu_signed::<S>(g, m, h)),
            (Kind::Signed, Terms::Between(a, b)) => Ok(nu_signed_interval::<S>(g, m, (a, b))),
            (Kind::Restricted, Terms::Exactly(h)) => Ok(nu_restricted::<S>(g, m, h)),
            (Kind::Restricted, Terms::Between(a, b)) => Ok(
                nu_restricted_interval::<S>(g, m, (a, b)),
            ),
            (Kind::SignedRestricted, Terms::Exactly(h)) => Ok(nu_signed_restricted::<S>(g, m, h)),
            (Kind::SignedRestricted, Terms::Between(a, b)) => Ok(
                nu_signed_restricted_interval::<S>(g, m, (a, b)),
            ),
        },
        Call::Rho(m, terms) => match (kind, terms) {
            (Kind::Plain, Terms::Exactly(h)) => Ok(rho::<S>(g, m, h)),
            (Kind::Plain, Terms::Between(a, b)) => Ok(rho_interval::<S>(g, m, (a, b))),
            (Kind::Signed, Terms::Exactly(h)) => Ok(rho_signed::<S>(g, m, h)),
            (Kind::Signed, Terms::Between(a, b)) => Ok(rho_signed_interval::<S>(g, m, (a, b))),
            (Kind::Restricted, Terms::Exactly(h)) => Ok(rho_restricted::<S>(g, m, h)),
            (Kind::Restricted, Terms::Between(a, b)) => Ok(
                rho_restricted_interval::<S>(g, m, (a, b)),
            ),
            (Kind::SignedRestricted, Terms::Exactly(h)) => Ok(rho_signed_restricted::<S>(g, m, h)),
            (Kind::SignedRestricted, Terms::Between(a, b)) => Ok(
                rho_signed_restricted_interval::<S>(g, m, (a, b)),
            ),
        },
        Call::Phi(terms) => match (kind, terms) {
            (Kind::Plain, Terms::Exactly(h)) => {
                if g.gsize() == u32::MAX {
                    Err(Failure::TooLarge)
                } else {
                    found(phi::<S>(g, h))
                }
            },
            (Kind::Plain, Terms::Between(a, b)) => found(phi_interval::<S>(g, (a, b))),
            (Kind::Signed, Terms::Exactly(h)) => found(phi_signed::<S>(g, h)),
            (Kind::Signed, Terms::Between(a, b)) => found(phi_signed_interval::<S>(g, (a, b))),
            (Kind::Restricted, Terms::Exactly(h)) => found(phi_restricted::<S>(g, h)),
            (Kind::Restricted, Terms::Between(a, b)) => found(
                phi_restricted_interval::<S>(g, (a, b)),
            ),
            (Kind::SignedRestricted, Terms::Exactly(h)) => found(phi_signed_restricted::<S>(g, h)),
            (Kind::SignedRestricted, Terms::Between(a, b)) => found(
                phi_signed_restricted_interval::<S>(g, (a, b)),
            ),
        },
        Call::Sigma(terms) => match (kind, terms) {
            (Kind::Plain, Terms::Exactly(h)) => Ok(sigma::<S>(g, h)),
            (Kind::Signed, Terms::Exactly(h)) => Ok(sigma_signed::<S>(g, h)),
            (Kind::Restricted, Terms::Exactly(h)) => Ok(sigma_restricted::<S>(g, h)),
            (Kind::SignedRestricted, Terms::Exactly(h)) => Ok(sigma_signed_restricted::<S>(g, h)),
            (_, Terms::Between(a, b)) => {
                if a != 0 {
                    Err(Failure::BadInterval)
                } else {
                    match kind {
                        Kind::Plain => Ok(sigma_interval::<S>(g, b)),
                        Kind::Signed => Ok(sigma_signed_interval::<S>(g, b)),
                        Kind::Restricted => Ok(sigma_restricted_interval::<S>(g, b)),
                        Kind::SignedRestricted => Ok(sigma_signed_restricted_interval::<S>(g, b)),
                    }
                }
            },
        },
        Call::Chi(terms) => {
            if g.gsize() == u32::MAX {
                Err(Failure::TooLarge)
            } else {
                match (kind, terms) {
                    (Kind::Plain, Terms::Exactly(h)) => Ok(chi::<S>(g, h)),
                    (Kind::Plain, Terms::Between(a, b)) => Ok(chi_interval::<S>(g, (a, b))),
                    (Kind::Signed, Terms::Exactly(h)) => Ok(chi_signed::<S>(g, h)),
                    (Kind::Signed, Terms::Between(a, b)) => Ok(chi_signed_interval::<S>(g, (a, b))),
                    (Kind::Restricted, Terms::Exactly(h)) => Ok(chi_restricted::<S>(g, h)),
                    (Kind::Restricted, Terms::Between(a, b)) => Ok(
                        chi_restricted_interval::<S>(g, (a, b)),
                    ),
                    (Kind::SignedRestricted, Terms::Exactly(h)) => Ok(
                        chi_signed_restricted::<S>(g, h),
                    ),
                    (Kind::SignedRestricted, Terms::Between(a, b)) => Ok(
                        chi_signed_restricted_interval::<S>(g, (a, b)),
                    ),
                }
            }
        },
        Call::Tau(terms) => match (kind, terms) {
            (Kind::Plain, Terms::Exactly(h)) => Ok(tau::<S>(g, h)),
            (Kind::Plain, Terms::Between(a, b)) => Ok(tau_interval::<S>(g, (a, b))),
            (Kind::Signed, Terms::Exactly(h)) => Ok(tau_signed::<S>(g, h)),
            (Kind::Signed, Terms::Between(a, b)) => Ok(tau_signed_interval::<S>(g, (a, b))),
            (Kind::Restricted, Terms::Exactly(h)) => Ok(tau_restricted::<S>(g, h)),
            (Kind::Restricted, Terms::Between(a, b)) => Ok(
                tau_restricted_interval::<S>(g, (a, b)),
            ),
            (Kind::SignedRestricted, Terms::Exactly(h)) => Ok(tau_signed_restricted::<S>(g, h)),
            (Kind::SignedRestricted, Terms::Between(a, b)) => Ok(
                tau_signed_restricted_interval::<S>(g, (a, b)),
            ),
        },
        Call::Mu(k, l) => match kind {
            Kind::Plain => Ok(mu::<S>(g, k, l)),
            Kind::Signed => Ok(mu_signed::<S>(g, k, l)),
            Kind::Restricted => Ok(mu_restricted::<S>(g, k, l)),
            Kind::SignedRestricted => Ok(mu_signed_restricted::<S>(g, k, l)),
        },
    }
}

/// The moduli that a name stands for.
pub open spec fn moduli_named(group: GroupName) -> Seq<nat> {
    match group {
        GroupName::Cyclic(n) => cyclic(n as nat),
        GroupName::Product(mods) => moduli_of(mods@),
    }
}

/// The name stands for a group whose size fits a `u32`.
pub open spec fn names_group(group: GroupName) -> bool {
    match group {
        GroupName::Cyclic(n) => n >= 1,
        GroupName::Product(mods) => crate::exactset::moduli_ok(mods@),
    }
}

/// The modulus of a name for which the packed representation is taken: a
/// single modulus below 128.
pub open spec fn packed_order(group: GroupName) -> Option<u32> {
    match group {
        GroupName::Cyclic(n) => if n < 128 {
            Some(n)
        } else {
            None
        },
        GroupName::Product(mods) => None,
    }
}

/// The value of a search on the group that the caller names. A single
/// modulus below 128 is worked on packed subsets in a word of 128 bits,
/// every other group on lists of elements.
pub fn compute(group: &GroupName, kind: Kind, call: Call) -> (r: Result<u32, Failure>)
    ensures
        !names_group(*group) ==> r == Err::<u32, Failure>(Failure::BadGroup),
        names_group(*group) ==> outcome(moduli_named(*group), packed_order(*group), kind, call, r),
{
    match group {
        GroupName::Cyclic(n) => {
            if !n.is_valid() {
                return Err(Failure::BadGroup);
            }
            if FastSet::<u128>::can_hold(n) {
                run::<FastSet<u128>>(n, kind, call)
            } else {
                let mut mods: Vec<u32> = Vec::new();
                mods.push(*n);
                let g = Rc::new(mods);
                proof {
                    lemma_cyclic_size(*n as nat);
                    assert(moduli_of(g@) =~= cyclic(*n as nat));
                }
                run::<Vec<GElem>>(&g, kind, call)
            }
        },
        GroupName::Product(mods) => {
            let g = Rc::new(copy_of(mods));
            if !g.is_valid() {
                return Err(Failure::BadGroup);
            }
            run::<Vec<GElem>>(&g, kind, call)
        },
    }
}

} // verus!
