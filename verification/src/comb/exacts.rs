//! The families of searches on groups given as plain lists of moduli, worked
//! on the list representation of subsets.

use crate::comb::chapter_a::{
    nu, nu_interval, nu_restricted, nu_restricted_interval, nu_signed, nu_signed_interval,
    nu_signed_restricted, nu_signed_restricted_interval,
};
use crate::comb::chapter_b::{
    is_least_spanning, phi, phi_interval, phi_restricted, phi_restricted_interval, phi_signed,
    phi_signed_interval, phi_signed_restricted, phi_signed_restricted_interval,
};
use crate::comb::chapter_c::{
    is_sigma, sigma, sigma_interval, sigma_restricted, sigma_restricted_interval, sigma_signed,
    sigma_signed_interval, sigma_signed_restricted, sigma_signed_restricted_interval,
};
use crate::comb::chapter_d::{
    rho, rho_interval, rho_restricted, rho_restricted_interval, rho_signed, rho_signed_interval,
    rho_signed_restricted, rho_signed_restricted_interval,
};
use crate::comb::chapter_e::{
    chi, chi_interval, chi_restricted, chi_restricted_interval, chi_signed, chi_signed_interval,
    chi_signed_restricted, chi_signed_restricted_interval, is_chi,
};
use crate::comb::chapter_f::{
    is_tau, tau, tau_interval, tau_restricted, tau_restricted_interval, tau_signed,
    tau_signed_interval, tau_signed_restricted, tau_signed_restricted_interval,
};
use crate::comb::chapter_g::{is_mu, mu, mu_restricted, mu_signed, mu_signed_restricted};
use crate::comb::search::{is_largest, is_smallest, Fold};
use crate::exactset::{moduli_of, moduli_ok, GElem};
use crate::model::group_size;
use std::rc::Rc;
use vstd::prelude::*;

verus! {

/// The group that a list of moduli stands for.
pub fn group_of(gname: &[u32]) -> (g: Rc<Vec<u32>>)
    ensures
        g@ == gname@,
{
    Rc::new(vstd::slice::slice_to_vec(gname))
}

/// `nu` on the list representation.
pub fn nu_exact(gname: &[u32], m: u32, h: u32) -> (r: u32)
    requires
        moduli_ok(gname@),
    ensures
        is_largest(moduli_of(gname@), m as nat, Fold::Plain(h), r as nat),
{
    nu::<Vec<GElem>>(&group_of(gname), m, h)
}

/// `nu_interval` on the list representation.
pub fn nu_interval_exact(gname: &[u32], m: u32, ia: u32, ib: u32) -> (r: u32)
    requires
        moduli_ok(gname@),
    ensures
        is_largest(moduli_of(gname@), m as nat, Fold::PlainInterval(ia, ib), r as nat),
{
    nu_interval::<Vec<GElem>>(&group_of(gname), m, (ia, ib))
}

/// `nu_signed` on the list representation.
pub fn nu_signed_exact(gname: &[u32], m: u32, h: u32) -> (r: u32)
    requires
        moduli_ok(gname@),
    ensures
        is_largest(moduli_of(gname@), m as nat, Fold::Signed(h), r as nat),
{
    nu_signed::<Vec<GElem>>(&group_of(gname), m, h)
}

/// `nu_signed_interval` on the list representation.
pub fn nu_signed_interval_exact(gname: &[u32], m: u32, ia: u32, ib: u32) -> (r: u32)
    requires
        moduli_ok(gname@),
    ensures
        is_largest(moduli_of(gname@), m as nat, Fold::SignedInterval(ia, ib), r as nat),
{
    nu_signed_interval::<Vec<GElem>>(&group_of(gname), m, (ia, ib))
}

/// `nu_restricted` on the list representation.
pub fn nu_restricted_exact(gname: &[u32], m: u32, h: u32) -> (r: u32)
    requires
        moduli_ok(gname@),
    ensures
        is_largest(moduli_of(gname@), m as nat, Fold::Restricted(h), r as nat),
{
    nu_restricted::<Vec<GElem>>(&group_of(gname), m, h)
}

/// `nu_restricted_interval` on the list representation.
pub fn nu_restricted_interval_exact(gname: &[u32], m: u32, ia: u32, ib: u32) -> (r: u32)
    requires
        moduli_ok(gname@),
    ensures
        is_largest(moduli_of(gname@), m as nat, Fold::RestrictedInterval(ia, ib), r as nat),
{
    nu_restricted_interval::<Vec<GElem>>(&group_of(gname), m, (ia, ib))
}

/// `nu_signed_restricted` on the list representation.
pub fn nu_signed_restricted_exact(gname: &[u32], m: u32, h: u32) -> (r: u32)
    requires
        moduli_ok(gname@),
    ensures
        is_largest(moduli_of(gname@), m as nat, Fold::SignedRestricted(h), r as nat),
{
    nu_signed_restricted::<Vec<GElem>>(&group_of(gname), m, h)
}

/// `nu_signed_restricted_interval` on the list representation.
pub fn nu_signed_restricted_interval_exact(gname: &[u32], m: u32, ia: u32, ib: u32) -> (r: u32)
    requires
        moduli_ok(gname@),
    ensures
        is_largest(moduli_of(gname@), m as nat, Fold::SignedRestrictedInterval(ia, ib), r as nat),
{
    nu_signed_restricted_interval::<Vec<GElem>>(&group_of(gname), m, (ia, ib))
}

/// `phi` on the list representation.
pub fn phi_exact(gname: &[u32], h: u32) -> (r: Option<u32>)
    requires
        moduli_ok(gname@),
        group_size(moduli_of(gname@)) < u32::MAX,
    ensures
        group_size(moduli_of(gname@)) == 1 ==> r == Some(1u32),
        group_size(moduli_of(gname@)) != 1 && h == 1 ==> r == Some(
            group_size(moduli_of(gname@)) as u32,
        ),
        group_size(moduli_of(gname@)) != 1 && h != 1 ==> match r {
            Some(v) => v >= 2 && is_least_spanning(
                moduli_of(gname@),
                Fold::PlainInterval(0, h),
                1,
                Some((v - 1) as u32),
            ),
            None => is_least_spanning(moduli_of(gname@), Fold::PlainInterval(0, h), 1, None),
        },
{
    phi::<Vec<GElem>>(&group_of(gname), h)
}

/// `phi_interval` on the list representation.
pub fn phi_interval_exact(gname: &[u32], ia: u32, ib: u32) -> (r: Option<u32>)
    requires
        moduli_ok(gname@),
    ensures
        is_least_spanning(moduli_of(gname@), Fold::PlainInterval(ia, ib), 1, r),
{
    phi_interval::<Vec<GElem>>(&group_of(gname), (ia, ib))
}

/// `phi_signed` on the list representation.
pub fn phi_signed_exact(gname: &[u32], h: u32) -> (r: Option<u32>)
    requires
        moduli_ok(gname@),
    ensures
        group_size(moduli_of(gname@)) == 1 ==> r == Some(1u32),
        group_size(moduli_of(gname@)) != 1 ==> is_least_spanning(
            moduli_of(gname@),
            Fold::Signed(h),
            2,
            r,
        ),
{
    phi_signed::<Vec<GElem>>(&group_of(gname), h)
}

/// `phi_signed_interval` on the list representation.
pub fn phi_signed_interval_exact(gname: &[u32], ia: u32, ib: u32) -> (r: Option<u32>)
    requires
        moduli_ok(gname@),
    ensures
        is_least_spanning(moduli_of(gname@), Fold::SignedInterval(ia, ib), 1, r),
{
    phi_signed_interval::<Vec<GElem>>(&group_of(gname), (ia, ib))
}

/// `phi_restricted` on the list representation.
pub fn phi_restricted_exact(gname: &[u32], h: u32) -> (r: Option<u32>)
    requires
        moduli_ok(gname@),
    ensures
        group_size(moduli_of(gname@)) == 1 ==> r == Some(1u32),
        group_size(moduli_of(gname@)) != 1 && (h == 1 || group_size(moduli_of(gname@)) <= h)
            ==> r == Some(group_size(moduli_of(gname@)) as u32),
        group_size(moduli_of(gname@)) != 1 && h != 1 && group_size(moduli_of(gname@)) > h
            ==> is_least_spanning(moduli_of(gname@), Fold::Restricted(h), 2, r),
{
    phi_restricted::<Vec<GElem>>(&group_of(gname), h)
}

/// `phi_restricted_interval` on the list representation.
pub fn phi_restricted_interval_exact(gname: &[u32], ia: u32, ib: u32) -> (r: Option<u32>)
    requires
        moduli_ok(gname@),
    ensures
        is_least_spanning(moduli_of(gname@), Fold::RestrictedInterval(ia, ib), 1, r),
{
    phi_restricted_interval::<Vec<GElem>>(&group_of(gname), (ia, ib))
}

/// `phi_signed_restricted` on the list representation.
pub fn phi_signed_restricted_exact(gname: &[u32], h: u32) -> (r: Option<u32>)
    requires
        moduli_ok(gname@),
    ensures
        group_size(moduli_of(gname@)) <= h ==> r == Some(group_size(moduli_of(gname@)) as u32),
        group_size(moduli_of(gname@)) > h ==> is_least_spanning(
            moduli_of(gname@),
            Fold::SignedRestricted(h),
            2,
            r,
        ),
{
    phi_signed_restricted::<Vec<GElem>>(&group_of(gname), h)
}

/// `phi_signed_restricted_interval` on the list representation.
pub fn phi_signed_restricted_interval_exact(gname: &[u32], ia: u32, ib: u32) -> (r: Option<u32>)
    requires
        moduli_ok(gname@),
    ensures
        is_least_spanning(moduli_of(gname@), Fold::SignedRestrictedInterval(ia, ib), 1, r),
{
    phi_signed_restricted_interval::<Vec<GElem>>(&group_of(gname), (ia, ib))
}

/// `sigma` on the list representation.
pub fn sigma_exact(gname: &[u32], h: u32) -> (r: u32)
    requires
        moduli_ok(gname@),
    ensures
        is_sigma(moduli_of(gname@), Fold::Plain(h), r as nat),
{
    sigma::<Vec<GElem>>(&group_of(gname), h)
}

/// `sigma_interval` on the list representation.
pub fn sigma_interval_exact(gname: &[u32], s: u32) -> (r: u32)
    requires
        moduli_ok(gname@),
    ensures
        is_sigma(moduli_of(gname@), Fold::PlainInterval(0, s), r as nat),
{
    sigma_interval::<Vec<GElem>>(&group_of(gname), s)
}

/// `sigma_signed` on the list representation.
pub fn sigma_signed_exact(gname: &[u32], h: u32) -> (r: u32)
    requires
        moduli_ok(gname@),
    ensures
        is_sigma(moduli_of(gname@), Fold::Signed(h), r as nat),
{
    sigma_signed::<Vec<GElem>>(&group_of(gname), h)
}

/// `sigma_signed_interval` on the list representation.
pub fn sigma_signed_interval_exact(gname: &[u32], s: u32) -> (r: u32)
    requires
        moduli_ok(gname@),
    ensures
        is_sigma(moduli_of(gname@), Fold::SignedInterval(0, s), r as nat),
{
    sigma_signed_interval::<Vec<GElem>>(&group_of(gname), s)
}

/// `sigma_restricted` on the list representation.
pub fn sigma_restricted_exact(gname: &[u32], h: u32) -> (r: u32)
    requires
        moduli_ok(gname@),
    ensures
        is_sigma(moduli_of(gname@), Fold::Restricted(h), r as nat),
{
    sigma_restricted::<Vec<GElem>>(&group_of(gname), h)
}

/// `sigma_restricted_interval` on the list representation.
pub fn sigma_restricted_interval_exact(gname: &[u32], s: u32) -> (r: u32)
    requires
        moduli_ok(gname@),
    ensures
        is_sigma(moduli_of(gname@), Fold::RestrictedInterval(0, s), r as nat),
{
    sigma_restricted_interval::<Vec<GElem>>(&group_of(gname), s)
}

/// `sigma_signed_restricted` on the list representation.
pub fn sigma_signed_restricted_exact(gname: &[u32], h: u32) -> (r: u32)
    requires
        moduli_ok(gname@),
    ensures
        is_sigma(moduli_of(gname@), Fold::SignedRestricted(h), r as nat),
{
    sigma_signed_restricted::<Vec<GElem>>(&group_of(gname), h)
}

/// `sigma_signed_restricted_interval` on the list representation.
pub fn sigma_signed_restricted_interval_exact(gname: &[u32], s: u32) -> (r: u32)
    requires
        moduli_ok(gname@),
    ensures
        is_sigma(moduli_of(gname@), Fold::SignedRestrictedInterval(0, s), r as nat),
{
    sigma_signed_restricted_interval::<Vec<GElem>>(&group_of(gname), s)
}

/// `rho` on the list representation.
pub fn rho_exact(gname: &[u32], m: u32, h: u32) -> (r: u32)
    requires
        moduli_ok(gname@),
    ensures
        is_smallest(moduli_of(gname@), m as nat, Fold::Plain(h), r as nat),
{
    rho::<Vec<GElem>>(&group_of(gname), m, h)
}

/// `rho_interval` on the list representation.
pub fn rho_interval_exact(gname: &[u32], m: u32, ia: u32, ib: u32) -> (r: u32)
    requires
        moduli_ok(gname@),
    ensures
        is_smallest(moduli_of(gname@), m as nat, Fold::PlainInterval(ia, ib), r as nat),
{
    rho_interval::<Vec<GElem>>(&group_of(gname), m, (ia, ib))
}

/// `rho_signed` on the list representation.
pub fn rho_signed_exact(gname: &[u32], m: u32, h: u32) -> (r: u32)
    requires
        moduli_ok(gname@),
    ensures
        is_smallest(moduli_of(gname@), m as nat, Fold::Signed(h), r as nat),
{
    rho_signed::<Vec<GElem>>(&group_of(gname), m, h)
}

/// `rho_signed_interval` on the list representation.
pub fn rho_signed_interval_exact(gname: &[u32], m: u32, ia: u32, ib: u32) -> (r: u32)
    requires
        moduli_ok(gname@),
    ensures
        is_smallest(moduli_of(gname@), m as nat, Fold::SignedInterval(ia, ib), r as nat),
{
    rho_signed_interval::<Vec<GElem>>(&group_of(gname), m, (ia, ib))
}

/// `rho_restricted` on the list representation.
pub fn rho_restricted_exact(gname: &[u32], m: u32, h: u32) -> (r: u32)
    requires
        moduli_ok(gname@),
    ensures
        is_smallest(moduli_of(gname@), m as nat, Fold::Restricted(h), r as nat),
{
    rho_restricted::<Vec<GElem>>(&group_of(gname), m, h)
}

/// `rho_restricted_interval` on the list representation.
pub fn rho_restricted_interval_exact(gname: &[u32], m: u32, ia: u32, ib: u32) -> (r: u32)
    requires
        moduli_ok(gname@),
    ensures
        is_smallest(moduli_of(gname@), m as nat, Fold::RestrictedInterval(ia, ib), r as nat),
{
    rho_restricted_interval::<Vec<GElem>>(&group_of(gname), m, (ia, ib))
}

/// `rho_signed_restricted` on the list representation.
pub fn rho_signed_restricted_exact(gname: &[u32], m: u32, h: u32) -> (r: u32)
    requires
        moduli_ok(gname@),
    ensures
        is_smallest(moduli_of(gname@), m as nat, Fold::SignedRestricted(h), r as nat),
{
    rho_signed_restricted::<Vec<GElem>>(&group_of(gname), m, h)
}

/// `rho_signed_restricted_interval` on the list representation.
pub fn rho_signed_restricted_interval_exact(gname: &[u32], m: u32, ia: u32, ib: u32) -> (r: u32)
    requires
        moduli_ok(gname@),
    ensures
        is_smallest(moduli_of(gname@), m as nat, Fold::SignedRestrictedInterval(ia, ib), r as nat),
{
    rho_signed_restricted_interval::<Vec<GElem>>(&group_of(gname), m, (ia, ib))
}

/// `chi` on the list representation.
pub fn chi_exact(gname: &[u32], h: u32) -> (r: u32)
    requires
        moduli_ok(gname@),
        group_size(moduli_of(gname@)) < u32::MAX,
    ensures
        is_chi(moduli_of(gname@), Fold::Plain(h), r as nat),
{
    chi::<Vec<GElem>>(&group_of(gname), h)
}

/// `chi_interval` on the list representation.
pub fn chi_interval_exact(gname: &[u32], ia: u32, ib: u32) -> (r: u32)
    requires
        moduli_ok(gname@),
        group_size(moduli_of(gname@)) < u32::MAX,
    ensures
        is_chi(moduli_of(gname@), Fold::PlainInterval(ia, ib), r as nat),
{
    chi_interval::<Vec<GElem>>(&group_of(gname), (ia, ib))
}

/// `chi_signed` on the list representation.
pub fn chi_signed_exact(gname: &[u32], h: u32) -> (r: u32)
    requires
        moduli_ok(gname@),
        group_size(moduli_of(gname@)) < u32::MAX,
    ensures
        is_chi(moduli_of(gname@), Fold::Signed(h), r as nat),
{
    chi_signed::<Vec<GElem>>(&group_of(gname), h)
}

/// `chi_signed_interval` on the list representation.
pub fn chi_signed_interval_exact(gname: &[u32], ia: u32, ib: u32) -> (r: u32)
    requires
        moduli_ok(gname@),
        group_size(moduli_of(gname@)) < u32::MAX,
    ensures
        is_chi(moduli_of(gname@), Fold::SignedInterval(ia, ib), r as nat),
{
    chi_signed_interval::<Vec<GElem>>(&group_of(gname), (ia, ib))
}

/// `chi_restricted` on the list representation.
pub fn chi_restricted_exact(gname: &[u32], h: u32) -> (r: u32)
    requires
        moduli_ok(gname@),
        group_size(moduli_of(gname@)) < u32::MAX,
    ensures
        is_chi(moduli_of(gname@), Fold::Restricted(h), r as nat),
{
    chi_restricted::<Vec<GElem>>(&group_of(gname), h)
}

/// `chi_restricted_interval` on the list representation.
pub fn chi_restricted_interval_exact(gname: &[u32], ia: u32, ib: u32) -> (r: u32)
    requires
        moduli_ok(gname@),
        group_size(moduli_of(gname@)) < u32::MAX,
    ensures
        is_chi(moduli_of(gname@), Fold::RestrictedInterval(ia, ib), r as nat),
{
    chi_restricted_interval::<Vec<GElem>>(&group_of(gname), (ia, ib))
}

/// `chi_signed_restricted` on the list representation.
pub fn chi_signed_restricted_exact(gname: &[u32], h: u32) -> (r: u32)
    requires
        moduli_ok(gname@),
        group_size(moduli_of(gname@)) < u32::MAX,
    ensures
        is_chi(moduli_of(gname@), Fold::SignedRestricted(h), r as nat),
{
    chi_signed_restricted::<Vec<GElem>>(&group_of(gname), h)
}

/// `chi_signed_restricted_interval` on the list representation.
pub fn chi_signed_restricted_interval_exact(gname: &[u32], ia: u32, ib: u32) -> (r: u32)
    requires
        moduli_ok(gname@),
        group_size(moduli_of(gname@)) < u32::MAX,
    ensures
        is_chi(moduli_of(gname@), Fold::SignedRestrictedInterval(ia, ib), r as nat),
{
    chi_signed_restricted_interval::<Vec<GElem>>(&group_of(gname), (ia, ib))
}

/// `tau` on the list representation.
pub fn tau_exact(gname: &[u32], h: u32) -> (r: u32)
    requires
        moduli_ok(gname@),
    ensures
        is_tau(moduli_of(gname@), Fold::Plain(h), true, r as nat),
{
    tau::<Vec<GElem>>(&group_of(gname), h)
}

/// `tau_interval` on the list representation.
pub fn tau_interval_exact(gname: &[u32], ia: u32, ib: u32) -> (r: u32)
    requires
        moduli_ok(gname@),
    ensures
        is_tau(moduli_of(gname@), Fold::PlainInterval(ia, ib), true, r as nat),
{
    tau_interval::<Vec<GElem>>(&group_of(gname), (ia, ib))
}

/// `tau_signed` on the list representation.
pub fn tau_signed_exact(gname: &[u32], h: u32) -> (r: u32)
    requires
        moduli_ok(gname@),
    ensures
        is_tau(moduli_of(gname@), Fold::Signed(h), true, r as nat),
{
    tau_signed::<Vec<GElem>>(&group_of(gname), h)
}

/// `tau_signed_interval` on the list representation.
pub fn tau_signed_interval_exact(gname: &[u32], ia: u32, ib: u32) -> (r: u32)
    requires
        moduli_ok(gname@),
    ensures
        is_tau(moduli_of(gname@), Fold::SignedInterval(ia, ib), true, r as nat),
{
    tau_signed_interval::<Vec<GElem>>(&group_of(gname), (ia, ib))
}

/// `tau_restricted` on the list representation.
pub fn tau_restricted_exact(gname: &[u32], h: u32) -> (r: u32)
    requires
        moduli_ok(gname@),
    ensures
        if group_size(moduli_of(gname@)) == 1 {
            r == 1
        } else {
            is_tau(moduli_of(gname@), Fold::Restricted(h), false, r as nat)
        },
{
    tau_restricted::<Vec<GElem>>(&group_of(gname), h)
}

/// `tau_restricted_interval` on the list representation.
pub fn tau_restricted_interval_exact(gname: &[u32], ia: u32, ib: u32) -> (r: u32)
    requires
        moduli_ok(gname@),
    ensures
        is_tau(moduli_of(gname@), Fold::RestrictedInterval(ia, ib), false, r as nat),
{
    tau_restricted_interval::<Vec<GElem>>(&group_of(gname), (ia, ib))
}

/// `tau_signed_restricted` on the list representation.
pub fn tau_signed_restricted_exact(gname: &[u32], h: u32) -> (r: u32)
    requires
        moduli_ok(gname@),
    ensures
        is_tau(moduli_of(gname@), Fold::SignedRestricted(h), false, r as nat),
{
    tau_signed_restricted::<Vec<GElem>>(&group_of(gname), h)
}

/// `tau_signed_restricted_interval` on the list representation.
pub fn tau_signed_restricted_interval_exact(gname: &[u32], ia: u32, ib: u32) -> (r: u32)
    requires
        moduli_ok(gname@),
    ensures
        is_tau(moduli_of(gname@), Fold::SignedRestrictedInterval(ia, ib), false, r as nat),
{
    tau_signed_restricted_interval::<Vec<GElem>>(&group_of(gname), (ia, ib))
}

/// `mu` on the list representation.
pub fn mu_exact(gname: &[u32], k: u32, l: u32) -> (r: u32)
    requires
        moduli_ok(gname@),
    ensures
        k == l ==> r == 0,
        k != l ==> is_mu(moduli_of(gname@), Fold::Plain(k), Fold::Plain(l), 1, r as nat),
{
    mu::<Vec<GElem>>(&group_of(gname), k, l)
}

/// `mu_signed` on the list representation.
pub fn mu_signed_exact(gname: &[u32], k: u32, l: u32) -> (r: u32)
    requires
        moduli_ok(gname@),
    ensures
        k == l ==> r == 0,
        k != l ==> is_mu(moduli_of(gname@), Fold::Signed(k), Fold::Signed(l), 1, r as nat),
{
    mu_signed::<Vec<GElem>>(&group_of(gname), k, l)
}

/// `mu_restricted` on the list representation.
pub fn mu_restricted_exact(gname: &[u32], k: u32, l: u32) -> (r: u32)
    requires
        moduli_ok(gname@),
    ensures
        k == l ==> r == 0,
        k != l && (k > group_size(moduli_of(gname@)) || l > group_size(moduli_of(gname@))) ==> r
            == group_size(moduli_of(gname@)),
        k != l && k <= group_size(moduli_of(gname@)) && l <= group_size(moduli_of(gname@))
            ==> is_mu(moduli_of(gname@), Fold::Restricted(k), Fold::Restricted(l), 1, r as nat),
{
    mu_restricted::<Vec<GElem>>(&group_of(gname), k, l)
}

/// `mu_signed_restricted` on the list representation.
pub fn mu_signed_restricted_exact(gname: &[u32], k: u32, l: u32) -> (r: u32)
    requires
        moduli_ok(gname@),
    ensures
        k == l ==> r == 0,
        k != l && (k > group_size(moduli_of(gname@)) || l > group_size(moduli_of(gname@))) ==> r
            == group_size(moduli_of(gname@)),
        k != l && k <= group_size(moduli_of(gname@)) && l <= group_size(moduli_of(gname@))
            ==> is_mu(moduli_of(gname@), Fold::SignedRestricted(k), Fold::SignedRestricted(l), 1, r as nat),
{
    mu_signed_restricted::<Vec<GElem>>(&group_of(gname), k, l)
}

} // verus!
