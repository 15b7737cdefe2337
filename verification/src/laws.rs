//! What holds of the library as a whole: the two representations agree, the
//! walk through the subsets is complete, and the sumsets behave at their
//! borders.

use crate::comb::chapter_a::{
    nu, nu_interval, nu_restricted, nu_restricted_interval, nu_signed, nu_signed_interval,
    nu_signed_restricted, nu_signed_restricted_interval,
};
use crate::comb::chapter_b::{
    lemma_least_spanning_unique, phi, phi_interval, phi_restricted, phi_restricted_interval,
    phi_signed, phi_signed_interval, phi_signed_restricted, phi_signed_restricted_interval,
};
use crate::comb::chapter_c::{
    lemma_sigma_unique, sigma, sigma_interval, sigma_restricted, sigma_restricted_interval,
    sigma_signed, sigma_signed_interval, sigma_signed_restricted,
    sigma_signed_restricted_interval,
};
use crate::comb::chapter_d::{
    rho, rho_interval, rho_restricted, rho_restricted_interval, rho_signed, rho_signed_interval,
    rho_signed_restricted, rho_signed_restricted_interval,
};
use crate::comb::chapter_e::{
    chi, chi_interval, chi_restricted, chi_restricted_interval, chi_signed, chi_signed_interval,
    chi_signed_restricted, chi_signed_restricted_interval, lemma_chi_unique,
};
use crate::comb::chapter_f::{
    lemma_tau_unique, tau, tau_interval, tau_restricted, tau_restricted_interval,
    tau_restricted_known, tau_signed, tau_signed_interval, tau_signed_restricted,
    tau_signed_restricted_interval,
};
use crate::comb::chapter_g::{
    lemma_mu_unique, mu, mu_restricted, mu_restricted_start, mu_signed, mu_signed_restricted,
};
use crate::comb::search::{lemma_largest_unique, lemma_smallest_unique, Fold};
use crate::model::{group_size, zero_elem};
use crate::setlike::{Group, HFolds, SetLike};
use crate::subsets::{
    binomial, is_subset_of_size, lemma_subsets_complete, lemma_subsets_distinct,
    lemma_subsets_ends, lemma_subsets_shape, span, subsets_of_size,
};
use crate::sumset::{lemma_hfold_zero, lemma_restricted_beyond_size};
use vstd::prelude::*;

verus! {

/// The walk through the subsets of `k` residues below `n` visits `binomial(n,
/// k)` sets, each of them a set of `k` residues below `n`, none of them twice
/// and every such set once, the set of the residues below `k` first.
pub proof fn lemma_enumeration(n: nat, k: nat)
    ensures
        subsets_of_size(n, k).len() == binomial(n, k),
        forall|j: int|
            0 <= j < subsets_of_size(n, k).len() ==> is_subset_of_size(
                #[trigger] subsets_of_size(n, k)[j],
                0,
                n,
                k,
            ),
        forall|i: int, j: int|
            0 <= i < j < subsets_of_size(n, k).len() ==> #[trigger] subsets_of_size(n, k)[i]
                != #[trigger] subsets_of_size(n, k)[j],
        forall|s: Set<nat>|
            is_subset_of_size(s, 0, n, k) ==> exists|j: int|
                0 <= j < subsets_of_size(n, k).len() && #[trigger] subsets_of_size(n, k)[j] == s,
        k <= n ==> subsets_of_size(n, k)[0] == span(0, k),
{
    lemma_subsets_shape(0, n, k);
    assert forall|i: int, j: int| 0 <= i < j < subsets_of_size(n, k).len() implies #[trigger] subsets_of_size(
        n,
        k,
    )[i] != #[trigger] subsets_of_size(n, k)[j] by {
        lemma_subsets_distinct(0, n, k, i, j);
    }
    assert forall|s: Set<nat>| is_subset_of_size(s, 0, n, k) implies exists|j: int|
        0 <= j < subsets_of_size(n, k).len() && #[trigger] subsets_of_size(n, k)[j] == s by {
        let j = lemma_subsets_complete(0, n, k, s);
        assert(subsets_of_size(n, k)[j] == s);
    }
    if k <= n {
        lemma_subsets_ends(0, n, k);
    }
}

/// Two representations of the same subset of the same group give, by
/// `hfold_sumset`, representations of the same set.
pub proof fn lemma_hfold_sumset_agrees<S1: HFolds, S2: HFolds>(
    g1: S1::Group,
    g2: S2::Group,
    a1: S1,
    a2: S2,
    h: u32,
    r1: S1,
    r2: S2,
)
    requires
        g1.moduli() == g2.moduli(),
        a1.model() == a2.model(),
        call_ensures(S1::hfold_sumset, (&a1, h, &g1), r1),
        call_ensures(S2::hfold_sumset, (&a2, h, &g2), r2),
    ensures
        r1.model() == r2.model(),
{
}

/// Two representations of the same subset of the same group give, by
/// `hfold_interval_sumset`, representations of the same set.
pub proof fn lemma_hfold_interval_sumset_agrees<S1: HFolds, S2: HFolds>(
    g1: S1::Group,
    g2: S2::Group,
    a1: S1,
    a2: S2,
    hs: (u32, u32),
    r1: S1,
    r2: S2,
)
    requires
        g1.moduli() == g2.moduli(),
        a1.model() == a2.model(),
        call_ensures(S1::hfold_interval_sumset, (&a1, hs, &g1), r1),
        call_ensures(S2::hfold_interval_sumset, (&a2, hs, &g2), r2),
    ensures
        r1.model() == r2.model(),
{
}

/// Two representations of the same subset of the same group give, by
/// `hfold_restricted_sumset`, representations of the same set.
pub proof fn lemma_hfold_restricted_sumset_agrees<S1: HFolds, S2: HFolds>(
    g1: S1::Group,
    g2: S2::Group,
    a1: S1,
    a2: S2,
    h: u32,
    r1: S1,
    r2: S2,
)
    requires
        g1.moduli() == g2.moduli(),
        a1.model() == a2.model(),
        call_ensures(S1::hfold_restricted_sumset, (&a1, h, &g1), r1),
        call_ensures(S2::hfold_restricted_sumset, (&a2, h, &g2), r2),
    ensures
        r1.model() == r2.model(),
{
}

/// Two representations of the same subset of the same group give, by
/// `hfold_interval_restricted_sumset`, representations of the same set.
pub proof fn lemma_hfold_interval_restricted_sumset_agrees<S1: HFolds, S2: HFolds>(
    g1: S1::Group,
    g2: S2::Group,
    a1: S1,
    a2: S2,
    hs: (u32, u32),
    r1: S1,
    r2: S2,
)
    requires
        g1.moduli() == g2.moduli(),
        a1.model() == a2.model(),
        call_ensures(S1::hfold_interval_restricted_sumset, (&a1, hs, &g1), r1),
        call_ensures(S2::hfold_interval_restricted_sumset, (&a2, hs, &g2), r2),
    ensures
        r1.model() == r2.model(),
{
}

/// Two representations of the same subset of the same group give, by
/// `hfold_signed_sumset`, representations of the same set.
pub proof fn lemma_hfold_signed_sumset_agrees<S1: HFolds, S2: HFolds>(
    g1: S1::Group,
    g2: S2::Group,
    a1: S1,
    a2: S2,
    h: u32,
    r1: S1,
    r2: S2,
)
    requires
        g1.moduli() == g2.moduli(),
        a1.model() == a2.model(),
        call_ensures(S1::hfold_signed_sumset, (&a1, h, &g1), r1),
        call_ensures(S2::hfold_signed_sumset, (&a2, h, &g2), r2),
    ensures
        r1.model() == r2.model(),
{
}

/// Two representations of the same subset of the same group give, by
/// `hfold_interval_signed_sumset`, representations of the same set.
pub proof fn lemma_hfold_interval_signed_sumset_agrees<S1: HFolds, S2: HFolds>(
    g1: S1::Group,
    g2: S2::Group,
    a1: S1,
    a2: S2,
    hs: (u32, u32),
    r1: S1,
    r2: S2,
)
    requires
        g1.moduli() == g2.moduli(),
        a1.model() == a2.model(),
        call_ensures(S1::hfold_interval_signed_sumset, (&a1, hs, &g1), r1),
        call_ensures(S2::hfold_interval_signed_sumset, (&a2, hs, &g2), r2),
    ensures
        r1.model() == r2.model(),
{
}

/// Two representations of the same subset of the same group give, by
/// `hfold_restricted_signed_sumset`, representations of the same set.
pub proof fn lemma_hfold_restricted_signed_sumset_agrees<S1: HFolds, S2: HFolds>(
    g1: S1::Group,
    g2: S2::Group,
    a1: S1,
    a2: S2,
    h: u32,
    r1: S1,
    r2: S2,
)
    requires
        g1.moduli() == g2.moduli(),
        a1.model() == a2.model(),
        call_ensures(S1::hfold_restricted_signed_sumset, (&a1, h, &g1), r1),
        call_ensures(S2::hfold_restricted_signed_sumset, (&a2, h, &g2), r2),
    ensures
        r1.model() == r2.model(),
{
}

/// Two representations of the same subset of the same group give, by
/// `hfold_interval_restricted_signed_sumset`, representations of the same set.
pub proof fn lemma_hfold_interval_restricted_signed_sumset_agrees<S1: HFolds, S2: HFolds>(
    g1: S1::Group,
    g2: S2::Group,
    a1: S1,
    a2: S2,
    hs: (u32, u32),
    r1: S1,
    r2: S2,
)
    requires
        g1.moduli() == g2.moduli(),
        a1.model() == a2.model(),
        call_ensures(S1::hfold_interval_restricted_signed_sumset, (&a1, hs, &g1), r1),
        call_ensures(S2::hfold_interval_restricted_signed_sumset, (&a2, hs, &g2), r2),
    ensures
        r1.model() == r2.model(),
{
}

/// For no term at all, `hfold_sumset` gives the set that holds the identity
/// alone.
pub proof fn lemma_hfold_sumset_of_none<S: HFolds>(g: S::Group, a: S, r: S)
    requires
        call_ensures(S::hfold_sumset, (&a, 0u32, &g), r),
    ensures
        r.model() == Set::<Seq<nat>>::empty().insert(zero_elem(g.moduli())),
{
    lemma_hfold_zero(a.model(), g.moduli(), false, false);
}

/// For no term at all, `hfold_signed_sumset` gives the set that holds the
/// identity alone.
pub proof fn lemma_hfold_signed_sumset_of_none<S: HFolds>(g: S::Group, a: S, r: S)
    requires
        call_ensures(S::hfold_signed_sumset, (&a, 0u32, &g), r),
    ensures
        r.model() == Set::<Seq<nat>>::empty().insert(zero_elem(g.moduli())),
{
    lemma_hfold_zero(a.model(), g.moduli(), false, true);
}

/// For no term at all, `hfold_restricted_sumset` gives the set that holds the
/// identity alone.
pub proof fn lemma_hfold_restricted_sumset_of_none<S: HFolds>(g: S::Group, a: S, r: S)
    requires
        call_ensures(S::hfold_restricted_sumset, (&a, 0u32, &g), r),
    ensures
        r.model() == Set::<Seq<nat>>::empty().insert(zero_elem(g.moduli())),
{
    lemma_hfold_zero(a.model(), g.moduli(), true, false);
}

/// For no term at all, `hfold_restricted_signed_sumset` gives the set that
/// holds the identity alone.
pub proof fn lemma_hfold_restricted_signed_sumset_of_none<S: HFolds>(g: S::Group, a: S, r: S)
    requires
        call_ensures(S::hfold_restricted_signed_sumset, (&a, 0u32, &g), r),
    ensures
        r.model() == Set::<Seq<nat>>::empty().insert(zero_elem(g.moduli())),
{
    lemma_hfold_zero(a.model(), g.moduli(), true, true);
}

/// For more terms than the set has members, `hfold_restricted_sumset` gives
/// the empty set.
pub proof fn lemma_hfold_restricted_sumset_beyond_size<S: HFolds>(g: S::Group, a: S, h: u32, r: S)
    requires
        a.model().finite(),
        h > a.model().len(),
        call_ensures(S::hfold_restricted_sumset, (&a, h, &g), r),
    ensures
        r.model() == Set::<Seq<nat>>::empty(),
{
    lemma_restricted_beyond_size(a.model(), h as nat, g.moduli(), false);
}

/// For more terms than the set has members, `hfold_restricted_signed_sumset`
/// gives the empty set.
pub proof fn lemma_hfold_restricted_signed_sumset_beyond_size<S: HFolds>(g: S::Group, a: S, h: u32, r: S)
    requires
        a.model().finite(),
        h > a.model().len(),
        call_ensures(S::hfold_restricted_signed_sumset, (&a, h, &g), r),
    ensures
        r.model() == Set::<Seq<nat>>::empty(),
{
    lemma_restricted_beyond_size(a.model(), h as nat, g.moduli(), true);
}

/// Whatever the representation, `nu` gives the same value for the same group.
pub proof fn lemma_nu_agrees<S1: SetLike, S2: SetLike>(
    g1: S1::Group,
    g2: S2::Group,
    m: u32,
    h: u32,
    r1: u32,
    r2: u32,
)
    requires
        g1.moduli() == g2.moduli(),
        call_ensures(nu::<S1>, (&g1, m, h), r1),
        call_ensures(nu::<S2>, (&g2, m, h), r2),
    ensures
        r1 == r2,
{
    lemma_largest_unique(g1.moduli(), m as nat, Fold::Plain(h), r1 as nat, r2 as nat);
}

/// Whatever the representation, `nu_interval` gives the same value for the
/// same group.
pub proof fn lemma_nu_interval_agrees<S1: SetLike, S2: SetLike>(
    g1: S1::Group,
    g2: S2::Group,
    m: u32,
    hs: (u32, u32),
    r1: u32,
    r2: u32,
)
    requires
        g1.moduli() == g2.moduli(),
        call_ensures(nu_interval::<S1>, (&g1, m, hs), r1),
        call_ensures(nu_interval::<S2>, (&g2, m, hs), r2),
    ensures
        r1 == r2,
{
    lemma_largest_unique(g1.moduli(), m as nat, Fold::PlainInterval(hs.0, hs.1), r1 as nat, r2 as nat);
}

/// Whatever the representation, `nu_signed` gives the same value for the same
/// group.
pub proof fn lemma_nu_signed_agrees<S1: SetLike, S2: SetLike>(
    g1: S1::Group,
    g2: S2::Group,
    m: u32,
    h: u32,
    r1: u32,
    r2: u32,
)
    requires
        g1.moduli() == g2.moduli(),
        call_ensures(nu_signed::<S1>, (&g1, m, h), r1),
        call_ensures(nu_signed::<S2>, (&g2, m, h), r2),
    ensures
        r1 == r2,
{
    lemma_largest_unique(g1.moduli(), m as nat, Fold::Signed(h), r1 as nat, r2 as nat);
}

/// Whatever the representation, `nu_signed_interval` gives the same value for
/// the same group.
pub proof fn lemma_nu_signed_interval_agrees<S1: SetLike, S2: SetLike>(
    g1: S1::Group,
    g2: S2::Group,
    m: u32,
    hs: (u32, u32),
    r1: u32,
    r2: u32,
)
    requires
        g1.moduli() == g2.moduli(),
        call_ensures(nu_signed_interval::<S1>, (&g1, m, hs), r1),
        call_ensures(nu_signed_interval::<S2>, (&g2, m, hs), r2),
    ensures
        r1 == r2,
{
    lemma_largest_unique(g1.moduli(), m as nat, Fold::SignedInterval(hs.0, hs.1), r1 as nat, r2 as nat);
}

/// Whatever the representation, `nu_restricted` gives the same value for the
/// same group.
pub proof fn lemma_nu_restricted_agrees<S1: SetLike, S2: SetLike>(
    g1: S1::Group,
    g2: S2::Group,
    m: u32,
    h: u32,
    r1: u32,
    r2: u32,
)
    requires
        g1.moduli() == g2.moduli(),
        call_ensures(nu_restricted::<S1>, (&g1, m, h), r1),
        call_ensures(nu_restricted::<S2>, (&g2, m, h), r2),
    ensures
        r1 == r2,
{
    lemma_largest_unique(g1.moduli(), m as nat, Fold::Restricted(h), r1 as nat, r2 as nat);
}

/// Whatever the representation, `nu_restricted_interval` gives the same value
/// for the same group.
pub proof fn lemma_nu_restricted_interval_agrees<S1: SetLike, S2: SetLike>(
    g1: S1::Group,
    g2: S2::Group,
    m: u32,
    hs: (u32, u32),
    r1: u32,
    r2: u32,
)
    requires
        g1.moduli() == g2.moduli(),
        call_ensures(nu_restricted_interval::<S1>, (&g1, m, hs), r1),
        call_ensures(nu_restricted_interval::<S2>, (&g2, m, hs), r2),
    ensures
        r1 == r2,
{
    lemma_largest_unique(g1.moduli(), m as nat, Fold::RestrictedInterval(hs.0, hs.1), r1 as nat, r2 as nat);
}

/// Whatever the representation, `nu_signed_restricted` gives the same value
/// for the same group.
pub proof fn lemma_nu_signed_restricted_agrees<S1: SetLike, S2: SetLike>(
    g1: S1::Group,
    g2: S2::Group,
    m: u32,
    h: u32,
    r1: u32,
    r2: u32,
)
    requires
        g1.moduli() == g2.moduli(),
        call_ensures(nu_signed_restricted::<S1>, (&g1, m, h), r1),
        call_ensures(nu_signed_restricted::<S2>, (&g2, m, h), r2),
    ensures
        r1 == r2,
{
    lemma_largest_unique(g1.moduli(), m as nat, Fold::SignedRestricted(h), r1 as nat, r2 as nat);
}

/// Whatever the representation, `nu_signed_restricted_interval` gives the same
/// value for the same group.
pub proof fn lemma_nu_signed_restricted_interval_agrees<S1: SetLike, S2: SetLike>(
    g1: S1::Group,
    g2: S2::Group,
    m: u32,
    hs: (u32, u32),
    r1: u32,
    r2: u32,
)
    requires
        g1.moduli() == g2.moduli(),
        call_ensures(nu_signed_restricted_interval::<S1>, (&g1, m, hs), r1),
        call_ensures(nu_signed_restricted_interval::<S2>, (&g2, m, hs), r2),
    ensures
        r1 == r2,
{
    lemma_largest_unique(g1.moduli(), m as nat, Fold::SignedRestrictedInterval(hs.0, hs.1), r1 as nat, r2 as nat);
}

/// Whatever the representation, `phi` gives the same value for the same group.
pub proof fn lemma_phi_agrees<S1: SetLike, S2: SetLike>(
    g1: S1::Group,
    g2: S2::Group,
    h: u32,
    r1: Option<u32>,
    r2: Option<u32>,
)
    requires
        g1.moduli() == g2.moduli(),
        call_ensures(phi::<S1>, (&g1, h), r1),
        call_ensures(phi::<S2>, (&g2, h), r2),
    ensures
        r1 == r2,
{
    if group_size(g1.moduli()) != 1 && h != 1 {
        let f = Fold::PlainInterval(0, h);
        let first = match r1 {
            Some(v) => Some((v - 1) as u32),
            None => None,
        };
        let second = match r2 {
            Some(v) => Some((v - 1) as u32),
            None => None,
        };
        lemma_least_spanning_unique(g1.moduli(), f, 1, first, second);
    }
}

/// Whatever the representation, `phi_interval` gives the same value for the
/// same group.
pub proof fn lemma_phi_interval_agrees<S1: SetLike, S2: SetLike>(
    g1: S1::Group,
    g2: S2::Group,
    hs: (u32, u32),
    r1: Option<u32>,
    r2: Option<u32>,
)
    requires
        g1.moduli() == g2.moduli(),
        call_ensures(phi_interval::<S1>, (&g1, hs), r1),
        call_ensures(phi_interval::<S2>, (&g2, hs), r2),
    ensures
        r1 == r2,
{
    lemma_least_spanning_unique(g1.moduli(), Fold::PlainInterval(hs.0, hs.1), 1, r1, r2);
}

/// Whatever the representation, `phi_signed` gives the same value for the same
/// group.
pub proof fn lemma_phi_signed_agrees<S1: SetLike, S2: SetLike>(
    g1: S1::Group,
    g2: S2::Group,
    h: u32,
    r1: Option<u32>,
    r2: Option<u32>,
)
    requires
        g1.moduli() == g2.moduli(),
        call_ensures(phi_signed::<S1>, (&g1, h), r1),
        call_ensures(phi_signed::<S2>, (&g2, h), r2),
    ensures
        r1 == r2,
{
    if group_size(g1.moduli()) != 1 {
        lemma_least_spanning_unique(g1.moduli(), Fold::Signed(h), 2, r1, r2);
    }
}

/// Whatever the representation, `phi_signed_interval` gives the same value for
/// the same group.
pub proof fn lemma_phi_signed_interval_agrees<S1: SetLike, S2: SetLike>(
    g1: S1::Group,
    g2: S2::Group,
    hs: (u32, u32),
    r1: Option<u32>,
    r2: Option<u32>,
)
    requires
        g1.moduli() == g2.moduli(),
        call_ensures(phi_signed_interval::<S1>, (&g1, hs), r1),
        call_ensures(phi_signed_interval::<S2>, (&g2, hs), r2),
    ensures
        r1 == r2,
{
    lemma_least_spanning_unique(g1.moduli(), Fold::SignedInterval(hs.0, hs.1), 1, r1, r2);
}

/// Whatever the representation, `phi_restricted` gives the same value for the
/// same group.
pub proof fn lemma_phi_restricted_agrees<S1: SetLike, S2: SetLike>(
    g1: S1::Group,
    g2: S2::Group,
    h: u32,
    r1: Option<u32>,
    r2: Option<u32>,
)
    requires
        g1.moduli() == g2.moduli(),
        call_ensures(phi_restricted::<S1>, (&g1, h), r1),
        call_ensures(phi_restricted::<S2>, (&g2, h), r2),
    ensures
        r1 == r2,
{
    if group_size(g1.moduli()) != 1 && h != 1 && group_size(g1.moduli()) > h {
        lemma_least_spanning_unique(g1.moduli(), Fold::Restricted(h), 2, r1, r2);
    }
}

/// Whatever the representation, `phi_restricted_interval` gives the same value
/// for the same group.
pub proof fn lemma_phi_restricted_interval_agrees<S1: SetLike, S2: SetLike>(
    g1: S1::Group,
    g2: S2::Group,
    hs: (u32, u32),
    r1: Option<u32>,
    r2: Option<u32>,
)
    requires
        g1.moduli() == g2.moduli(),
        call_ensures(phi_restricted_interval::<S1>, (&g1, hs), r1),
        call_ensures(phi_restricted_interval::<S2>, (&g2, hs), r2),
    ensures
        r1 == r2,
{
    lemma_least_spanning_unique(g1.moduli(), Fold::RestrictedInterval(hs.0, hs.1), 1, r1, r2);
}

/// Whatever the representation, `phi_signed_restricted` gives the same value
/// for the same group.
pub proof fn lemma_phi_signed_restricted_agrees<S1: SetLike, S2: SetLike>(
    g1: S1::Group,
    g2: S2::Group,
    h: u32,
    r1: Option<u32>,
    r2: Option<u32>,
)
    requires
        g1.moduli() == g2.moduli(),
        call_ensures(phi_signed_restricted::<S1>, (&g1, h), r1),
        call_ensures(phi_signed_restricted::<S2>, (&g2, h), r2),
    ensures
        r1 == r2,
{
    if group_size(g1.moduli()) > h {
        lemma_least_spanning_unique(g1.moduli(), Fold::SignedRestricted(h), 2, r1, r2);
    }
}

/// Whatever the representation, `phi_signed_restricted_interval` gives the
/// same value for the same group.
pub proof fn lemma_phi_signed_restricted_interval_agrees<S1: SetLike, S2: SetLike>(
    g1: S1::Group,
    g2: S2::Group,
    hs: (u32, u32),
    r1: Option<u32>,
    r2: Option<u32>,
)
    requires
        g1.moduli() == g2.moduli(),
        call_ensures(phi_signed_restricted_interval::<S1>, (&g1, hs), r1),
        call_ensures(phi_signed_restricted_interval::<S2>, (&g2, hs), r2),
    ensures
        r1 == r2,
{
    lemma_least_spanning_unique(g1.moduli(), Fold::SignedRestrictedInterval(hs.0, hs.1), 1, r1, r2);
}

/// Whatever the representation, `sigma` gives the same value for the same
/// group.
pub proof fn lemma_sigma_agrees<S1: SetLike, S2: SetLike>(
    g1: S1::Group,
    g2: S2::Group,
    h: u32,
    r1: u32,
    r2: u32,
)
    requires
        g1.moduli() == g2.moduli(),
        call_ensures(sigma::<S1>, (&g1, h), r1),
        call_ensures(sigma::<S2>, (&g2, h), r2),
    ensures
        r1 == r2,
{
    lemma_sigma_unique(g1.moduli(), Fold::Plain(h), r1 as nat, r2 as nat);
}

/// Whatever the representation, `sigma_interval` gives the same value for the
/// same group.
pub proof fn lemma_sigma_interval_agrees<S1: SetLike, S2: SetLike>(
    g1: S1::Group,
    g2: S2::Group,
    s: u32,
    r1: u32,
    r2: u32,
)
    requires
        g1.moduli() == g2.moduli(),
        call_ensures(sigma_interval::<S1>, (&g1, s), r1),
        call_ensures(sigma_interval::<S2>, (&g2, s), r2),
    ensures
        r1 == r2,
{
    lemma_sigma_unique(g1.moduli(), Fold::PlainInterval(0, s), r1 as nat, r2 as nat);
}

/// Whatever the representation, `sigma_signed` gives the same value for the
/// same group.
pub proof fn lemma_sigma_signed_agrees<S1: SetLike, S2: SetLike>(
    g1: S1::Group,
    g2: S2::Group,
    h: u32,
    r1: u32,
    r2: u32,
)
    requires
        g1.moduli() == g2.moduli(),
        call_ensures(sigma_signed::<S1>, (&g1, h), r1),
        call_ensures(sigma_signed::<S2>, (&g2, h), r2),
    ensures
        r1 == r2,
{
    lemma_sigma_unique(g1.moduli(), Fold::Signed(h), r1 as nat, r2 as nat);
}

/// Whatever the representation, `sigma_signed_interval` gives the same value
/// for the same group.
pub proof fn lemma_sigma_signed_interval_agrees<S1: SetLike, S2: SetLike>(
    g1: S1::Group,
    g2: S2::Group,
    s: u32,
    r1: u32,
    r2: u32,
)
    requires
        g1.moduli() == g2.moduli(),
        call_ensures(sigma_signed_interval::<S1>, (&g1, s), r1),
        call_ensures(sigma_signed_interval::<S2>, (&g2, s), r2),
    ensures
        r1 == r2,
{
    lemma_sigma_unique(g1.moduli(), Fold::SignedInterval(0, s), r1 as nat, r2 as nat);
}

/// Whatever the representation, `sigma_restricted` gives the same value for
/// the same group.
pub proof fn lemma_sigma_restricted_agrees<S1: SetLike, S2: SetLike>(
    g1: S1::Group,
    g2: S2::Group,
    h: u32,
    r1: u32,
    r2: u32,
)
    requires
        g1.moduli() == g2.moduli(),
        call_ensures(sigma_restricted::<S1>, (&g1, h), r1),
        call_ensures(sigma_restricted::<S2>, (&g2, h), r2),
    ensures
        r1 == r2,
{
    lemma_sigma_unique(g1.moduli(), Fold::Restricted(h), r1 as nat, r2 as nat);
}

/// Whatever the representation, `sigma_restricted_interval` gives the same
/// value for the same group.
pub proof fn lemma_sigma_restricted_interval_agrees<S1: SetLike, S2: SetLike>(
    g1: S1::Group,
    g2: S2::Group,
    s: u32,
    r1: u32,
    r2: u32,
)
    requires
        g1.moduli() == g2.moduli(),
        call_ensures(sigma_restricted_interval::<S1>, (&g1, s), r1),
        call_ensures(sigma_restricted_interval::<S2>, (&g2, s), r2),
    ensures
        r1 == r2,
{
    lemma_sigma_unique(g1.moduli(), Fold::RestrictedInterval(0, s), r1 as nat, r2 as nat);
}

/// Whatever the representation, `sigma_signed_restricted` gives the same value
/// for the same group.
pub proof fn lemma_sigma_signed_restricted_agrees<S1: SetLike, S2: SetLike>(
    g1: S1::Group,
    g2: S2::Group,
    h: u32,
    r1: u32,
    r2: u32,
)
    requires
        g1.moduli() == g2.moduli(),
        call_ensures(sigma_signed_restricted::<S1>, (&g1, h), r1),
        call_ensures(sigma_signed_restricted::<S2>, (&g2, h), r2),
    ensures
        r1 == r2,
{
    lemma_sigma_unique(g1.moduli(), Fold::SignedRestricted(h), r1 as nat, r2 as nat);
}

/// Whatever the representation, `sigma_signed_restricted_interval` gives the
/// same value for the same group.
pub proof fn lemma_sigma_signed_restricted_interval_agrees<S1: SetLike, S2: SetLike>(
    g1: S1::Group,
    g2: S2::Group,
    s: u32,
    r1: u32,
    r2: u32,
)
    requires
        g1.moduli() == g2.moduli(),
        call_ensures(sigma_signed_restricted_interval::<S1>, (&g1, s), r1),
        call_ensures(sigma_signed_restricted_interval::<S2>, (&g2, s), r2),
    ensures
        r1 == r2,
{
    lemma_sigma_unique(g1.moduli(), Fold::SignedRestrictedInterval(0, s), r1 as nat, r2 as nat);
}

/// Whatever the representation, `rho` gives the same value for the same group.
pub proof fn lemma_rho_agrees<S1: SetLike, S2: SetLike>(
    g1: S1::Group,
    g2: S2::Group,
    m: u32,
    h: u32,
    r1: u32,
    r2: u32,
)
    requires
        g1.moduli() == g2.moduli(),
        call_ensures(rho::<S1>, (&g1, m, h), r1),
        call_ensures(rho::<S2>, (&g2, m, h), r2),
    ensures
        r1 == r2,
{
    lemma_smallest_unique(g1.moduli(), m as nat, Fold::Plain(h), r1 as nat, r2 as nat);
}

/// Whatever the representation, `rho_interval` gives the same value for the
/// same group.
pub proof fn lemma_rho_interval_agrees<S1: SetLike, S2: SetLike>(
    g1: S1::Group,
    g2: S2::Group,
    m: u32,
    hs: (u32, u32),
    r1: u32,
    r2: u32,
)
    requires
        g1.moduli() == g2.moduli(),
        call_ensures(rho_interval::<S1>, (&g1, m, hs), r1),
        call_ensures(rho_interval::<S2>, (&g2, m, hs), r2),
    ensures
        r1 == r2,
{
    lemma_smallest_unique(g1.moduli(), m as nat, Fold::PlainInterval(hs.0, hs.1), r1 as nat, r2 as nat);
}

/// Whatever the representation, `rho_signed` gives the same value for the same
/// group.
pub proof fn lemma_rho_signed_agrees<S1: SetLike, S2: SetLike>(
    g1: S1::Group,
    g2: S2::Group,
    m: u32,
    h: u32,
    r1: u32,
    r2: u32,
)
    requires
        g1.moduli() == g2.moduli(),
        call_ensures(rho_signed::<S1>, (&g1, m, h), r1),
        call_ensures(rho_signed::<S2>, (&g2, m, h), r2),
    ensures
        r1 == r2,
{
    lemma_smallest_unique(g1.moduli(), m as nat, Fold::Signed(h), r1 as nat, r2 as nat);
}

/// Whatever the representation, `rho_signed_interval` gives the same value for
/// the same group.
pub proof fn lemma_rho_signed_interval_agrees<S1: SetLike, S2: SetLike>(
    g1: S1::Group,
    g2: S2::Group,
    m: u32,
    hs: (u32, u32),
    r1: u32,
    r2: u32,
)
    requires
        g1.moduli() == g2.moduli(),
        call_ensures(rho_signed_interval::<S1>, (&g1, m, hs), r1),
        call_ensures(rho_signed_interval::<S2>, (&g2, m, hs), r2),
    ensures
        r1 == r2,
{
    lemma_smallest_unique(g1.moduli(), m as nat, Fold::SignedInterval(hs.0, hs.1), r1 as nat, r2 as nat);
}

/// Whatever the representation, `rho_restricted` gives the same value for the
/// same group.
pub proof fn lemma_rho_restricted_agrees<S1: SetLike, S2: SetLike>(
    g1: S1::Group,
    g2: S2::Group,
    m: u32,
    h: u32,
    r1: u32,
    r2: u32,
)
    requires
        g1.moduli() == g2.moduli(),
        call_ensures(rho_restricted::<S1>, (&g1, m, h), r1),
        call_ensures(rho_restricted::<S2>, (&g2, m, h), r2),
    ensures
        r1 == r2,
{
    lemma_smallest_unique(g1.moduli(), m as nat, Fold::Restricted(h), r1 as nat, r2 as nat);
}

/// Whatever the representation, `rho_restricted_interval` gives the same value
/// for the same group.
pub proof fn lemma_rho_restricted_interval_agrees<S1: SetLike, S2: SetLike>(
    g1: S1::Group,
    g2: S2::Group,
    m: u32,
    hs: (u32, u32),
    r1: u32,
    r2: u32,
)
    requires
        g1.moduli() == g2.moduli(),
        call_ensures(rho_restricted_interval::<S1>, (&g1, m, hs), r1),
        call_ensures(rho_restricted_interval::<S2>, (&g2, m, hs), r2),
    ensures
        r1 == r2,
{
    lemma_smallest_unique(g1.moduli(), m as nat, Fold::RestrictedInterval(hs.0, hs.1), r1 as nat, r2 as nat);
}

/// Whatever the representation, `rho_signed_restricted` gives the same value
/// for the same group.
pub proof fn lemma_rho_signed_restricted_agrees<S1: SetLike, S2: SetLike>(
    g1: S1::Group,
    g2: S2::Group,
    m: u32,
    h: u32,
    r1: u32,
    r2: u32,
)
    requires
        g1.moduli() == g2.moduli(),
        call_ensures(rho_signed_restricted::<S1>, (&g1, m, h), r1),
        call_ensures(rho_signed_restricted::<S2>, (&g2, m, h), r2),
    ensures
        r1 == r2,
{
    lemma_smallest_unique(g1.moduli(), m as nat, Fold::SignedRestricted(h), r1 as nat, r2 as nat);
}

/// Whatever the representation, `rho_signed_restricted_interval` gives the
/// same value for the same group.
pub proof fn lemma_rho_signed_restricted_interval_agrees<S1: SetLike, S2: SetLike>(
    g1: S1::Group,
    g2: S2::Group,
    m: u32,
    hs: (u32, u32),
    r1: u32,
    r2: u32,
)
    requires
        g1.moduli() == g2.moduli(),
        call_ensures(rho_signed_restricted_interval::<S1>, (&g1, m, hs), r1),
        call_ensures(rho_signed_restricted_interval::<S2>, (&g2, m, hs), r2),
    ensures
        r1 == r2,
{
    lemma_smallest_unique(g1.moduli(), m as nat, Fold::SignedRestrictedInterval(hs.0, hs.1), r1 as nat, r2 as nat);
}

/// Whatever the representation, `chi` gives the same value for the same group.
pub proof fn lemma_chi_agrees<S1: SetLike, S2: SetLike>(
    g1: S1::Group,
    g2: S2::Group,
    h: u32,
    r1: u32,
    r2: u32,
)
    requires
        g1.moduli() == g2.moduli(),
        call_ensures(chi::<S1>, (&g1, h), r1),
        call_ensures(chi::<S2>, (&g2, h), r2),
    ensures
        r1 == r2,
{
    lemma_chi_unique(g1.moduli(), Fold::Plain(h), r1 as nat, r2 as nat);
}

/// Whatever the representation, `chi_interval` gives the same value for the
/// same group.
pub proof fn lemma_chi_interval_agrees<S1: SetLike, S2: SetLike>(
    g1: S1::Group,
    g2: S2::Group,
    hs: (u32, u32),
    r1: u32,
    r2: u32,
)
    requires
        g1.moduli() == g2.moduli(),
        call_ensures(chi_interval::<S1>, (&g1, hs), r1),
        call_ensures(chi_interval::<S2>, (&g2, hs), r2),
    ensures
        r1 == r2,
{
    lemma_chi_unique(g1.moduli(), Fold::PlainInterval(hs.0, hs.1), r1 as nat, r2 as nat);
}

/// Whatever the representation, `chi_signed` gives the same value for the same
/// group.
pub proof fn lemma_chi_signed_agrees<S1: SetLike, S2: SetLike>(
    g1: S1::Group,
    g2: S2::Group,
    h: u32,
    r1: u32,
    r2: u32,
)
    requires
        g1.moduli() == g2.moduli(),
        call_ensures(chi_signed::<S1>, (&g1, h), r1),
        call_ensures(chi_signed::<S2>, (&g2, h), r2),
    ensures
        r1 == r2,
{
    lemma_chi_unique(g1.moduli(), Fold::Signed(h), r1 as nat, r2 as nat);
}

/// Whatever the representation, `chi_signed_interval` gives the same value for
/// the same group.
pub proof fn lemma_chi_signed_interval_agrees<S1: SetLike, S2: SetLike>(
    g1: S1::Group,
    g2: S2::Group,
    hs: (u32, u32),
    r1: u32,
    r2: u32,
)
    requires
        g1.moduli() == g2.moduli(),
        call_ensures(chi_signed_interval::<S1>, (&g1, hs), r1),
        call_ensures(chi_signed_interval::<S2>, (&g2, hs), r2),
    ensures
        r1 == r2,
{
    lemma_chi_unique(g1.moduli(), Fold::SignedInterval(hs.0, hs.1), r1 as nat, r2 as nat);
}

/// Whatever the representation, `chi_restricted` gives the same value for the
/// same group.
pub proof fn lemma_chi_restricted_agrees<S1: SetLike, S2: SetLike>(
    g1: S1::Group,
    g2: S2::Group,
    h: u32,
    r1: u32,
    r2: u32,
)
    requires
        g1.moduli() == g2.moduli(),
        call_ensures(chi_restricted::<S1>, (&g1, h), r1),
        call_ensures(chi_restricted::<S2>, (&g2, h), r2),
    ensures
        r1 == r2,
{
    lemma_chi_unique(g1.moduli(), Fold::Restricted(h), r1 as nat, r2 as nat);
}

/// Whatever the representation, `chi_restricted_interval` gives the same value
/// for the same group.
pub proof fn lemma_chi_restricted_interval_agrees<S1: SetLike, S2: SetLike>(
    g1: S1::Group,
    g2: S2::Group,
    hs: (u32, u32),
    r1: u32,
    r2: u32,
)
    requires
        g1.moduli() == g2.moduli(),
        call_ensures(chi_restricted_interval::<S1>, (&g1, hs), r1),
        call_ensures(chi_restricted_interval::<S2>, (&g2, hs), r2),
    ensures
        r1 == r2,
{
    lemma_chi_unique(g1.moduli(), Fold::RestrictedInterval(hs.0, hs.1), r1 as nat, r2 as nat);
}

/// Whatever the representation, `chi_signed_restricted` gives the same value
/// for the same group.
pub proof fn lemma_chi_signed_restricted_agrees<S1: SetLike, S2: SetLike>(
    g1: S1::Group,
    g2: S2::Group,
    h: u32,
    r1: u32,
    r2: u32,
)
    requires
        g1.moduli() == g2.moduli(),
        call_ensures(chi_signed_restricted::<S1>, (&g1, h), r1),
        call_ensures(chi_signed_restricted::<S2>, (&g2, h), r2),
    ensures
        r1 == r2,
{
    lemma_chi_unique(g1.moduli(), Fold::SignedRestricted(h), r1 as nat, r2 as nat);
}

/// Whatever the representation, `chi_signed_restricted_interval` gives the
/// same value for the same group.
pub proof fn lemma_chi_signed_restricted_interval_agrees<S1: SetLike, S2: SetLike>(
    g1: S1::Group,
    g2: S2::Group,
    hs: (u32, u32),
    r1: u32,
    r2: u32,
)
    requires
        g1.moduli() == g2.moduli(),
        call_ensures(chi_signed_restricted_interval::<S1>, (&g1, hs), r1),
        call_ensures(chi_signed_restricted_interval::<S2>, (&g2, hs), r2),
    ensures
        r1 == r2,
{
    lemma_chi_unique(g1.moduli(), Fold::SignedRestrictedInterval(hs.0, hs.1), r1 as nat, r2 as nat);
}

/// Whatever the representation, `tau` gives the same value for the same group.
pub proof fn lemma_tau_agrees<S1: SetLike, S2: SetLike>(
    g1: S1::Group,
    g2: S2::Group,
    h: u32,
    r1: u32,
    r2: u32,
)
    requires
        g1.moduli() == g2.moduli(),
        call_ensures(tau::<S1>, (&g1, h), r1),
        call_ensures(tau::<S2>, (&g2, h), r2),
    ensures
        r1 == r2,
{
    lemma_tau_unique(g1.moduli(), Fold::Plain(h), true, r1 as nat, r2 as nat);
}

/// Whatever the representation, `tau_interval` gives the same value for the
/// same group.
pub proof fn lemma_tau_interval_agrees<S1: SetLike, S2: SetLike>(
    g1: S1::Group,
    g2: S2::Group,
    hs: (u32, u32),
    r1: u32,
    r2: u32,
)
    requires
        g1.moduli() == g2.moduli(),
        call_ensures(tau_interval::<S1>, (&g1, hs), r1),
        call_ensures(tau_interval::<S2>, (&g2, hs), r2),
    ensures
        r1 == r2,
{
    lemma_tau_unique(g1.moduli(), Fold::PlainInterval(hs.0, hs.1), true, r1 as nat, r2 as nat);
}

/// Whatever the representation, `tau_signed` gives the same value for the same
/// group.
pub proof fn lemma_tau_signed_agrees<S1: SetLike, S2: SetLike>(
    g1: S1::Group,
    g2: S2::Group,
    h: u32,
    r1: u32,
    r2: u32,
)
    requires
        g1.moduli() == g2.moduli(),
        call_ensures(tau_signed::<S1>, (&g1, h), r1),
        call_ensures(tau_signed::<S2>, (&g2, h), r2),
    ensures
        r1 == r2,
{
    lemma_tau_unique(g1.moduli(), Fold::Signed(h), true, r1 as nat, r2 as nat);
}

/// Whatever the representation, `tau_signed_interval` gives the same value for
/// the same group.
pub proof fn lemma_tau_signed_interval_agrees<S1: SetLike, S2: SetLike>(
    g1: S1::Group,
    g2: S2::Group,
    hs: (u32, u32),
    r1: u32,
    r2: u32,
)
    requires
        g1.moduli() == g2.moduli(),
        call_ensures(tau_signed_interval::<S1>, (&g1, hs), r1),
        call_ensures(tau_signed_interval::<S2>, (&g2, hs), r2),
    ensures
        r1 == r2,
{
    lemma_tau_unique(g1.moduli(), Fold::SignedInterval(hs.0, hs.1), true, r1 as nat, r2 as nat);
}

/// Two representations that both know the value of `tau_restricted` without a
/// search, or both do not, give the same value for the same group.
pub proof fn lemma_tau_restricted_agrees<S1: SetLike, S2: SetLike>(
    g1: S1::Group,
    g2: S2::Group,
    h: u32,
    r1: u32,
    r2: u32,
)
    requires
        g1.moduli() == g2.moduli(),
        tau_restricted_known(g1.as_cyclic(), h) == tau_restricted_known(g2.as_cyclic(), h),
        call_ensures(tau_restricted::<S1>, (&g1, h), r1),
        call_ensures(tau_restricted::<S2>, (&g2, h), r2),
    ensures
        r1 == r2,
{
    if tau_restricted_known(g1.as_cyclic(), h) is None && group_size(g1.moduli()) != 1 {
        lemma_tau_unique(g1.moduli(), Fold::Restricted(h), false, r1 as nat, r2 as nat);
    }
}

/// Whatever the representation, `tau_restricted_interval` gives the same value
/// for the same group.
pub proof fn lemma_tau_restricted_interval_agrees<S1: SetLike, S2: SetLike>(
    g1: S1::Group,
    g2: S2::Group,
    hs: (u32, u32),
    r1: u32,
    r2: u32,
)
    requires
        g1.moduli() == g2.moduli(),
        call_ensures(tau_restricted_interval::<S1>, (&g1, hs), r1),
        call_ensures(tau_restricted_interval::<S2>, (&g2, hs), r2),
    ensures
        r1 == r2,
{
    lemma_tau_unique(g1.moduli(), Fold::RestrictedInterval(hs.0, hs.1), false, r1 as nat, r2 as nat);
}

/// Whatever the representation, `tau_signed_restricted` gives the same value
/// for the same group.
pub proof fn lemma_tau_signed_restricted_agrees<S1: SetLike, S2: SetLike>(
    g1: S1::Group,
    g2: S2::Group,
    h: u32,
    r1: u32,
    r2: u32,
)
    requires
        g1.moduli() == g2.moduli(),
        call_ensures(tau_signed_restricted::<S1>, (&g1, h), r1),
        call_ensures(tau_signed_restricted::<S2>, (&g2, h), r2),
    ensures
        r1 == r2,
{
    lemma_tau_unique(g1.moduli(), Fold::SignedRestricted(h), false, r1 as nat, r2 as nat);
}

/// Whatever the representation, `tau_signed_restricted_interval` gives the
/// same value for the same group.
pub proof fn lemma_tau_signed_restricted_interval_agrees<S1: SetLike, S2: SetLike>(
    g1: S1::Group,
    g2: S2::Group,
    hs: (u32, u32),
    r1: u32,
    r2: u32,
)
    requires
        g1.moduli() == g2.moduli(),
        call_ensures(tau_signed_restricted_interval::<S1>, (&g1, hs), r1),
        call_ensures(tau_signed_restricted_interval::<S2>, (&g2, hs), r2),
    ensures
        r1 == r2,
{
    lemma_tau_unique(g1.moduli(), Fold::SignedRestrictedInterval(hs.0, hs.1), false, r1 as nat, r2 as nat);
}

/// Whatever the representation, `mu` gives the same value for the same group.
pub proof fn lemma_mu_agrees<S1: SetLike, S2: SetLike>(
    g1: S1::Group,
    g2: S2::Group,
    k: u32,
    l: u32,
    r1: u32,
    r2: u32,
)
    requires
        g1.moduli() == g2.moduli(),
        call_ensures(mu::<S1>, (&g1, k, l), r1),
        call_ensures(mu::<S2>, (&g2, k, l), r2),
    ensures
        r1 == r2,
{
    if k != l {
        lemma_mu_unique(g1.moduli(), Fold::Plain(k), Fold::Plain(l), 1, r1 as nat, r2 as nat);
    }
}

/// Whatever the representation, `mu_signed` gives the same value for the same
/// group.
pub proof fn lemma_mu_signed_agrees<S1: SetLike, S2: SetLike>(
    g1: S1::Group,
    g2: S2::Group,
    k: u32,
    l: u32,
    r1: u32,
    r2: u32,
)
    requires
        g1.moduli() == g2.moduli(),
        call_ensures(mu_signed::<S1>, (&g1, k, l), r1),
        call_ensures(mu_signed::<S2>, (&g2, k, l), r2),
    ensures
        r1 == r2,
{
    if k != l {
        lemma_mu_unique(g1.moduli(), Fold::Signed(k), Fold::Signed(l), 1, r1 as nat, r2 as nat);
    }
}

/// Two representations that start the search of `mu_restricted` at the same
/// size give the same value for the same group.
pub proof fn lemma_mu_restricted_agrees<S1: SetLike, S2: SetLike>(
    g1: S1::Group,
    g2: S2::Group,
    k: u32,
    l: u32,
    r1: u32,
    r2: u32,
)
    requires
        g1.moduli() == g2.moduli(),
        mu_restricted_start(g1.as_cyclic(), k, l) == mu_restricted_start(g2.as_cyclic(), k, l),
        call_ensures(mu_restricted::<S1>, (&g1, k, l), r1),
        call_ensures(mu_restricted::<S2>, (&g2, k, l), r2),
    ensures
        r1 == r2,
{
    if k != l && k <= group_size(g1.moduli()) && l <= group_size(g1.moduli()) {
        lemma_mu_unique(
            g1.moduli(),
            Fold::Restricted(k),
            Fold::Restricted(l),
            mu_restricted_start(g1.as_cyclic(), k, l),
            r1 as nat,
            r2 as nat,
        );
    }
}

/// Whatever the representation, `mu_signed_restricted` gives the same value
/// for the same group.
pub proof fn lemma_mu_signed_restricted_agrees<S1: SetLike, S2: SetLike>(
    g1: S1::Group,
    g2: S2::Group,
    k: u32,
    l: u32,
    r1: u32,
    r2: u32,
)
    requires
        g1.moduli() == g2.moduli(),
        call_ensures(mu_signed_restricted::<S1>, (&g1, k, l), r1),
        call_ensures(mu_signed_restricted::<S2>, (&g2, k, l), r2),
    ensures
        r1 == r2,
{
    if k != l && k <= group_size(g1.moduli()) && l <= group_size(g1.moduli()) {
        lemma_mu_unique(g1.moduli(), Fold::SignedRestricted(k), Fold::SignedRestricted(l), 1, r1 as nat, r2 as nat);
    }
}

/// A set is found full exactly when it has as many members as the group has
/// elements.
pub proof fn lemma_full_is_size<S: SetLike>(g: S::Group, a: S, full: bool, size: u32)
    requires
        call_ensures(S::is_full, (&a, &g), full),
        call_ensures(S::size, (&a,), size),
    ensures
        full == (size == group_size(g.moduli())),
{
}

/// A subset of a group is found full exactly when it is the whole group.
pub proof fn lemma_full_is_whole<S: SetLike>(g: S::Group, a: S, full: bool)
    requires
        g.wf(),
        S::supports(&g),
        a.fits(&g),
        call_ensures(S::is_full, (&a, &g), full),
    ensures
        full == (a.model() == crate::model::group_elems(g.moduli())),
{
    a.lemma_fits(&g);
    crate::model::lemma_full_is_whole(a.model(), g.moduli());
}

} // verus!
