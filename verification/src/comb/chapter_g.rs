//! The greatest size up to which some subset has two sumsets without a
//! common member.

use crate::comb::search::{first_without, has_witness, Fold, Probe};
use crate::model::group_size;
use crate::setlike::{Group, SetLike};
use vstd::prelude::*;

verus! {

/// Every size from `from` to `r` has a subset whose two sumsets have no member
/// in common, and `r + 1` has none, unless `r` is one less than the size of
/// the group.
pub open spec fn is_mu(mods: Seq<nat>, first: Fold, second: Fold, from: nat, r: nat) -> bool {
    &&& r + 1 <= group_size(mods)
    &&& forall|m: nat|
        from <= m <= r ==> #[trigger] has_witness(mods, m, Probe::SumFree(first, second), false)
    &&& r + 1 < group_size(mods) ==> from <= r + 1 && !has_witness(
        mods,
        r + 1,
        Probe::SumFree(first, second),
        false,
    )
}

/// Two numbers that are both that greatest size are the same.
pub proof fn lemma_mu_unique(
    mods: Seq<nat>,
    first: Fold,
    second: Fold,
    from: nat,
    r1: nat,
    r2: nat,
)
    requires
        is_mu(mods, first, second, from, r1),
        is_mu(mods, first, second, from, r2),
    ensures
        r1 == r2,
{
    if r1 < r2 {
        assert(has_witness(mods, r1 + 1, Probe::SumFree(first, second), false));
    }
    if r2 < r1 {
        assert(has_witness(mods, r2 + 1, Probe::SumFree(first, second), false));
    }
}

/// The search behind the family: sizes from `from` up to one less than the
/// size of the group, until one has no subset whose two sumsets have no member
/// in common.
fn mu_of<S: SetLike>(n: &S::Group, first: Fold, second: Fold, from: u32) -> (r: u32)
    requires
        n.wf(),
        S::supports(n),
        from >= 1,
    ensures
        is_mu(n.moduli(), first, second, from as nat, r as nat),
{
    proof {
        n.lemma_wf();
    }
    match first_without::<S>(n, from, n.gsize() - 1, Probe::SumFree(first, second), false) {
        Some(m) => m - 1,
        None => n.gsize() - 1,
    }
}

/// Where the search of `mu_restricted` starts: at 1, but for a cyclic group of
/// order `k * (k * k - 1)` and `l = 1` at the greater of `n / (k + 1) + k - 1`
/// and `k * k`.
pub open spec fn mu_restricted_start(order: Option<u32>, k: u32, l: u32) -> nat {
    match order {
        Some(n) => if l == 1 && k >= 1 && n == k * (k * k - 1) {
            if (n as int) / (k + 1) + k - 1 >= k * k {
                ((n as int) / (k + 1) + k - 1) as nat
            } else {
                (k * k) as nat
            }
        } else {
            1
        },
        None => 1,
    }
}

/// The greatest `m` below the size of the group such that every size from 1 to
/// `m` has a subset whose `k`-fold and `l`-fold sumsets have no member in
/// common; 0 where `k` is `l`.
pub fn mu<S: SetLike>(n: &S::Group, k: u32, l: u32) -> (r: u32)
    requires
        n.wf(),
        S::supports(n),
    ensures
        k == l ==> r == 0,
        k != l ==> is_mu(n.moduli(), Fold::Plain(k), Fold::Plain(l), 1, r as nat),
{
    if k == l {
        return 0;
    }
    mu_of::<S>(n, Fold::Plain(k), Fold::Plain(l), 1)
}

/// The greatest `m` below the size of the group such that every size from 1 to
/// `m` has a subset whose `k`-fold and `l`-fold signed sumsets have no member
/// in common; 0 where `k` is `l`.
pub fn mu_signed<S: SetLike>(n: &S::Group, k: u32, l: u32) -> (r: u32)
    requires
        n.wf(),
        S::supports(n),
    ensures
        k == l ==> r == 0,
        k != l ==> is_mu(n.moduli(), Fold::Signed(k), Fold::Signed(l), 1, r as nat),
{
    if k == l {
        return 0;
    }
    mu_of::<S>(n, Fold::Signed(k), Fold::Signed(l), 1)
}

/// The greatest `m` below the size of the group such that every size from the
/// start to `m` has a subset whose `k`-fold and `l`-fold restricted sumsets
/// have no member in common; 0 where `k` is `l`, else the size of the group
/// where `k` or `l` is greater than that.
pub fn mu_restricted<S: SetLike>(n: &S::Group, k: u32, l: u32) -> (r: u32)
    requires
        n.wf(),
        S::supports(n),
    ensures
        k == l ==> r == 0,
        k != l && (k > group_size(n.moduli()) || l > group_size(n.moduli())) ==> r == group_size(
            n.moduli(),
        ),
        k != l && k <= group_size(n.moduli()) && l <= group_size(n.moduli()) ==> is_mu(
            n.moduli(),
            Fold::Restricted(k),
            Fold::Restricted(l),
            mu_restricted_start(n.as_cyclic(), k, l),
            r as nat,
        ),
{
    if k == l {
        return 0;
    }
    if k > n.gsize() || l > n.gsize() {
        return n.gsize();
    }
    let mut lower_bound: u32 = 1;
    match n.cyclic_order() {
        Some(order) => {
            if l == 1 && k >= 1 {
                proof {
                    assert(1 <= k * k <= 0xffff_ffff * 0xffff_ffff) by (nonlinear_arith)
                        requires
                            1 <= k <= 0xffff_ffff,
                    ;
                    assert(k * (k * k - 1) <= 0xffff_ffff * (0xffff_ffff * 0xffff_ffff))
                        by (nonlinear_arith)
                        requires
                            1 <= k <= 0xffff_ffff,
                            1 <= k * k <= 0xffff_ffff * 0xffff_ffff,
                    ;
                }
                let square: u64 = (k as u64) * (k as u64);
                let cube: u128 = (k as u128) * ((square - 1) as u128);
                if order as u128 == cube {
                    proof {
                        assert(k * k <= k * (k * k - 1) || k == 1) by (nonlinear_arith)
                            requires
                                k >= 1,
                        ;
                        assert(k * (k * k - 1) == 0 ==> k == 1) by (nonlinear_arith)
                            requires
                                k >= 1,
                        ;
                        n.lemma_as_cyclic();
                        crate::model::lemma_cyclic_size(order as nat);
                        let b = (k * (k - 1)) as int;
                        assert(b * (k + 1) == k * (k * k - 1)) by (nonlinear_arith)
                            requires
                                b == k * (k - 1),
                        ;
                        assert(b >= 0) by (nonlinear_arith)
                            requires
                                b == k * (k - 1),
                                k >= 1,
                        ;
                        vstd::arithmetic::div_mod::lemma_div_by_multiple(b, (k + 1) as int);
                        assert(b + k - 1 == k * k - 1) by (nonlinear_arith)
                            requires
                                b == k * (k - 1),
                        ;
                    }
                    let by_share: u32 = order / (k + 1) + k - 1;
                    let square: u32 = k * k;
                    lower_bound = if by_share >= square {
                        by_share
                    } else {
                        square
                    };
                }
            }
        },
        None => {},
    }
    mu_of::<S>(n, Fold::Restricted(k), Fold::Restricted(l), lower_bound)
}

/// The greatest `m` below the size of the group such that every size from 1 to
/// `m` has a subset whose `k`-fold and `l`-fold restricted signed sumsets have
/// no member in common; 0 where `k` is `l`, else the size of the group where
/// `k` or `l` is greater than that.
pub fn mu_signed_restricted<S: SetLike>(n: &S::Group, k: u32, l: u32) -> (r: u32)
    requires
        n.wf(),
        S::supports(n),
    ensures
        k == l ==> r == 0,
        k != l && (k > group_size(n.moduli()) || l > group_size(n.moduli())) ==> r == group_size(
            n.moduli(),
        ),
        k != l && k <= group_size(n.moduli()) && l <= group_size(n.moduli()) ==> is_mu(
            n.moduli(),
            Fold::SignedRestricted(k),
            Fold::SignedRestricted(l),
            1,
            r as nat,
        ),
{
    if k == l {
        return 0;
    }
    if k > n.gsize() || l > n.gsize() {
        return n.gsize();
    }
    mu_of::<S>(n, Fold::SignedRestricted(k), Fold::SignedRestricted(l), 1)
}

} // verus!
