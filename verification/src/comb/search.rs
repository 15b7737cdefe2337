//! The scans that the families of searches share: over all subsets of one
//! size, looking for the first one that passes a test, or for the largest or
//! the smallest sumset.

use crate::model::{
    group_size, is_subset, is_subset_with, lemma_subset_size, valid_moduli, zero_elem,
};
use crate::setlike::{lists_subsets, Group, HFolds, SetLike, SetWalk};
use crate::sumset::{
    hfold, hfold_interval, lemma_hfold_in_group, restricted_signed_sumset, restricted_sumset,
    signed_sumset, sumset,
};
use vstd::prelude::*;

verus! {

/// One of the eight sumset operators, with the number of terms or the closed
/// interval of numbers of terms.
#[derive(Clone, Copy)]
pub enum Fold {
    Plain(u32),
    PlainInterval(u32, u32),
    Signed(u32),
    SignedInterval(u32, u32),
    Restricted(u32),
    RestrictedInterval(u32, u32),
    SignedRestricted(u32),
    SignedRestrictedInterval(u32, u32),
}

impl Fold {
    /// The sumset of `a` that the operator gives.
    pub open spec fn of(self, a: Set<Seq<nat>>, mods: Seq<nat>) -> Set<Seq<nat>> {
        match self {
            Fold::Plain(h) => sumset(a, h as nat, mods),
            Fold::PlainInterval(x, y) => hfold_interval(a, x as nat, y as nat, mods, false, false),
            Fold::Signed(h) => signed_sumset(a, h as nat, mods),
            Fold::SignedInterval(x, y) => hfold_interval(a, x as nat, y as nat, mods, false, true),
            Fold::Restricted(h) => restricted_sumset(a, h as nat, mods),
            Fold::RestrictedInterval(x, y) => hfold_interval(
                a,
                x as nat,
                y as nat,
                mods,
                true,
                false,
            ),
            Fold::SignedRestricted(h) => restricted_signed_sumset(a, h as nat, mods),
            Fold::SignedRestrictedInterval(x, y) => hfold_interval(
                a,
                x as nat,
                y as nat,
                mods,
                true,
                true,
            ),
        }
    }

    /// Every sumset is a subset of the group.
    pub proof fn lemma_of_in_group(self, a: Set<Seq<nat>>, mods: Seq<nat>)
        requires
            valid_moduli(mods),
        ensures
            is_subset(self.of(a, mods), mods),
            self.of(a, mods).len() <= group_size(mods),
    {
        let s = self.of(a, mods);
        assert forall|x: Seq<nat>| s.contains(x) implies crate::model::is_elem(x, mods) by {
            match self {
                Fold::Plain(h) => {
                    lemma_hfold_in_group(a, h as nat, mods, false, false);
                },
                Fold::Signed(h) => {
                    lemma_hfold_in_group(a, h as nat, mods, false, true);
                },
                Fold::Restricted(h) => {
                    lemma_hfold_in_group(a, h as nat, mods, true, false);
                },
                Fold::SignedRestricted(h) => {
                    lemma_hfold_in_group(a, h as nat, mods, true, true);
                },
                Fold::PlainInterval(lo, hi) => {
                    let h = choose|h: nat|
                        lo as nat <= h && h <= hi as nat && hfold(a, h, mods, false, false).contains(x);
                    lemma_hfold_in_group(a, h, mods, false, false);
                },
                Fold::SignedInterval(lo, hi) => {
                    let h = choose|h: nat|
                        lo as nat <= h && h <= hi as nat && hfold(a, h, mods, false, true).contains(x);
                    lemma_hfold_in_group(a, h, mods, false, true);
                },
                Fold::RestrictedInterval(lo, hi) => {
                    let h = choose|h: nat|
                        lo as nat <= h && h <= hi as nat && hfold(a, h, mods, true, false).contains(x);
                    lemma_hfold_in_group(a, h, mods, true, false);
                },
                Fold::SignedRestrictedInterval(lo, hi) => {
                    let h = choose|h: nat|
                        lo as nat <= h && h <= hi as nat && hfold(a, h, mods, true, true).contains(x);
                    lemma_hfold_in_group(a, h, mods, true, true);
                },
            }
        }
        lemma_subset_size(s, mods);
    }

    /// Takes the sumset of `a`.
    pub fn apply<S: HFolds>(&self, a: &S, g: &S::Group) -> (r: S)
        requires
            g.wf(),
            S::supports(g),
            a.fits(g),
        ensures
            r.fits(g),
            r.model() == self.of(a.model(), g.moduli()),
    {
        match *self {
            Fold::Plain(h) => a.hfold_sumset(h, g),
            Fold::PlainInterval(x, y) => a.hfold_interval_sumset((x, y), g),
            Fold::Signed(h) => a.hfold_signed_sumset(h, g),
            Fold::SignedInterval(x, y) => a.hfold_interval_signed_sumset((x, y), g),
            Fold::Restricted(h) => a.hfold_restricted_sumset(h, g),
            Fold::RestrictedInterval(x, y) => a.hfold_interval_restricted_sumset((x, y), g),
            Fold::SignedRestricted(h) => a.hfold_restricted_signed_sumset(h, g),
            Fold::SignedRestrictedInterval(x, y) => a.hfold_interval_restricted_signed_sumset(
                (x, y),
                g,
            ),
        }
    }
}

/// A test on a subset, through its sumsets.
#[derive(Clone, Copy)]
pub enum Probe {
    /// The sumset has the given number of members.
    HasSize(Fold, u32),
    /// The sumset is the whole group.
    Spans(Fold),
    /// The sumset is not the whole group.
    FallsShort(Fold),
    /// The sumset does not hold the identity.
    ZeroFree(Fold),
    /// The two sumsets have no member in common.
    SumFree(Fold, Fold),
}

impl Probe {
    /// Whether `a` passes the test.
    pub open spec fn holds(self, a: Set<Seq<nat>>, mods: Seq<nat>) -> bool {
        match self {
            Probe::HasSize(f, e) => f.of(a, mods).len() == e,
            Probe::Spans(f) => f.of(a, mods).len() == group_size(mods),
            Probe::FallsShort(f) => f.of(a, mods).len() != group_size(mods),
            Probe::ZeroFree(f) => !f.of(a, mods).contains(zero_elem(mods)),
            Probe::SumFree(f, g) => f.of(a, mods).intersect(g.of(a, mods)) == Set::<
                Seq<nat>,
            >::empty(),
        }
    }

    /// Puts `a` to the test.
    pub fn test<S: SetLike>(&self, a: &S, g: &S::Group) -> (r: bool)
        requires
            g.wf(),
            S::supports(g),
            a.fits(g),
        ensures
            r == self.holds(a.model(), g.moduli()),
    {
        match *self {
            Probe::HasSize(f, e) => {
                let s = f.apply(a, g);
                proof {
                    s.lemma_fits(g);
                }
                s.size() == e
            },
            Probe::Spans(f) => f.apply(a, g).is_full(g),
            Probe::FallsShort(f) => !f.apply(a, g).is_full(g),
            Probe::ZeroFree(f) => f.apply(a, g).zero_free(g),
            Probe::SumFree(f, f2) => {
                let mut k_a = f.apply(a, g);
                let l_a = f2.apply(a, g);
                proof {
                    k_a.lemma_fits(g);
                    l_a.lemma_fits(g);
                }
                k_a.intersect(l_a);
                k_a.is_empty()
            },
        }
    }
}

/// A size and a subset of that size that was found at it.
pub struct Found<S> {
    pub size: u32,
    pub set: S,
}

/// Some subset of `m` elements of the group passes the test; with
/// `without_zero`, some such subset that does not hold the identity.
pub open spec fn has_witness(mods: Seq<nat>, m: nat, probe: Probe, without_zero: bool) -> bool {
    exists|a: Set<Seq<nat>>|
        is_subset_with(a, mods, m) && (without_zero ==> !a.contains(zero_elem(mods)))
            && #[trigger] probe.holds(a, mods)
}

/// The order in which the subsets of `m` elements are walked through; with
/// `without_zero`, those that do not hold the identity.
pub open spec fn walk_order<S: SetLike>(g: &S::Group, m: nat, without_zero: bool) -> Seq<
    Set<Seq<nat>>,
> {
    if without_zero {
        S::order_without_zero(g, m)
    } else {
        S::order(g, m)
    }
}

/// `a` is the first set of the list that passes the test.
pub open spec fn is_first_to_pass(
    l: Seq<Set<Seq<nat>>>,
    a: Set<Seq<nat>>,
    probe: Probe,
    mods: Seq<nat>,
) -> bool {
    exists|j: int|
        0 <= j < l.len() && #[trigger] l[j] == a && probe.holds(a, mods) && forall|i: int|
            0 <= i < j ==> !probe.holds(#[trigger] l[i], mods)
}

/// `a` is the first set of the list whose sumset has `size` members.
pub open spec fn is_first_of_size(
    l: Seq<Set<Seq<nat>>>,
    a: Set<Seq<nat>>,
    fold: Fold,
    size: nat,
    mods: Seq<nat>,
) -> bool {
    exists|j: int|
        0 <= j < l.len() && #[trigger] l[j] == a && fold.of(a, mods).len() == size && forall|i: int|
            0 <= i < j ==> fold.of(#[trigger] l[i], mods).len() != size
}

/// Walks on until a subset passes the test.
fn scan<S: SetLike, W: SetWalk<S>>(w: &mut W, g: &S::Group, probe: &Probe) -> (r: Option<S>)
    requires
        old(w).wf(),
        old(w).group() == *g,
        old(w).position() == 0,
        g.wf(),
        S::supports(g),
    ensures
        final(w).all() == old(w).all(),
        r is None ==> forall|j: int|
            0 <= j < old(w).all().len() ==> !probe.holds(#[trigger] old(w).all()[j], g.moduli()),
        r is Some ==> r->0.fits(g) && is_first_to_pass(
            old(w).all(),
            r->0.model(),
            *probe,
            g.moduli(),
        ),
{
    let ghost all = w.all();
    loop
        invariant
            w.wf(),
            w.group() == *g,
            w.all() == all,
            all == old(w).all(),
            w.position() <= all.len(),
            g.wf(),
            S::supports(g),
            forall|j: int| 0 <= j < w.position() ==> !probe.holds(#[trigger] all[j], g.moduli()),
        decreases all.len() - w.position(),
    {
        proof {
            w.lemma_walk();
        }
        let ghost at = w.position() as int;
        match w.next() {
            None => {
                return None;
            },
            Some(a) => {
                if probe.test(&a, g) {
                    proof {
                        assert(all[at] == a.model());
                        assert(is_first_to_pass(all, a.model(), *probe, g.moduli()));
                    }
                    return Some(a);
                }
            },
        }
    }
}

/// The first subset of `m` elements of the group, in the order of the walk,
/// that passes the test; with `without_zero`, among the subsets that do not
/// hold the identity.
pub fn find<S: SetLike>(g: &S::Group, m: u32, probe: Probe, without_zero: bool) -> (r: Option<S>)
    requires
        g.wf(),
        S::supports(g),
    ensures
        (r is Some) == has_witness(g.moduli(), m as nat, probe, without_zero),
        r is Some ==> r->0.fits(g) && is_subset_with(r->0.model(), g.moduli(), m as nat)
            && probe.holds(r->0.model(), g.moduli()) && (without_zero ==> !r->0.model().contains(
            zero_elem(g.moduli()),
        )),
        r is Some ==> is_first_to_pass(
            walk_order::<S>(g, m as nat, without_zero),
            r->0.model(),
            probe,
            g.moduli(),
        ),
{
    let ghost mods = g.moduli();
    if without_zero {
        let mut w = S::each_set_exact_no_zero(g, m);
        let ghost all = w.all();
        let r = scan::<S, S::EachSetExactNoZero>(&mut w, g, &probe);
        proof {
            let wanted = |a: Set<Seq<nat>>| !a.contains(zero_elem(mods));
            assert(lists_subsets(all, mods, m as nat, wanted));
            if r is Some {
                let j = choose|j: int|
                    0 <= j < all.len() && #[trigger] all[j] == r->0.model() && probe.holds(
                        r->0.model(),
                        mods,
                    ) && forall|i: int| 0 <= i < j ==> !probe.holds(#[trigger] all[i], mods);
                assert(is_subset_with(all[j], mods, m as nat) && wanted(all[j]));
            } else {
                assert forall|a: Set<Seq<nat>>|
                    is_subset_with(a, mods, m as nat) && !a.contains(zero_elem(mods)) implies !(
                #[trigger] probe.holds(a, mods)) by {
                    assert(wanted(a));
                    let j = choose|j: int| 0 <= j < all.len() && #[trigger] all[j] == a;
                    assert(!probe.holds(all[j], mods));
                }
            }
        }
        r
    } else {
        let mut w = S::each_set_exact(g, m);
        let ghost all = w.all();
        let r = scan::<S, S::EachSetExact>(&mut w, g, &probe);
        proof {
            let wanted = |a: Set<Seq<nat>>| true;
            assert(lists_subsets(all, mods, m as nat, wanted));
            if r is Some {
                let j = choose|j: int|
                    0 <= j < all.len() && #[trigger] all[j] == r->0.model() && probe.holds(
                        r->0.model(),
                        mods,
                    ) && forall|i: int| 0 <= i < j ==> !probe.holds(#[trigger] all[i], mods);
                assert(is_subset_with(all[j], mods, m as nat) && wanted(all[j]));
            } else {
                assert forall|a: Set<Seq<nat>>| is_subset_with(a, mods, m as nat) implies !(
                #[trigger] probe.holds(a, mods)) by {
                    assert(wanted(a));
                    let j = choose|j: int| 0 <= j < all.len() && #[trigger] all[j] == a;
                    assert(!probe.holds(all[j], mods));
                }
            }
        }
        r
    }
}

/// No subset of `m` elements of the group has a sumset of more than `r`
/// members, and some has one of `r` members, unless `r` is 0.
pub open spec fn is_largest(mods: Seq<nat>, m: nat, fold: Fold, r: nat) -> bool {
    &&& forall|a: Set<Seq<nat>>|
        is_subset_with(a, mods, m) ==> (#[trigger] fold.of(a, mods)).len() <= r
    &&& r > 0 ==> exists|a: Set<Seq<nat>>|
        is_subset_with(a, mods, m) && (#[trigger] fold.of(a, mods)).len() == r
}

/// No subset of `m` elements of the group has a sumset of fewer than `r`
/// members, `r` is at most the size of the group, and some subset has a
/// sumset of `r` members, unless `r` is the size of the group.
pub open spec fn is_smallest(mods: Seq<nat>, m: nat, fold: Fold, r: nat) -> bool {
    &&& r <= group_size(mods)
    &&& forall|a: Set<Seq<nat>>|
        is_subset_with(a, mods, m) ==> r <= (#[trigger] fold.of(a, mods)).len()
    &&& r < group_size(mods) ==> exists|a: Set<Seq<nat>>|
        is_subset_with(a, mods, m) && (#[trigger] fold.of(a, mods)).len() == r
}

/// The greatest number of members that the sumset of a subset of `m`
/// elements has, and the first subset that was seen to have that many; the
/// scan stops at the first one that spans the group.
pub fn largest<S: SetLike>(g: &S::Group, m: u32, fold: Fold) -> (r: (u32, Option<S>))
    requires
        g.wf(),
        S::supports(g),
    ensures
        is_largest(g.moduli(), m as nat, fold, r.0 as nat),
        r.0 > 0 ==> r.1 is Some,
        r.1 is Some ==> r.1->0.fits(g) && is_subset_with(r.1->0.model(), g.moduli(), m as nat)
            && fold.of(r.1->0.model(), g.moduli()).len() == r.0,
        r.1 is Some ==> is_first_of_size(
            S::order(g, m as nat),
            r.1->0.model(),
            fold,
            r.0 as nat,
            g.moduli(),
        ),
{
    let ghost mods = g.moduli();
    let mut greatest_set: Option<S> = None;
    let mut curr_greatest: u32 = 0;
    let mut w = S::each_set_exact(g, m);
    let ghost all = w.all();
    let ghost wanted = |a: Set<Seq<nat>>| true;
    proof {
        g.lemma_wf();
    }
    loop
        invariant
            w.wf(),
            w.group() == *g,
            w.all() == all,
            g.wf(),
            S::supports(g),
            mods == g.moduli(),
            valid_moduli(mods),
            lists_subsets(all, mods, m as nat, wanted),
            forall|a: Set<Seq<nat>>| #[trigger] wanted(a),
            w.position() <= all.len(),
            forall|j: int|
                0 <= j < w.position() ==> fold.of(#[trigger] all[j], mods).len() <= curr_greatest,
            curr_greatest > 0 ==> greatest_set is Some,
            greatest_set is Some ==> greatest_set->0.fits(g) && is_subset_with(
                greatest_set->0.model(),
                mods,
                m as nat,
            ) && fold.of(greatest_set->0.model(), mods).len() == curr_greatest,
            greatest_set is Some ==> is_first_of_size(
                all,
                greatest_set->0.model(),
                fold,
                curr_greatest as nat,
                mods,
            ),
            all == S::order(g, m as nat),
        ensures
            is_largest(mods, m as nat, fold, curr_greatest as nat),
            curr_greatest > 0 ==> greatest_set is Some,
            greatest_set is Some ==> greatest_set->0.fits(g) && is_subset_with(
                greatest_set->0.model(),
                mods,
                m as nat,
            ) && fold.of(greatest_set->0.model(), mods).len() == curr_greatest,
            greatest_set is Some ==> is_first_of_size(
                all,
                greatest_set->0.model(),
                fold,
                curr_greatest as nat,
                mods,
            ),
            all == S::order(g, m as nat),
        decreases all.len() - w.position(),
    {
        proof {
            w.lemma_walk();
        }
        let ghost at = w.position() as int;
        match w.next() {
            None => {
                proof {
                    assert forall|a: Set<Seq<nat>>| is_subset_with(a, mods, m as nat) implies (
                    #[trigger] fold.of(a, mods)).len() <= curr_greatest by {
                        assert(wanted(a));
                        let j = choose|j: int| 0 <= j < all.len() && #[trigger] all[j] == a;
                        assert(fold.of(all[j], mods).len() <= curr_greatest);
                    }
                }
                break;
            },
            Some(a) => {
                let sum = fold.apply(&a, g);
                proof {
                    sum.lemma_fits(g);
                    assert(all[at] == a.model());
                    assert(is_subset_with(all[at], mods, m as nat));
                }
                let size = sum.size();
                if size > curr_greatest {
                    let full = size == g.gsize();
                    proof {
                        assert(is_first_of_size(all, a.model(), fold, size as nat, mods)) by {
                            assert(all[at] == a.model());
                            assert forall|i: int| 0 <= i < at implies fold.of(
                                #[trigger] all[i],
                                mods,
                            ).len() != size by {
                                assert(fold.of(all[i], mods).len() <= curr_greatest);
                            }
                        }
                    }
                    curr_greatest = size;
                    greatest_set = Some(a);
                    if full {
                        proof {
                            assert forall|b: Set<Seq<nat>>| is_subset_with(b, mods, m as nat) implies (
                            #[trigger] fold.of(b, mods)).len() <= curr_greatest by {
                                fold.lemma_of_in_group(b, mods);
                            }
                        }
                        break;
                    }
                }
            },
        }
    }
    (curr_greatest, greatest_set)
}

/// The least number of members that the sumset of a subset of `m` elements
/// has, or the size of the group if that is less, and the first subset that
/// was seen to have that many.
pub fn smallest<S: SetLike>(g: &S::Group, m: u32, fold: Fold) -> (r: (u32, Option<S>))
    requires
        g.wf(),
        S::supports(g),
    ensures
        is_smallest(g.moduli(), m as nat, fold, r.0 as nat),
        r.0 < group_size(g.moduli()) ==> r.1 is Some,
        r.1 is Some ==> r.1->0.fits(g) && is_subset_with(r.1->0.model(), g.moduli(), m as nat)
            && fold.of(r.1->0.model(), g.moduli()).len() == r.0,
        r.1 is Some ==> is_first_of_size(
            S::order(g, m as nat),
            r.1->0.model(),
            fold,
            r.0 as nat,
            g.moduli(),
        ),
{
    let ghost mods = g.moduli();
    let mut smallest_set: Option<S> = None;
    let mut curr_smallest: u32 = g.gsize();
    let mut w = S::each_set_exact(g, m);
    let ghost all = w.all();
    let ghost wanted = |a: Set<Seq<nat>>| true;
    loop
        invariant
            w.wf(),
            w.group() == *g,
            w.all() == all,
            g.wf(),
            S::supports(g),
            mods == g.moduli(),
            lists_subsets(all, mods, m as nat, wanted),
            forall|a: Set<Seq<nat>>| #[trigger] wanted(a),
            w.position() <= all.len(),
            curr_smallest <= group_size(mods),
            forall|j: int|
                0 <= j < w.position() ==> curr_smallest <= fold.of(#[trigger] all[j], mods).len(),
            curr_smallest < group_size(mods) ==> smallest_set is Some,
            smallest_set is Some ==> smallest_set->0.fits(g) && is_subset_with(
                smallest_set->0.model(),
                mods,
                m as nat,
            ) && fold.of(smallest_set->0.model(), mods).len() == curr_smallest,
            smallest_set is Some ==> is_first_of_size(
                all,
                smallest_set->0.model(),
                fold,
                curr_smallest as nat,
                mods,
            ),
            all == S::order(g, m as nat),
        ensures
            is_smallest(mods, m as nat, fold, curr_smallest as nat),
            curr_smallest < group_size(mods) ==> smallest_set is Some,
            smallest_set is Some ==> smallest_set->0.fits(g) && is_subset_with(
                smallest_set->0.model(),
                mods,
                m as nat,
            ) && fold.of(smallest_set->0.model(), mods).len() == curr_smallest,
            smallest_set is Some ==> is_first_of_size(
                all,
                smallest_set->0.model(),
                fold,
                curr_smallest as nat,
                mods,
            ),
            all == S::order(g, m as nat),
        decreases all.len() - w.position(),
    {
        proof {
            w.lemma_walk();
        }
        let ghost at = w.position() as int;
        match w.next() {
            None => {
                proof {
                    assert forall|a: Set<Seq<nat>>|
                        is_subset_with(a, mods, m as nat) implies curr_smallest <= (
                    #[trigger] fold.of(a, mods)).len() by {
                        assert(wanted(a));
                        let j = choose|j: int| 0 <= j < all.len() && #[trigger] all[j] == a;
                        assert(curr_smallest <= fold.of(all[j], mods).len());
                    }
                }
                break;
            },
            Some(a) => {
                let sum = fold.apply(&a, g);
                proof {
                    sum.lemma_fits(g);
                    assert(all[at] == a.model());
                    assert(is_subset_with(all[at], mods, m as nat));
                }
                let size = sum.size();
                if size < curr_smallest {
                    proof {
                        assert(is_first_of_size(all, a.model(), fold, size as nat, mods)) by {
                            assert(all[at] == a.model());
                            assert forall|i: int| 0 <= i < at implies fold.of(
                                #[trigger] all[i],
                                mods,
                            ).len() != size by {
                                assert(curr_smallest <= fold.of(all[i], mods).len());
                            }
                        }
                    }
                    curr_smallest = size;
                    smallest_set = Some(a);
                }
            },
        }
    }
    (curr_smallest, smallest_set)
}


/// Two numbers that are both the greatest size of a sumset are the same.
pub proof fn lemma_largest_unique(mods: Seq<nat>, m: nat, fold: Fold, r1: nat, r2: nat)
    requires
        is_largest(mods, m, fold, r1),
        is_largest(mods, m, fold, r2),
    ensures
        r1 == r2,
{
    if r1 < r2 {
        let a = choose|a: Set<Seq<nat>>|
            is_subset_with(a, mods, m) && (#[trigger] fold.of(a, mods)).len() == r2;
        assert(fold.of(a, mods).len() <= r1);
    }
    if r2 < r1 {
        let a = choose|a: Set<Seq<nat>>|
            is_subset_with(a, mods, m) && (#[trigger] fold.of(a, mods)).len() == r1;
        assert(fold.of(a, mods).len() <= r2);
    }
}

/// Two numbers that are both the least size of a sumset are the same.
pub proof fn lemma_smallest_unique(mods: Seq<nat>, m: nat, fold: Fold, r1: nat, r2: nat)
    requires
        is_smallest(mods, m, fold, r1),
        is_smallest(mods, m, fold, r2),
    ensures
        r1 == r2,
{
    if r1 < r2 {
        let a = choose|a: Set<Seq<nat>>|
            is_subset_with(a, mods, m) && (#[trigger] fold.of(a, mods)).len() == r1;
        assert(r2 <= fold.of(a, mods).len());
    }
    if r2 < r1 {
        let a = choose|a: Set<Seq<nat>>|
            is_subset_with(a, mods, m) && (#[trigger] fold.of(a, mods)).len() == r2;
        assert(r1 <= fold.of(a, mods).len());
    }
}

/// A group has no subset of more members than it has elements.
pub proof fn lemma_no_witness_beyond(mods: Seq<nat>, m: nat, probe: Probe, without_zero: bool)
    requires
        m > group_size(mods),
    ensures
        !has_witness(mods, m, probe, without_zero),
{
    assert forall|a: Set<Seq<nat>>| is_subset_with(a, mods, m) implies !(#[trigger] probe.holds(
        a,
        mods,
    )) by {
        lemma_subset_size(a, mods);
    }
}

/// The least size from `from` to `upto` at which some subset passes the
/// test, with the first such subset in the order of the walk.
pub fn first_with<S: SetLike>(
    g: &S::Group,
    from: u32,
    upto: u32,
    probe: Probe,
    without_zero: bool,
) -> (r: Option<Found<S>>)
    requires
        g.wf(),
        S::supports(g),
    ensures
        r is Some ==> from <= r->0.size <= upto && has_witness(
            g.moduli(),
            r->0.size as nat,
            probe,
            without_zero,
        ),
        r is Some ==> forall|m: nat|
            from <= m < r->0.size ==> !#[trigger] has_witness(g.moduli(), m, probe, without_zero),
        r is Some ==> r->0.set.fits(g) && is_subset_with(
            r->0.set.model(),
            g.moduli(),
            r->0.size as nat,
        ) && probe.holds(r->0.set.model(), g.moduli()),
        r is Some ==> is_first_to_pass(
            walk_order::<S>(g, r->0.size as nat, without_zero),
            r->0.set.model(),
            probe,
            g.moduli(),
        ),
        r is None ==> forall|m: nat|
            from <= m <= upto ==> !#[trigger] has_witness(g.moduli(), m, probe, without_zero),
{
    if from > upto {
        return None;
    }
    let mut m: u32 = from;
    loop
        invariant
            from <= m <= upto,
            g.wf(),
            S::supports(g),
            forall|k: nat|
                from <= k < m ==> !#[trigger] has_witness(g.moduli(), k, probe, without_zero),
        decreases upto - m,
    {
        match find::<S>(g, m, probe, without_zero) {
            Some(a) => {
                return Some(Found { size: m, set: a });
            },
            None => {},
        }
        if m == upto {
            return None;
        }
        m += 1;
    }
}

/// The least size from `from` to `upto` at which no subset passes the test.
pub fn first_without<S: SetLike>(
    g: &S::Group,
    from: u32,
    upto: u32,
    probe: Probe,
    without_zero: bool,
) -> (r: Option<u32>)
    requires
        g.wf(),
        S::supports(g),
    ensures
        r is Some ==> from <= r->0 <= upto && !has_witness(
            g.moduli(),
            r->0 as nat,
            probe,
            without_zero,
        ),
        r is Some ==> forall|m: nat|
            from <= m < r->0 ==> #[trigger] has_witness(g.moduli(), m, probe, without_zero),
        r is None ==> forall|m: nat|
            from <= m <= upto ==> #[trigger] has_witness(g.moduli(), m, probe, without_zero),
{
    if from > upto {
        return None;
    }
    let mut m: u32 = from;
    loop
        invariant
            from <= m <= upto,
            g.wf(),
            S::supports(g),
            forall|k: nat|
                from <= k < m ==> #[trigger] has_witness(g.moduli(), k, probe, without_zero),
        decreases upto - m,
    {
        match find::<S>(g, m, probe, without_zero) {
            Some(a) => {},
            None => {
                return Some(m);
            },
        }
        if m == upto {
            return None;
        }
        m += 1;
    }
}

/// The greatest size from `from` to `upto` at which some subset passes the
/// test, with the first such subset in the order of the walk.
pub fn last_with<S: SetLike>(
    g: &S::Group,
    from: u32,
    upto: u32,
    probe: Probe,
    without_zero: bool,
) -> (r: Option<Found<S>>)
    requires
        g.wf(),
        S::supports(g),
    ensures
        r is Some ==> from <= r->0.size <= upto && has_witness(
            g.moduli(),
            r->0.size as nat,
            probe,
            without_zero,
        ),
        r is Some ==> forall|m: nat|
            r->0.size < m <= upto ==> !#[trigger] has_witness(g.moduli(), m, probe, without_zero),
        r is Some ==> r->0.set.fits(g) && is_subset_with(
            r->0.set.model(),
            g.moduli(),
            r->0.size as nat,
        ) && probe.holds(r->0.set.model(), g.moduli()),
        r is Some ==> is_first_to_pass(
            walk_order::<S>(g, r->0.size as nat, without_zero),
            r->0.set.model(),
            probe,
            g.moduli(),
        ),
        r is None ==> forall|m: nat|
            from <= m <= upto ==> !#[trigger] has_witness(g.moduli(), m, probe, without_zero),
{
    if from > upto {
        return None;
    }
    let mut m: u32 = upto;
    loop
        invariant
            from <= m <= upto,
            g.wf(),
            S::supports(g),
            forall|k: nat|
                m < k <= upto ==> !#[trigger] has_witness(g.moduli(), k, probe, without_zero),
        decreases m - from,
    {
        match find::<S>(g, m, probe, without_zero) {
            Some(a) => {
                return Some(Found { size: m, set: a });
            },
            None => {},
        }
        if m == from {
            return None;
        }
        m -= 1;
    }
}

} // verus!
