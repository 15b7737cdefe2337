//! What a representation of groups and of subsets has to offer, so that one
//! search routine runs over either representation.

use crate::model::{cyclic, group_size, is_elem, is_subset, is_subset_with, valid_moduli, zero_elem};
use crate::sumset::{
    hfold_interval, restricted_signed_sumset, restricted_sumset, signed_sumset, sumset,
};
use crate::bitword::{below, lemma_count_below, BitSetContents};
use crate::exactset::{
    holds, in_group, lemma_members_of_views, lemma_model_len, lemma_picked_complete,
    lemma_picked_distinct, lemma_picked_len, members, moduli_of, moduli_ok, no_dups, picked,
    set_model, views, GElem,
};
use crate::fastset::FastSet;
use crate::model::{
    elem_code, elem_of_code, lemma_code_below, lemma_code_injective, lemma_code_zero,
    lemma_elem_of_code, lemma_group_size_prefix,
    lemma_group_size_push, lemma_subset_size, lemma_zero_is_elem,
};
use crate::tuples::{
    is_tuple, lemma_rising_complete, lemma_rising_distinct, lemma_rising_shape, rising_from,
};
use array_tool::vec::Intersect;
use std::rc::Rc;
use crate::model::{lemma_cyclic_size, lemma_residues_len, residue, residues};
use crate::subsets::{
    is_subset_of_size, lemma_subsets_complete, lemma_subsets_distinct, lemma_subsets_shape,
    subsets_from, subsets_of_size, subsets_with_zero, subsets_without_zero,
};
use vstd::prelude::*;

verus! {

/// A representation of finite abelian groups: `15u32` for the cyclic group of
/// order 15, a list of moduli for a product of cyclic groups.
pub trait Group: Sized {
    /// The type of the elements of the group.
    type Element;

    /// The moduli of the cyclic factors.
    spec fn moduli(&self) -> Seq<nat>;

    /// The value describes a group: there is at least one modulus, every
    /// modulus is positive, and the size of the group fits a `u32`.
    spec fn wf(&self) -> bool;

    /// The coordinates of an element.
    spec fn coords(e: &Self::Element) -> Seq<nat>;

    /// What `wf` means for the moduli.
    proof fn lemma_wf(&self)
        requires
            self.wf(),
        ensures
            self.moduli().len() >= 1,
            valid_moduli(self.moduli()),
            1 <= group_size(self.moduli()) <= u32::MAX,
    ;

    /// Whether the value describes a group.
    fn is_valid(&self) -> (r: bool)
        ensures
            r == self.wf(),
    ;

    /// The identity element.
    fn zero(&self) -> (r: Self::Element)
        requires
            self.wf(),
        ensures
            Self::coords(&r) == zero_elem(self.moduli()),
    ;

    /// The number of elements.
    fn gsize(&self) -> (r: u32)
        requires
            self.wf(),
        ensures
            r == group_size(self.moduli()),
    ;

    /// The order, where the representation is a single modulus.
    spec fn as_cyclic(&self) -> Option<u32>;

    /// A representation by a single modulus stands for the cyclic group of
    /// that order.
    proof fn lemma_as_cyclic(&self)
        ensures
            self.as_cyclic() is Some ==> self.moduli() == cyclic(self.as_cyclic()->0 as nat),
    ;

    /// The order, where the representation is a single modulus.
    fn cyclic_order(&self) -> (r: Option<u32>)
        ensures
            r == self.as_cyclic(),
    ;
}

/// Things one can take h-fold sumsets of.
pub trait HFolds: Sized {
    /// The elements of the set; the things that are added together.
    type Element;

    /// The representation of the group that the set lives in.
    type Group: Group<Element = Self::Element>;

    /// The set, as a set of coordinate tuples.
    spec fn model(&self) -> Set<Seq<nat>>;

    /// The representation can hold the subsets of `g`.
    spec fn supports(g: &Self::Group) -> bool;

    /// The value is a subset of `g` as the representation holds one.
    spec fn fits(&self, g: &Self::Group) -> bool;

    /// The value holds a set as the representation holds one.
    spec fn valid(&self) -> bool;

    /// The representation can hold the element as a member.
    spec fn elem_ok(i: &Self::Element) -> bool;

    /// A value that fits stands for a subset of the group.
    proof fn lemma_fits(&self, g: &Self::Group)
        requires
            g.wf(),
            Self::supports(g),
            self.fits(g),
        ensures
            is_subset(self.model(), g.moduli()),
            self.valid(),
    ;

    /// The representation can hold every element of a group that it supports.
    proof fn lemma_supports(g: &Self::Group, i: &Self::Element)
        requires
            g.wf(),
            Self::supports(g),
            is_elem(Self::Group::coords(i), g.moduli()),
        ensures
            Self::elem_ok(i),
    ;

    /// Whether the representation can hold the subsets of `g`.
    fn can_hold(g: &Self::Group) -> (r: bool)
        ensures
            r == Self::supports(g),
    ;

    /// Whether the value is a subset of `g` as the representation holds one.
    fn is_subset_of(&self, g: &Self::Group) -> (r: bool)
        requires
            g.wf(),
            Self::supports(g),
        ensures
            r == self.fits(g),
    ;

    /// The `h`-fold sumset: the sums of `h` members, repetition allowed.
    fn hfold_sumset(&self, h: u32, n: &Self::Group) -> (r: Self)
        requires
            n.wf(),
            Self::supports(n),
            self.fits(n),
        ensures
            r.fits(n),
            r.model() == sumset(self.model(), h as nat, n.moduli()),
    ;

    /// The union of the `h`-fold sumsets for `h` in the closed interval `hs`.
    fn hfold_interval_sumset(&self, hs: (u32, u32), n: &Self::Group) -> (r: Self)
        requires
            n.wf(),
            Self::supports(n),
            self.fits(n),
        ensures
            r.fits(n),
            r.model() == hfold_interval(
                self.model(),
                hs.0 as nat,
                hs.1 as nat,
                n.moduli(),
                false,
                false,
            ),
    ;

    /// The `h`-fold restricted sumset: the sums of `h` distinct members.
    fn hfold_restricted_sumset(&self, h: u32, n: &Self::Group) -> (r: Self)
        requires
            n.wf(),
            Self::supports(n),
            self.fits(n),
        ensures
            r.fits(n),
            r.model() == restricted_sumset(self.model(), h as nat, n.moduli()),
    ;

    /// The union of the `h`-fold restricted sumsets for `h` in the closed
    /// interval `hs`.
    fn hfold_interval_restricted_sumset(&self, hs: (u32, u32), n: &Self::Group) -> (r: Self)
        requires
            n.wf(),
            Self::supports(n),
            self.fits(n),
        ensures
            r.fits(n),
            r.model() == hfold_interval(
                self.model(),
                hs.0 as nat,
                hs.1 as nat,
                n.moduli(),
                true,
                false,
            ),
    ;

    /// The `h`-fold signed sumset: the sums of `h` members, each added or
    /// subtracted, no member both.
    fn hfold_signed_sumset(&self, h: u32, n: &Self::Group) -> (r: Self)
        requires
            n.wf(),
            Self::supports(n),
            self.fits(n),
        ensures
            r.fits(n),
            r.model() == signed_sumset(self.model(), h as nat, n.moduli()),
    ;

    /// The union of the `h`-fold signed sumsets for `h` in the closed interval
    /// `hs`.
    fn hfold_interval_signed_sumset(&self, hs: (u32, u32), n: &Self::Group) -> (r: Self)
        requires
            n.wf(),
            Self::supports(n),
            self.fits(n),
        ensures
            r.fits(n),
            r.model() == hfold_interval(
                self.model(),
                hs.0 as nat,
                hs.1 as nat,
                n.moduli(),
                false,
                true,
            ),
    ;

    /// The `h`-fold restricted signed sumset: the sums of `h` distinct
    /// members, each added or subtracted.
    fn hfold_restricted_signed_sumset(&self, h: u32, n: &Self::Group) -> (r: Self)
        requires
            n.wf(),
            Self::supports(n),
            self.fits(n),
        ensures
            r.fits(n),
            r.model() == restricted_signed_sumset(self.model(), h as nat, n.moduli()),
    ;

    /// The union of the `h`-fold restricted signed sumsets for `h` in the
    /// closed interval `hs`.
    fn hfold_interval_restricted_signed_sumset(&self, hs: (u32, u32), n: &Self::Group) -> (r:
        Self)
        requires
            n.wf(),
            Self::supports(n),
            self.fits(n),
        ensures
            r.fits(n),
            r.model() == hfold_interval(
                self.model(),
                hs.0 as nat,
                hs.1 as nat,
                n.moduli(),
                true,
                true,
            ),
    ;
}

/// `l` lists, each one once, the subsets of `k` elements of the group for
/// which `wanted` holds.
pub open spec fn lists_subsets(
    l: Seq<Set<Seq<nat>>>,
    mods: Seq<nat>,
    k: nat,
    wanted: spec_fn(Set<Seq<nat>>) -> bool,
) -> bool {
    &&& forall|j: int| 0 <= j < l.len() ==> is_subset_with(#[trigger] l[j], mods, k) && wanted(l[j])
    &&& forall|i: int, j: int| 0 <= i < j < l.len() ==> #[trigger] l[i] != #[trigger] l[j]
    &&& forall|a: Set<Seq<nat>>|
        is_subset_with(a, mods, k) && wanted(a) ==> exists|j: int|
            0 <= j < l.len() && #[trigger] l[j] == a
}

/// A walk through a list of subsets, handing out one at a time.
pub trait SetWalk<S: HFolds>: Sized {
    /// The state is one that the constructor and `next` lead to.
    spec fn wf(&self) -> bool;

    /// The group whose subsets are listed.
    spec fn group(&self) -> S::Group;

    /// The whole list, in the order of the walk.
    spec fn all(&self) -> Seq<Set<Seq<nat>>>;

    /// How many subsets have been handed out.
    spec fn position(&self) -> nat;

    /// A walk is within its list.
    proof fn lemma_walk(&self)
        requires
            self.wf(),
        ensures
            self.position() <= self.all().len(),
    ;

    /// Hands out the next subset, or `None` when all have been handed out.
    fn next(&mut self) -> (r: Option<S>)
        requires
            old(self).wf(),
        ensures
            final(self).wf(),
            final(self).group() == old(self).group(),
            final(self).all() == old(self).all(),
            r is None ==> old(self).position() == old(self).all().len(),
            r is None ==> final(self).position() == old(self).position(),
            r is Some ==> old(self).position() < old(self).all().len(),
            r is Some ==> r->0.model() == old(self).all()[old(self).position() as int],
            r is Some ==> r->0.fits(&old(self).group()),
            r is Some ==> final(self).position() == old(self).position() + 1,
    ;
}

/// Sets that the search routines can work on.
pub trait SetLike: HFolds {
    /// The walk through the subsets of a given size.
    type EachSetExact: SetWalk<Self>;

    /// The walk through the subsets of a given size that hold the identity.
    type EachSetExactZero: SetWalk<Self>;

    /// The walk through the subsets of a given size that do not hold the
    /// identity.
    type EachSetExactNoZero: SetWalk<Self>;

    /// The element can be made a member of the set.
    spec fn may_add(&self, i: &Self::Element) -> bool;

    /// The subsets of `k` elements of the group, in the order in which
    /// `each_set_exact` walks through them.
    spec fn order(g: &Self::Group, k: nat) -> Seq<Set<Seq<nat>>>;

    /// The subsets of `k` elements of the group that hold the identity, in
    /// the order in which `each_set_exact_zero` walks through them.
    spec fn order_with_zero(g: &Self::Group, k: nat) -> Seq<Set<Seq<nat>>>;

    /// The subsets of `k` elements of the group that do not hold the
    /// identity, in the order in which `each_set_exact_no_zero` walks through
    /// them.
    spec fn order_without_zero(g: &Self::Group, k: nat) -> Seq<Set<Seq<nat>>>;

    /// The empty set.
    fn empty() -> (r: Self)
        ensures
            r.model() == Set::<Seq<nat>>::empty(),
            r.valid(),
            forall|g: Self::Group| #[trigger] r.fits(&g),
    ;

    /// The set with a single member.
    fn singleton(i: Self::Element) -> (r: Self)
        requires
            Self::elem_ok(&i),
        ensures
            r.model() == Set::<Seq<nat>>::empty().insert(Self::Group::coords(&i)),
            r.valid(),
    ;

    /// The walk through the subsets of `set_size` elements of the group.
    fn each_set_exact(max_size: &Self::Group, set_size: u32) -> (w: Self::EachSetExact)
        requires
            max_size.wf(),
            Self::supports(max_size),
        ensures
            w.wf(),
            w.group() == *max_size,
            w.position() == 0,
            w.all() == Self::order(max_size, set_size as nat),
            lists_subsets(w.all(), max_size.moduli(), set_size as nat, |a: Set<Seq<nat>>| true),
    ;

    /// The walk through the subsets of `set_size` elements of the group that
    /// hold the identity.
    fn each_set_exact_zero(max_size: &Self::Group, set_size: u32) -> (w: Self::EachSetExactZero)
        requires
            max_size.wf(),
            Self::supports(max_size),
            set_size >= 1,
        ensures
            w.wf(),
            w.group() == *max_size,
            w.position() == 0,
            w.all() == Self::order_with_zero(max_size, set_size as nat),
            lists_subsets(
                w.all(),
                max_size.moduli(),
                set_size as nat,
                |a: Set<Seq<nat>>| a.contains(zero_elem(max_size.moduli())),
            ),
    ;

    /// The walk through the subsets of `set_size` elements of the group that
    /// do not hold the identity.
    fn each_set_exact_no_zero(max_size: &Self::Group, set_size: u32) -> (w:
        Self::EachSetExactNoZero)
        requires
            max_size.wf(),
            Self::supports(max_size),
        ensures
            w.wf(),
            w.group() == *max_size,
            w.position() == 0,
            w.all() == Self::order_without_zero(max_size, set_size as nat),
            lists_subsets(
                w.all(),
                max_size.moduli(),
                set_size as nat,
                |a: Set<Seq<nat>>| !a.contains(zero_elem(max_size.moduli())),
            ),
    ;

    /// Whether the set has no member.
    fn is_empty(&self) -> (r: bool)
        ensures
            r == (self.model() == Set::<Seq<nat>>::empty()),
    ;

    /// Whether the set holds every element of the group: whether it has as
    /// many members as the group has elements.
    fn is_full(&self, n: &Self::Group) -> (r: bool)
        requires
            n.wf(),
            Self::supports(n),
            self.fits(n),
        ensures
            r == (self.model().len() == group_size(n.moduli())),
    ;

    /// The number of members.
    fn size(&self) -> (r: u32)
        requires
            self.valid(),
        ensures
            r == self.model().len(),
    ;

    /// Makes `i` a member.
    fn add(&mut self, i: Self::Element)
        requires
            old(self).valid(),
            old(self).may_add(&i),
        ensures
            final(self).valid(),
            final(self).model() == old(self).model().insert(Self::Group::coords(&i)),
    ;

    /// Whether `i` is a member.
    fn has(&self, i: &Self::Element) -> (r: bool)
        requires
            Self::elem_ok(i),
        ensures
            r == self.model().contains(Self::Group::coords(i)),
    ;

    /// Keeps the members that `other` holds too.
    fn intersect(&mut self, other: Self)
        requires
            old(self).valid(),
            other.valid(),
        ensures
            final(self).valid(),
            final(self).model() == old(self).model().intersect(other.model()),
            forall|g: Self::Group| old(self).fits(&g) ==> #[trigger] final(self).fits(&g),
    ;

    /// Whether the set does not hold the identity of the group.
    fn zero_free(&self, n: &Self::Group) -> (r: bool)
        requires
            n.wf(),
            Self::supports(n),
        ensures
            r == !self.model().contains(zero_elem(n.moduli())),
    {
        let zero = n.zero();
        proof {
            n.lemma_wf();
            crate::model::lemma_zero_is_elem(n.moduli());
            Self::lemma_supports(n, &zero);
        }
        !self.has(&zero)
    }
}

impl Group for u32 {
    type Element = u32;

    open spec fn moduli(&self) -> Seq<nat> {
        cyclic(*self as nat)
    }

    open spec fn wf(&self) -> bool {
        *self >= 1
    }

    open spec fn coords(e: &u32) -> Seq<nat> {
        crate::model::residue(*e as nat)
    }

    proof fn lemma_wf(&self) {
        crate::model::lemma_cyclic_size(*self as nat);
    }

    #[inline(always)]
    fn is_valid(&self) -> (r: bool) {
        *self >= 1
    }

    #[inline(always)]
    fn zero(&self) -> (r: u32) {
        proof {
            assert(crate::model::residue(0) =~= zero_elem(cyclic(*self as nat)));
        }
        0u32
    }

    #[inline(always)]
    fn gsize(&self) -> (r: u32) {
        proof {
            crate::model::lemma_cyclic_size(*self as nat);
        }
        *self
    }

    open spec fn as_cyclic(&self) -> Option<u32> {
        Some(*self)
    }

    proof fn lemma_as_cyclic(&self) {
    }

    #[inline(always)]
    fn cyclic_order(&self) -> (r: Option<u32>) {
        Some(*self)
    }
}

/// The subsets of a cyclic group that stand for the sets of residues of `l`.
pub open spec fn all_residues(l: Seq<Set<nat>>) -> Seq<Set<Seq<nat>>> {
    Seq::new(l.len(), |j: int| residues(l[j]))
}

/// The set of residues that a subset of a cyclic group stands for.
pub open spec fn residues_of(a: Set<Seq<nat>>) -> Set<nat> {
    Set::new(|x: nat| a.contains(residue(x)))
}

/// A subset of a cyclic group stands for a set of residues of the same size.
pub proof fn lemma_residues_of(a: Set<Seq<nat>>, n: nat)
    requires
        is_subset(a, cyclic(n)),
    ensures
        residues(residues_of(a)) == a,
        residues_of(a).finite(),
        residues_of(a).len() == a.len(),
        forall|x: nat| residues_of(a).contains(x) ==> x < n,
{
    let s = residues_of(a);
    assert forall|x: nat| s.contains(x) implies x < n by {
        assert(is_elem(residue(x), cyclic(n)));
        assert(residue(x)[0] == x);
    }
    lemma_count_below(s, n);
    assert forall|e: Seq<nat>| a.contains(e) == residues(s).contains(e) by {
        if a.contains(e) {
            assert(is_elem(e, cyclic(n)));
            assert(e =~= residue(e[0]));
        }
        if residues(s).contains(e) {
            assert(e =~= residue(e[0]));
        }
    }
    assert(residues(s) =~= a);
    lemma_residues_len(s);
}

/// Different sets of residues stand for different subsets.
pub proof fn lemma_residues_injective(s: Set<nat>, t: Set<nat>)
    requires
        residues(s) == residues(t),
    ensures
        s == t,
{
    assert forall|x: nat| s.contains(x) == t.contains(x) by {
        assert(residue(x)[0] == x);
        assert(residues(s).contains(residue(x)) == s.contains(x));
        assert(residues(t).contains(residue(x)) == t.contains(x));
    }
    assert(s =~= t);
}

/// The list of the `k`-member subsets of `lo..n` stands for a list of subsets
/// of the cyclic group of order `n`, each one once.
pub proof fn lemma_listing(lo: nat, n: nat, k: nat)
    requires
        lo <= n,
    ensures
        ({
            let l = all_residues(subsets_from(lo, n, k));
            &&& forall|j: int|
                0 <= j < l.len() ==> is_subset_with(#[trigger] l[j], cyclic(n), k) && forall|x: nat|
                    x < lo ==> !l[j].contains(residue(x))
            &&& forall|i: int, j: int| 0 <= i < j < l.len() ==> #[trigger] l[i] != #[trigger] l[j]
            &&& forall|a: Set<Seq<nat>>|
                is_subset_with(a, cyclic(n), k) && (forall|x: nat|
                    x < lo ==> !a.contains(residue(x))) ==> exists|j: int|
                    0 <= j < l.len() && #[trigger] l[j] == a
        }),
{
    let sets = subsets_from(lo, n, k);
    let l = all_residues(sets);
    lemma_subsets_shape(lo, n, k);
    assert forall|j: int| 0 <= j < l.len() implies is_subset_with(#[trigger] l[j], cyclic(n), k)
        && forall|x: nat| x < lo ==> !l[j].contains(residue(x)) by {
        assert(is_subset_of_size(sets[j], lo, n, k));
        lemma_residues_len(sets[j]);
        assert forall|x: nat| x < lo implies !l[j].contains(residue(x)) by {
            assert(residue(x)[0] == x);
        }
    }
    assert forall|i: int, j: int| 0 <= i < j < l.len() implies #[trigger] l[i] != #[trigger] l[j] by {
        lemma_subsets_distinct(lo, n, k, i, j);
        if l[i] == l[j] {
            lemma_residues_injective(sets[i], sets[j]);
        }
    }
    assert forall|a: Set<Seq<nat>>|
        is_subset_with(a, cyclic(n), k) && (forall|x: nat|
            x < lo ==> !a.contains(residue(x))) implies exists|j: int|
        0 <= j < l.len() && #[trigger] l[j] == a by {
        lemma_residues_of(a, n);
        let s = residues_of(a);
        let j = lemma_subsets_complete(lo, n, k, s);
        assert(l[j] == a);
    }
}

impl<B: BitSetContents> SetWalk<FastSet<B>> for crate::fastset::EachSetExact<B> {
    open spec fn wf(&self) -> bool {
        self.well_formed() && self.universe() >= 1
    }

    open spec fn group(&self) -> u32 {
        self.universe() as u32
    }

    open spec fn all(&self) -> Seq<Set<Seq<nat>>> {
        all_residues(subsets_of_size(self.universe(), self.subset_size()))
    }

    open spec fn position(&self) -> nat {
        self.handed_out()
    }

    proof fn lemma_walk(&self) {
        self.lemma_position();
    }

    fn next(&mut self) -> (r: Option<FastSet<B>>) {
        proof {
            self.lemma_position();
            B::lemma_width();
            lemma_subsets_shape(0, self.universe(), self.subset_size());
        }
        let ghost list = subsets_of_size(self.universe(), self.subset_size());
        let ghost at = self.handed_out() as int;
        let r = crate::fastset::EachSetExact::<B>::next(self);
        proof {
            if r is Some {
                assert(is_subset_of_size(list[at], 0, self.universe(), self.subset_size()));
            }
        }
        r
    }
}

/// The list of the `k`-member sets of residues below `n` that hold 0 stands
/// for a list of the subsets of the cyclic group that hold the identity, each
/// one once.
pub proof fn lemma_listing_with_zero(n: nat, k: nat)
    requires
        1 <= n,
        1 <= k,
    ensures
        lists_subsets(
            all_residues(subsets_with_zero(n, k)),
            cyclic(n),
            k,
            |a: Set<Seq<nat>>| a.contains(zero_elem(cyclic(n))),
        ),
{
    let inner = subsets_from(1, n, (k - 1) as nat);
    let sets = subsets_with_zero(n, k);
    let l = all_residues(sets);
    let zero = zero_elem(cyclic(n));
    assert(zero =~= residue(0));
    assert(residue(0)[0] == 0);
    lemma_subsets_shape(1, n, (k - 1) as nat);
    assert forall|j: int| 0 <= j < sets.len() implies sets[j] == inner[j].insert(0)
        && is_subset_of_size(inner[j], 1, n, (k - 1) as nat) && !inner[j].contains(0) by {}
    assert forall|j: int| 0 <= j < l.len() implies is_subset_with(#[trigger] l[j], cyclic(n), k)
        && l[j].contains(zero) by {
        assert(is_subset_of_size(inner[j], 1, n, (k - 1) as nat));
        lemma_residues_len(sets[j]);
    }
    assert forall|i: int, j: int| 0 <= i < j < l.len() implies #[trigger] l[i] != #[trigger] l[j] by {
        lemma_subsets_distinct(1, n, (k - 1) as nat, i, j);
        if l[i] == l[j] {
            lemma_residues_injective(sets[i], sets[j]);
            assert(inner[i] =~= sets[i].remove(0));
            assert(inner[j] =~= sets[j].remove(0));
        }
    }
    assert forall|a: Set<Seq<nat>>| is_subset_with(a, cyclic(n), k) && a.contains(zero) implies exists|
        j: int,
    |
        0 <= j < l.len() && #[trigger] l[j] == a by {
        lemma_residues_of(a, n);
        let s = residues_of(a);
        assert(s.contains(0));
        let t = s.remove(0);
        let j = lemma_subsets_complete(1, n, (k - 1) as nat, t);
        assert(sets[j] == inner[j].insert(0));
        assert(t.insert(0) =~= s);
        assert(l[j] == a);
    }
}

/// The list of the `k`-member sets of residues below `n` that do not hold 0
/// stands for a list of the subsets of the cyclic group that do not hold the
/// identity, each one once.
pub proof fn lemma_listing_without_zero(n: nat, k: nat)
    requires
        1 <= n,
    ensures
        lists_subsets(
            all_residues(subsets_without_zero(n, k)),
            cyclic(n),
            k,
            |a: Set<Seq<nat>>| !a.contains(zero_elem(cyclic(n))),
        ),
{
    let l = all_residues(subsets_without_zero(n, k));
    let zero = zero_elem(cyclic(n));
    assert(zero =~= residue(0));
    lemma_listing(1, n, k);
    assert forall|j: int| 0 <= j < l.len() implies is_subset_with(#[trigger] l[j], cyclic(n), k)
        && !l[j].contains(zero) by {
        assert(!l[j].contains(residue(0)));
    }
    assert forall|a: Set<Seq<nat>>| is_subset_with(a, cyclic(n), k) && !a.contains(zero) implies exists|
        j: int,
    |
        0 <= j < l.len() && #[trigger] l[j] == a by {
        assert forall|x: nat| x < 1 implies !a.contains(residue(x)) by {
            assert(x == 0);
        }
    }
}

impl<B: BitSetContents> SetWalk<FastSet<B>> for crate::fastset::EachSetExactZero<B> {
    open spec fn wf(&self) -> bool {
        self.well_formed()
    }

    open spec fn group(&self) -> u32 {
        self.universe() as u32
    }

    open spec fn all(&self) -> Seq<Set<Seq<nat>>> {
        all_residues(subsets_with_zero(self.universe(), self.subset_size()))
    }

    open spec fn position(&self) -> nat {
        self.handed_out()
    }

    proof fn lemma_walk(&self) {
        self.lemma_position();
    }

    fn next(&mut self) -> (r: Option<FastSet<B>>) {
        proof {
            self.lemma_position();
            B::lemma_width();
            lemma_subsets_shape(1, self.universe(), (self.subset_size() - 1) as nat);
        }
        let ghost inner = subsets_from(1, self.universe(), (self.subset_size() - 1) as nat);
        let ghost at = self.handed_out() as int;
        let r = crate::fastset::EachSetExactZero::<B>::next(self);
        proof {
            if r is Some {
                assert(is_subset_of_size(
                    inner[at],
                    1,
                    self.universe(),
                    (self.subset_size() - 1) as nat,
                ));
            }
        }
        r
    }
}

impl<B: BitSetContents> SetWalk<FastSet<B>> for crate::fastset::EachSetExactNoZero<B> {
    open spec fn wf(&self) -> bool {
        self.well_formed()
    }

    open spec fn group(&self) -> u32 {
        self.universe() as u32
    }

    open spec fn all(&self) -> Seq<Set<Seq<nat>>> {
        all_residues(subsets_without_zero(self.universe(), self.subset_size()))
    }

    open spec fn position(&self) -> nat {
        self.handed_out()
    }

    proof fn lemma_walk(&self) {
        self.lemma_position();
    }

    fn next(&mut self) -> (r: Option<FastSet<B>>) {
        proof {
            self.lemma_position();
            B::lemma_width();
            lemma_subsets_shape(1, self.universe(), self.subset_size());
        }
        let ghost list = subsets_without_zero(self.universe(), self.subset_size());
        let ghost at = self.handed_out() as int;
        let r = crate::fastset::EachSetExactNoZero::<B>::next(self);
        proof {
            if r is Some {
                assert(is_subset_of_size(list[at], 1, self.universe(), self.subset_size()));
            }
        }
        r
    }
}

impl<B: BitSetContents> SetLike for FastSet<B> {
    type EachSetExact = crate::fastset::EachSetExact<B>;

    type EachSetExactZero = crate::fastset::EachSetExactZero<B>;

    type EachSetExactNoZero = crate::fastset::EachSetExactNoZero<B>;

    open spec fn may_add(&self, i: &u32) -> bool {
        *i < B::width()
    }

    open spec fn order(g: &u32, k: nat) -> Seq<Set<Seq<nat>>> {
        all_residues(subsets_of_size(*g as nat, k))
    }

    open spec fn order_with_zero(g: &u32, k: nat) -> Seq<Set<Seq<nat>>> {
        all_residues(subsets_with_zero(*g as nat, k))
    }

    open spec fn order_without_zero(g: &u32, k: nat) -> Seq<Set<Seq<nat>>> {
        all_residues(subsets_without_zero(*g as nat, k))
    }

    fn empty() -> (r: FastSet<B>) {
        let r = crate::fastset::empty_set();
        proof {
            assert(residues(Set::<nat>::empty()) =~= Set::<Seq<nat>>::empty());
        }
        r
    }

    fn singleton(i: u32) -> (r: FastSet<B>) {
        let r = crate::fastset::singleton(i);
        proof {
            assert(residue(i as nat)[0] == i);
            assert forall|e: Seq<nat>| r.model().contains(e) implies e == residue(i as nat) by {
                assert(e =~= residue(i as nat));
            }
            assert(r.model() =~= Set::<Seq<nat>>::empty().insert(residue(i as nat)));
        }
        r
    }

    fn each_set_exact(max_size: &u32, set_size: u32) -> (w: crate::fastset::EachSetExact<B>) {
        proof {
            lemma_listing(0, *max_size as nat, set_size as nat);
        }
        crate::fastset::each_set_exact(*max_size, set_size)
    }

    fn each_set_exact_zero(max_size: &u32, set_size: u32) -> (w: crate::fastset::EachSetExactZero<
        B,
    >) {
        proof {
            lemma_listing_with_zero(*max_size as nat, set_size as nat);
        }
        crate::fastset::each_set_exact_zero(*max_size, set_size)
    }

    fn each_set_exact_no_zero(max_size: &u32, set_size: u32) -> (w:
        crate::fastset::EachSetExactNoZero<B>) {
        proof {
            lemma_listing_without_zero(*max_size as nat, set_size as nat);
        }
        crate::fastset::each_set_exact_no_zero(*max_size, set_size)
    }

    fn is_empty(&self) -> (r: bool) {
        proof {
            assert(residues(Set::<nat>::empty()) =~= Set::<Seq<nat>>::empty());
            if residues(self@) == Set::<Seq<nat>>::empty() {
                lemma_residues_injective(self@, Set::<nat>::empty());
            }
        }
        self.isempty()
    }

    fn is_full(&self, n: &u32) -> (r: bool) {
        proof {
            self.contents.lemma_elems_below();
            lemma_residues_len(self@);
            lemma_cyclic_size(*n as nat);
            lemma_full_is_size(self@, *n as nat);
        }
        self.isfull(*n)
    }

    fn size(&self) -> (r: u32) {
        proof {
            self.contents.lemma_elems_below();
            lemma_residues_len(self@);
        }
        self.size()
    }

    fn add(&mut self, i: u32) {
        FastSet::add(self, i);
        proof {
            assert(residue(i as nat)[0] == i);
            assert forall|e: Seq<nat>| self.model().contains(e) == old(self).model().insert(
                residue(i as nat),
            ).contains(e) by {
                if e.len() == 1 && e[0] == i {
                    assert(e =~= residue(i as nat));
                }
            }
            assert(self.model() =~= old(self).model().insert(residue(i as nat)));
        }
    }

    fn has(&self, i: &u32) -> (r: bool) {
        let r = self.access(*i);
        proof {
            let e = residue(*i as nat);
            assert(e.len() == 1 && e[0] == *i);
            assert(u32::coords(i) == e);
            assert(self.model().contains(e) == self@.contains(*i as nat));
        }
        r
    }

    fn intersect(&mut self, other: FastSet<B>) {
        FastSet::intersect(self, &other);
        proof {
            assert(self.model() =~= old(self).model().intersect(other.model()));
        }
    }
}

/// A set of residues below `n` holds all of them exactly when it has `n`
/// members.
pub proof fn lemma_full_is_size(s: Set<nat>, n: nat)
    requires
        forall|x: nat| s.contains(x) ==> x < n,
    ensures
        below(n).subset_of(s) == (s.len() == n),
{
    lemma_count_below(s, n);
    lemma_count_below(below(n), n);
    crate::subsets::lemma_span_len(0, n);
    assert(below(n) =~= crate::subsets::span(0, n));
    if below(n).subset_of(s) {
        assert(s =~= below(n));
    }
    if s.len() == n {
        assert(s.subset_of(below(n)));
        vstd::set_lib::lemma_subset_equality(s, below(n));
    }
}

impl Group for Rc<Vec<u32>> {
    type Element = GElem;

    open spec fn moduli(&self) -> Seq<nat> {
        moduli_of(self@)
    }

    open spec fn wf(&self) -> bool {
        moduli_ok(self@)
    }

    open spec fn coords(e: &GElem) -> Seq<nat> {
        e@
    }

    proof fn lemma_wf(&self) {
        crate::model::lemma_group_size_positive(moduli_of(self@));
    }

    fn is_valid(&self) -> (r: bool) {
        let ghost mods = moduli_of(self@);
        if self.len() == 0 {
            return false;
        }
        let mut res: u64 = 1;
        let mut i: usize = 0;
        proof {
            assert(mods.take(0) =~= Seq::<nat>::empty());
        }
        while i < self.len()
            invariant
                i <= self@.len(),
                mods == moduli_of(self@),
                res == group_size(mods.take(i as int)),
                res <= u32::MAX,
                forall|j: int| 0 <= j < i ==> mods[j] >= 1,
            decreases self@.len() - i,
        {
            let m: u32 = self[i];
            proof {
                assert(mods[i as int] == m as nat);
                assert(mods.take(i + 1) =~= mods.take(i as int).push(mods[i as int]));
                lemma_group_size_push(mods.take(i as int), mods[i as int]);
            }
            if m == 0 {
                return false;
            }
            proof {
                assert(res * m <= 0xffff_ffff * 0xffff_ffff) by (nonlinear_arith)
                    requires
                        0 <= res <= 0xffff_ffff,
                        0 <= m <= 0xffff_ffff,
                ;
            }
            let next: u64 = res * (m as u64);
            if next > u32::MAX as u64 {
                proof {
                    // a product of the first factors that is too large leaves the size too large
                    if valid_moduli(mods) {
                        lemma_group_size_prefix(mods, i + 1);
                    }
                }
                return false;
            }
            res = next;
            i += 1;
        }
        proof {
            assert(mods.take(self@.len() as int) =~= mods);
        }
        true
    }

    fn zero(&self) -> (r: GElem) {
        let r = crate::exactset::zero_of(self.len());
        proof {
            assert(r@ =~= zero_elem(moduli_of(self@)));
        }
        r
    }

    fn gsize(&self) -> (r: u32) {
        let ghost mods = moduli_of(self@);
        let mut res: u32 = 1;
        let mut i: usize = 0;
        proof {
            assert(mods.take(0) =~= Seq::<nat>::empty());
        }
        while i < self.len()
            invariant
                i <= self@.len(),
                mods == moduli_of(self@),
                moduli_ok(self@),
                res == group_size(mods.take(i as int)),
            decreases self@.len() - i,
        {
            proof {
                assert(mods[i as int] == self@[i as int] as nat);
                assert(mods.take(i + 1) =~= mods.take(i as int).push(mods[i as int]));
                lemma_group_size_push(mods.take(i as int), mods[i as int]);
                lemma_group_size_prefix(mods, i + 1);
            }
            res = res * self[i];
            i += 1;
        }
        proof {
            assert(mods.take(self@.len() as int) =~= mods);
        }
        res
    }

    open spec fn as_cyclic(&self) -> Option<u32> {
        None
    }

    proof fn lemma_as_cyclic(&self) {
    }

    fn cyclic_order(&self) -> (r: Option<u32>) {
        None
    }
}

impl HFolds for Vec<GElem> {
    type Element = GElem;

    type Group = Rc<Vec<u32>>;

    open spec fn model(&self) -> Set<Seq<nat>> {
        set_model(self@)
    }

    open spec fn supports(g: &Rc<Vec<u32>>) -> bool {
        true
    }

    open spec fn fits(&self, g: &Rc<Vec<u32>>) -> bool {
        no_dups(self@) && in_group(self@, moduli_of(g@))
    }

    open spec fn valid(&self) -> bool {
        no_dups(self@) && self@.len() <= u32::MAX
    }

    open spec fn elem_ok(i: &GElem) -> bool {
        true
    }

    proof fn lemma_fits(&self, g: &Rc<Vec<u32>>) {
        lemma_model_len(self@);
        assert forall|e: Seq<nat>| set_model(self@).contains(e) implies is_elem(
            e,
            moduli_of(g@),
        ) by {
            let i = choose|i: int| 0 <= i < self@.len() && (#[trigger] self@[i])@ == e;
        }
        lemma_subset_size(set_model(self@), moduli_of(g@));
    }

    proof fn lemma_supports(g: &Rc<Vec<u32>>, i: &GElem) {
    }

    fn can_hold(g: &Rc<Vec<u32>>) -> (r: bool) {
        true
    }

    fn is_subset_of(&self, g: &Rc<Vec<u32>>) -> (r: bool) {
        let ghost mods = moduli_of(g@);
        let mut i: usize = 0;
        while i < self.len()
            invariant
                i <= self@.len(),
                mods == moduli_of(g@),
                forall|a: int| 0 <= a < i ==> is_elem((#[trigger] self@[a])@, mods),
                forall|a: int, b: int| 0 <= a < b < i ==> (#[trigger] self@[a])@ != (
                #[trigger] self@[b])@,
            decreases self@.len() - i,
        {
            let e = &self[i];
            proof {
                assert(e.0@.len() == e@.len());
            }
            if e.0.len() != g.len() {
                proof {
                    assert(self@[i as int]@ == e@);
                    assert(!is_elem(e@, mods));
                }
                return false;
            }
            let mut c: usize = 0;
            while c < e.0.len()
                invariant
                    c <= e.0@.len(),
                    e.0@.len() == g@.len(),
                    mods == moduli_of(g@),
                    i < self@.len(),
                    e == self@[i as int],
                    forall|q: int| 0 <= q < c ==> e.0@[q] < g@[q],
                decreases e.0@.len() - c,
            {
                if e.0[c] >= g[c] {
                    proof {
                        assert(e@[c as int] == e.0@[c as int] as nat);
                        assert(mods[c as int] == g@[c as int] as nat);
                        assert(self@[i as int]@ == e@);
                        assert(!is_elem(e@, mods));
                    }
                    return false;
                }
                c += 1;
            }
            proof {
                assert forall|q: int| 0 <= q < e@.len() implies e@[q] < mods[q] by {
                    assert(e@[q] == e.0@[q] as nat);
                    assert(mods[q] == g@[q] as nat);
                }
            }
            let mut j: usize = 0;
            while j < i
                invariant
                    j <= i,
                    i < self@.len(),
                    e == self@[i as int],
                    forall|a: int| 0 <= a < j ==> (#[trigger] self@[a])@ != e@,
                decreases i - j,
            {
                if self[j].same(e) {
                    proof {
                        assert(self@[j as int]@ == self@[i as int]@);
                    }
                    return false;
                }
                j += 1;
            }
            i += 1;
        }
        true
    }

    fn hfold_sumset(&self, h: u32, n: &Rc<Vec<u32>>) -> (r: Vec<GElem>) {
        proof {
            self.lemma_fits(n);
        }
        crate::exactset::hfold_sumset(self, h, n)
    }

    fn hfold_interval_sumset(&self, hs: (u32, u32), n: &Rc<Vec<u32>>) -> (r: Vec<GElem>) {
        proof {
            self.lemma_fits(n);
        }
        crate::exactset::hfold_interval_sumset(self, hs, n)
    }

    fn hfold_restricted_sumset(&self, h: u32, n: &Rc<Vec<u32>>) -> (r: Vec<GElem>) {
        proof {
            self.lemma_fits(n);
        }
        crate::exactset::hfold_restricted_sumset(self, h, n)
    }

    fn hfold_interval_restricted_sumset(&self, hs: (u32, u32), n: &Rc<Vec<u32>>) -> (r: Vec<
        GElem,
    >) {
        proof {
            self.lemma_fits(n);
        }
        crate::exactset::hfold_interval_restricted_sumset(self, hs, n)
    }

    fn hfold_signed_sumset(&self, h: u32, n: &Rc<Vec<u32>>) -> (r: Vec<GElem>) {
        proof {
            self.lemma_fits(n);
        }
        crate::exactset::hfold_signed_sumset(self, h, n)
    }

    fn hfold_interval_signed_sumset(&self, hs: (u32, u32), n: &Rc<Vec<u32>>) -> (r: Vec<GElem>) {
        proof {
            self.lemma_fits(n);
        }
        crate::exactset::hfold_interval_signed_sumset(self, hs, n)
    }

    fn hfold_restricted_signed_sumset(&self, h: u32, n: &Rc<Vec<u32>>) -> (r: Vec<GElem>) {
        proof {
            self.lemma_fits(n);
        }
        crate::exactset::hfold_restricted_signed_sumset(self, h, n)
    }

    fn hfold_interval_restricted_signed_sumset(&self, hs: (u32, u32), n: &Rc<Vec<u32>>) -> (r:
        Vec<GElem>) {
        proof {
            self.lemma_fits(n);
        }
        crate::exactset::hfold_interval_restricted_signed_sumset(self, hs, n)
    }
}

/// The sets that the strictly rising tuples of `k` indices pick from a list
/// are the sets of `k` entries of the list, each one once.
pub open spec fn pick_list(elems: Seq<Seq<nat>>, k: nat) -> Seq<Set<Seq<nat>>> {
    Seq::new(
        rising_from(0, elems.len(), k).len(),
        |j: int| picked(elems, rising_from(0, elems.len(), k)[j]),
    )
}

/// What `pick_list` lists.
pub proof fn lemma_pick_list(elems: Seq<Seq<nat>>, k: nat)
    requires
        forall|i: int, j: int| 0 <= i < j < elems.len() ==> #[trigger] elems[i] != #[trigger] elems[j],
    ensures
        forall|j: int|
            0 <= j < pick_list(elems, k).len() ==> (#[trigger] pick_list(elems, k)[j]).finite()
                && pick_list(elems, k)[j].len() == k && pick_list(elems, k)[j].subset_of(
                members(elems),
            ),
        forall|i: int, j: int|
            0 <= i < j < pick_list(elems, k).len() ==> #[trigger] pick_list(elems, k)[i]
                != #[trigger] pick_list(elems, k)[j],
        forall|a: Set<Seq<nat>>|
            a.finite() && a.len() == k && a.subset_of(members(elems)) ==> exists|j: int|
                0 <= j < pick_list(elems, k).len() && #[trigger] pick_list(elems, k)[j] == a,
{
    let tuples = rising_from(0, elems.len(), k);
    let l = pick_list(elems, k);
    lemma_rising_shape(0, elems.len(), k);
    assert forall|j: int| 0 <= j < l.len() implies (#[trigger] l[j]).finite() && l[j].len() == k
        && l[j].subset_of(members(elems)) by {
        assert(is_tuple(tuples[j], 0, elems.len(), k, true));
        lemma_picked_len(elems, tuples[j], k);
    }
    assert forall|i: int, j: int| 0 <= i < j < l.len() implies #[trigger] l[i] != #[trigger] l[j] by {
        assert(is_tuple(tuples[i], 0, elems.len(), k, true));
        assert(is_tuple(tuples[j], 0, elems.len(), k, true));
        lemma_rising_distinct(0, elems.len(), k, i, j);
        if l[i] == l[j] {
            lemma_picked_distinct(elems, tuples[i], tuples[j], k);
        }
    }
    assert forall|a: Set<Seq<nat>>|
        a.finite() && a.len() == k && a.subset_of(members(elems)) implies exists|j: int|
        0 <= j < l.len() && #[trigger] l[j] == a by {
        let t = lemma_picked_complete(elems, a, k);
        let j = lemma_rising_complete(0, elems.len(), k, t);
        assert(l[j] == a);
    }
}

/// The elements of the group with the codes from `shift` on, in the order of
/// their codes.
pub open spec fn elems_by_code(mods: Seq<nat>, shift: nat) -> Seq<Seq<nat>> {
    Seq::new((group_size(mods) - shift) as nat, |i: int| elem_of_code((i + shift) as nat, mods))
}

/// Each set of `l` with `e` put in.
pub open spec fn each_with(l: Seq<Set<Seq<nat>>>, e: Seq<nat>) -> Seq<Set<Seq<nat>>> {
    Seq::new(l.len(), |j: int| l[j].insert(e))
}

/// A list of the elements with the codes from `shift` on, one after the
/// other, is the list of those elements in the order of their codes.
pub proof fn lemma_pool_by_code(elems: Seq<Seq<nat>>, mods: Seq<nat>, shift: nat)
    requires
        elems.len() + shift == group_size(mods),
        forall|i: int|
            0 <= i < elems.len() ==> is_elem(#[trigger] elems[i], mods) && elem_code(elems[i], mods)
                == i + shift,
    ensures
        elems == elems_by_code(mods, shift),
{
    assert forall|i: int| 0 <= i < elems.len() implies elems[i] == elems_by_code(mods, shift)[i] by {
        lemma_elem_of_code(elems[i], mods);
    }
    assert(elems =~= elems_by_code(mods, shift));
}

/// A list of the elements with the codes from `shift` on holds every element
/// of the group whose code is at least `shift`.
pub proof fn lemma_pool_members(elems: Seq<Seq<nat>>, mods: Seq<nat>, shift: nat)
    requires
        elems.len() + shift == group_size(mods),
        forall|i: int|
            0 <= i < elems.len() ==> is_elem(#[trigger] elems[i], mods) && elem_code(elems[i], mods)
                == i + shift,
    ensures
        forall|e: Seq<nat>|
            members(elems).contains(e) == (is_elem(e, mods) && elem_code(e, mods) >= shift),
        forall|i: int, j: int| 0 <= i < j < elems.len() ==> #[trigger] elems[i] != #[trigger] elems[j],
{
    assert forall|e: Seq<nat>|
        members(elems).contains(e) == (is_elem(e, mods) && elem_code(e, mods) >= shift) by {
        if members(elems).contains(e) {
            let i = choose|i: int| 0 <= i < elems.len() && #[trigger] elems[i] == e;
            assert(elem_code(elems[i], mods) == i + shift);
        }
        if is_elem(e, mods) && elem_code(e, mods) >= shift {
            lemma_code_below(e, mods);
            let i = (elem_code(e, mods) - shift) as int;
            assert(elem_code(elems[i], mods) == i + shift);
            lemma_code_injective(elems[i], e, mods);
        }
    }
    assert forall|i: int, j: int| 0 <= i < j < elems.len() implies #[trigger] elems[i]
        != #[trigger] elems[j] by {
        assert(elem_code(elems[i], mods) == i + shift);
        assert(elem_code(elems[j], mods) == j + shift);
    }
}

/// An element with the code 0 is the identity.
pub proof fn lemma_zero_code(e: Seq<nat>, mods: Seq<nat>)
    requires
        valid_moduli(mods),
        is_elem(e, mods),
    ensures
        (elem_code(e, mods) == 0) == (e == zero_elem(mods)),
{
    lemma_code_zero(mods);
    lemma_zero_is_elem(mods);
    if elem_code(e, mods) == 0 {
        lemma_code_injective(e, zero_elem(mods), mods);
    }
}

impl SetWalk<Vec<GElem>> for crate::exactset::EachSetExact {
    open spec fn wf(&self) -> bool {
        self.well_formed()
    }

    open spec fn group(&self) -> Rc<Vec<u32>> {
        self.moduli()
    }

    open spec fn all(&self) -> Seq<Set<Seq<nat>>> {
        self.all_sets()
    }

    open spec fn position(&self) -> nat {
        self.handed_out()
    }

    proof fn lemma_walk(&self) {
        self.lemma_well_formed();
    }

    fn next(&mut self) -> (r: Option<Vec<GElem>>) {
        crate::exactset::EachSetExact::next(self)
    }
}

/// Where the coordinates `e` stand first in the list; its length where they
/// do not stand in it.
pub open spec fn first_place(v: Seq<GElem>, e: Seq<nat>) -> int
    decreases v.len(),
{
    if v.len() == 0 {
        0
    } else if v[0]@ == e {
        0
    } else {
        1 + first_place(v.drop_first(), e)
    }
}

/// `Intersect::intersect` of array_tool on the lists of coordinates: the
/// entries of `a` that `b` holds too, none twice, in the order in which they
/// stand first in `a`.
#[verifier::external_body]
fn common(a: &Vec<GElem>, b: Vec<GElem>) -> (r: Vec<GElem>)
    ensures
        set_model(r@) == set_model(a@).intersect(set_model(b@)),
        no_dups(r@),
        forall|i: int, j: int|
            0 <= i < j < r@.len() ==> first_place(a@, (#[trigger] r@[i])@) < first_place(
                a@,
                (#[trigger] r@[j])@,
            ),
{
    let left: Vec<Vec<u32>> = a.iter().map(|e| e.0.clone()).collect();
    let right: Vec<Vec<u32>> = b.into_iter().map(|e| e.0).collect();
    left.intersect(right).into_iter().map(GElem).collect()
}

impl SetLike for Vec<GElem> {
    type EachSetExact = crate::exactset::EachSetExact;

    type EachSetExactZero = crate::exactset::EachSetExact;

    type EachSetExactNoZero = crate::exactset::EachSetExact;

    open spec fn may_add(&self, i: &GElem) -> bool {
        !set_model(self@).contains(i@) && self@.len() < u32::MAX
    }

    open spec fn order(g: &Rc<Vec<u32>>, k: nat) -> Seq<Set<Seq<nat>>> {
        pick_list(elems_by_code(moduli_of(g@), 0), k)
    }

    open spec fn order_with_zero(g: &Rc<Vec<u32>>, k: nat) -> Seq<Set<Seq<nat>>> {
        each_with(
            pick_list(elems_by_code(moduli_of(g@), 1), (k - 1) as nat),
            zero_elem(moduli_of(g@)),
        )
    }

    open spec fn order_without_zero(g: &Rc<Vec<u32>>, k: nat) -> Seq<Set<Seq<nat>>> {
        pick_list(elems_by_code(moduli_of(g@), 1), k)
    }

    fn empty() -> (r: Vec<GElem>) {
        let r = crate::exactset::empty_set();
        proof {
            assert(set_model(r@) =~= Set::<Seq<nat>>::empty());
        }
        r
    }

    fn singleton(i: GElem) -> (r: Vec<GElem>) {
        let mut r: Vec<GElem> = Vec::new();
        r.push(i);
        proof {
            assert(r@[0]@ == i@);
            assert(set_model(r@) =~= Set::<Seq<nat>>::empty().insert(i@));
        }
        r
    }

    fn each_set_exact(g: &Rc<Vec<u32>>, set_size: u32) -> (w: crate::exactset::EachSetExact) {
        let w = crate::exactset::each_set_exact(set_size, g);
        proof {
            let mods = moduli_of(g@);
            let elems = views(w.elements());
            let k = set_size as nat;
            assert forall|i: int| 0 <= i < elems.len() implies is_elem(#[trigger] elems[i], mods)
                && elem_code(elems[i], mods) == i + 0 by {
                w.lemma_well_formed();
                assert(elems[i] == w.elements()[i]@);
            }
            lemma_pool_members(elems, mods, 0);
            lemma_pool_by_code(elems, mods, 0);
            lemma_pick_list(elems, k);
            lemma_members_of_views(w.fixed());
            assert(set_model(w.fixed()) =~= Set::<Seq<nat>>::empty());
            let l = w.all();
            assert forall|j: int| 0 <= j < l.len() implies l[j] == pick_list(elems, k)[j] by {
                assert(picked(elems, w.tuples()[j]).union(Set::<Seq<nat>>::empty()) =~= picked(
                    elems,
                    w.tuples()[j],
                ));
            }
            assert(l =~= pick_list(elems, k));
            assert forall|a: Set<Seq<nat>>| is_subset_with(a, mods, k) implies exists|j: int|
                0 <= j < l.len() && #[trigger] l[j] == a by {
                assert(a.subset_of(members(elems)));
            }
        }
        w
    }

    fn each_set_exact_zero(g: &Rc<Vec<u32>>, set_size: u32) -> (w: crate::exactset::EachSetExact) {
        let w = crate::exactset::each_set_exact_zero(set_size, g);
        proof {
            let mods = moduli_of(g@);
            let elems = views(w.elements());
            let k = (set_size - 1) as nat;
            let zero = zero_elem(mods);
            assert forall|i: int| 0 <= i < elems.len() implies is_elem(#[trigger] elems[i], mods)
                && elem_code(elems[i], mods) == i + 1 by {
                w.lemma_well_formed();
                assert(elems[i] == w.elements()[i]@);
            }
            lemma_pool_members(elems, mods, 1);
            lemma_pool_by_code(elems, mods, 1);
            lemma_pick_list(elems, k);
            lemma_zero_is_elem(mods);
            lemma_code_zero(mods);
            assert(set_model(w.fixed()) =~= Set::<Seq<nat>>::empty().insert(zero)) by {
                assert(w.fixed()[0]@ == zero);
            }
            let l = w.all();
            let pl = pick_list(elems, k);
            assert(l =~= each_with(pl, zero)) by {
                assert forall|j: int| 0 <= j < l.len() implies l[j] == each_with(pl, zero)[j] by {
                    assert(l[j] =~= pl[j].insert(zero));
                }
            }
            assert forall|j: int| 0 <= j < l.len() implies #[trigger] l[j] == pl[j].insert(zero)
                && !pl[j].contains(zero) by {
                assert(l[j] =~= pl[j].insert(zero));
                if pl[j].contains(zero) {
                    assert(members(elems).contains(zero));
                }
            }
            assert forall|j: int| 0 <= j < l.len() implies is_subset_with(
                #[trigger] l[j],
                mods,
                set_size as nat,
            ) && l[j].contains(zero) by {
                assert(l[j] == pl[j].insert(zero));
                assert forall|e: Seq<nat>| l[j].contains(e) implies is_elem(e, mods) by {
                    if e != zero {
                        assert(members(elems).contains(e));
                    }
                }
            }
            assert forall|i: int, j: int| 0 <= i < j < l.len() implies #[trigger] l[i]
                != #[trigger] l[j] by {
                assert(l[i] == pl[i].insert(zero) && l[j] == pl[j].insert(zero));
                if l[i] == l[j] {
                    assert(pl[i] =~= l[i].remove(zero));
                    assert(pl[j] =~= l[j].remove(zero));
                }
            }
            assert forall|a: Set<Seq<nat>>|
                is_subset_with(a, mods, set_size as nat) && a.contains(zero) implies exists|j: int|
                0 <= j < l.len() && #[trigger] l[j] == a by {
                let b = a.remove(zero);
                assert forall|e: Seq<nat>| b.contains(e) implies members(elems).contains(e) by {
                    assert(is_elem(e, mods));
                    lemma_zero_code(e, mods);
                }
                assert(b.subset_of(members(elems)));
                let j = choose|j: int| 0 <= j < pl.len() && #[trigger] pl[j] == b;
                assert(l[j] == pl[j].insert(zero));
                assert(b.insert(zero) =~= a);
            }
        }
        w
    }

    fn each_set_exact_no_zero(g: &Rc<Vec<u32>>, set_size: u32) -> (w:
        crate::exactset::EachSetExact) {
        let w = crate::exactset::each_set_exact_no_zero(set_size, g);
        proof {
            let mods = moduli_of(g@);
            let elems = views(w.elements());
            let k = set_size as nat;
            let zero = zero_elem(mods);
            assert forall|i: int| 0 <= i < elems.len() implies is_elem(#[trigger] elems[i], mods)
                && elem_code(elems[i], mods) == i + 1 by {
                w.lemma_well_formed();
                assert(elems[i] == w.elements()[i]@);
            }
            lemma_pool_members(elems, mods, 1);
            lemma_pool_by_code(elems, mods, 1);
            lemma_pick_list(elems, k);
            lemma_zero_is_elem(mods);
            lemma_code_zero(mods);
            assert(set_model(w.fixed()) =~= Set::<Seq<nat>>::empty());
            let l = w.all();
            assert forall|j: int| 0 <= j < l.len() implies l[j] == pick_list(elems, k)[j] by {
                assert(picked(elems, w.tuples()[j]).union(Set::<Seq<nat>>::empty()) =~= picked(
                    elems,
                    w.tuples()[j],
                ));
            }
            assert(l =~= pick_list(elems, k));
            assert forall|j: int| 0 <= j < l.len() implies is_subset_with(#[trigger] l[j], mods, k)
                && !l[j].contains(zero) by {
                if l[j].contains(zero) {
                    assert(members(elems).contains(zero));
                }
            }
            assert forall|a: Set<Seq<nat>>|
                is_subset_with(a, mods, k) && !a.contains(zero) implies exists|j: int|
                0 <= j < l.len() && #[trigger] l[j] == a by {
                assert forall|e: Seq<nat>| a.contains(e) implies members(elems).contains(e) by {
                    assert(is_elem(e, mods));
                    lemma_zero_code(e, mods);
                }
                assert(a.subset_of(members(elems)));
            }
        }
        w
    }

    fn is_empty(&self) -> (r: bool) {
        proof {
            if self@.len() == 0 {
                assert(set_model(self@) =~= Set::<Seq<nat>>::empty());
            } else {
                assert(set_model(self@).contains(self@[0]@));
            }
        }
        self.len() == 0
    }

    fn is_full(&self, n: &Rc<Vec<u32>>) -> (r: bool) {
        proof {
            self.lemma_fits(n);
            lemma_model_len(self@);
        }
        self.len() as u32 == n.gsize()
    }

    fn size(&self) -> (r: u32) {
        proof {
            lemma_model_len(self@);
        }
        self.len() as u32
    }

    fn add(&mut self, i: GElem) {
        let ghost before = self@;
        let ghost x = i@;
        self.push(i);
        proof {
            assert forall|a: int, b: int| 0 <= a < b < self@.len() implies #[trigger] self@[a]@
                != #[trigger] self@[b]@ by {
                if b < before.len() {
                    assert(self@[a] == before[a] && self@[b] == before[b]);
                } else {
                    assert(self@[a] == before[a]);
                }
            }
            assert forall|e: Seq<nat>| set_model(self@).contains(e) == set_model(before).insert(
                x,
            ).contains(e) by {
                if set_model(self@).contains(e) {
                    let q = choose|q: int| 0 <= q < self@.len() && (#[trigger] self@[q])@ == e;
                    if q < before.len() {
                        assert(before[q] == self@[q]);
                    }
                }
                if set_model(before).contains(e) {
                    let q = choose|q: int| 0 <= q < before.len() && (#[trigger] before[q])@ == e;
                    assert(self@[q] == before[q]);
                }
                if e == x {
                    assert(self@[before.len() as int]@ == e);
                }
            }
            assert(set_model(self@) =~= set_model(before).insert(x));
        }
    }

    fn has(&self, i: &GElem) -> (r: bool) {
        let r = holds(self, i);
        proof {
            assert(Rc::<Vec<u32>>::coords(i) == i@);
        }
        r
    }

    fn intersect(&mut self, other: Vec<GElem>) {
        let ghost before = self@;
        let tmp = common(self, other);
        proof {
            lemma_model_len(tmp@);
            lemma_model_len(before);
            vstd::set_lib::lemma_len_subset(set_model(tmp@), set_model(before));
            assert forall|g: Rc<Vec<u32>>| before.len() >= 0 && in_group(
                before,
                moduli_of(g@),
            ) implies #[trigger] in_group(tmp@, moduli_of(g@)) by {
                assert forall|q: int| 0 <= q < tmp@.len() implies is_elem(
                    (#[trigger] tmp@[q])@,
                    moduli_of(g@),
                ) by {
                    assert(set_model(tmp@).contains(tmp@[q]@));
                    assert(set_model(before).contains(tmp@[q]@));
                    let p = choose|p: int| 0 <= p < before.len() && (#[trigger] before[p])@
                        == tmp@[q]@;
                }
            }
        }
        *self = tmp;
    }
}

} // verus!
