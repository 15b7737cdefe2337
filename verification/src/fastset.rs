//! Packed subsets of a cyclic group: one bit per residue.

use crate::bitword::{below, is_least, BitSetContents};
use crate::subsets::{
    above, advance, is_pivot, is_subset_of_size, lemma_subsets_ends, lemma_subsets_shape,
    lemma_subsets_step, lemma_subsets_step_up, movable, span, step_up, subsets_from,
    subsets_of_size, subsets_with_zero, subsets_without_zero,
};
use vstd::prelude::*;

verus! {

/// Every member of `s` with `i` added modulo `m`.
pub open spec fn shift_mod(s: Set<nat>, i: nat, m: nat) -> Set<nat> {
    Set::new(|j: nat| exists|x: nat| s.contains(x) && j == (x + i) % m)
}

/// Every member of `s` with `i` subtracted modulo `m`.
pub open spec fn unshift_mod(s: Set<nat>, i: nat, m: nat) -> Set<nat> {
    shift_mod(s, (m - i) as nat, m)
}

/// Below `2 * m` a remainder modulo `m` is the number itself or `m` less.
pub proof fn lemma_mod_once(a: nat, m: nat)
    requires
        a < 2 * m,
    ensures
        a < m ==> a % m == a,
        m <= a ==> a % m == a - m,
{
    if a < m {
        vstd::arithmetic::div_mod::lemma_small_mod(a, m);
    } else {
        vstd::arithmetic::div_mod::lemma_small_mod((a - m) as nat, m);
        vstd::arithmetic::div_mod::lemma_mod_sub_multiples_vanish(a as int, m as int);
    }
}

/// Cycle the first `m` bits of a word by `i`: add `i` modulo `m` to every
/// member of the set that the word stands for.
#[inline(always)]
pub fn cycle<B: BitSetContents>(scontents: B, i: u32, m: u32) -> (r: B)
    requires
        i <= m,
        m < B::width(),
        forall|x: nat| scontents.elems().contains(x) ==> x < m,
    ensures
        r.elems() == shift_mod(scontents.elems(), i as nat, m as nat),
        forall|x: nat| r.elems().contains(x) ==> x < m,
{
    let mut ret = scontents;
    // The members that wrap around
    let high_part: B = B::max().shl(m - i);
    let mut wrapped: B = high_part.and(ret);
    let ghost kept = wrapped.elems();
    wrapped = wrapped.shr(m - i);
    ret = ret.shl(i);
    let ghost moved = ret.elems();
    ret = ret.or(wrapped);
    let cut: B = B::max().shl(m);
    let keep: B = cut.not();
    ret = ret.and(keep);
    proof {
        let s = scontents.elems();
        let w = B::width();
        let want = shift_mod(s, i as nat, m as nat);
        scontents.lemma_elems_below();
        assert forall|j: nat| ret.elems().contains(j) == want.contains(j) by {
            let low = j < i && s.contains((j + m - i) as nat);
            let high = i <= j && j < m && s.contains((j - i) as nat);
            assert(cut.elems().contains(j) == (m <= j && j < w));
            assert(keep.elems().contains(j) == (j < m));
            assert(moved.contains(j) == (i <= j && j < w && s.contains((j - i) as nat)));
            let up = (j + (m - i)) as nat;
            assert(high_part.elems().contains(up) == (m - i <= up && up < w));
            assert(kept.contains(up) == (up < w && s.contains(up)));
            assert(wrapped.elems().contains(j) == kept.contains(up));
            assert(ret.elems().contains(j) == (j < m && (moved.contains(j) || kept.contains(up))));
            assert(ret.elems().contains(j) == (low || high));
            if low {
                let x = (j + m - i) as nat;
                lemma_mod_once(x + i as nat, m as nat);
                assert(s.contains(x) && j == (x + i as nat) % (m as nat));
            }
            if high {
                let x = (j - i) as nat;
                lemma_mod_once(x + i as nat, m as nat);
                assert(s.contains(x) && j == (x + i as nat) % (m as nat));
            }
            if want.contains(j) {
                let x = choose|x: nat| s.contains(x) && j == (x + i as nat) % (m as nat);
                lemma_mod_once(x + i as nat, m as nat);
            }
        }
        assert(ret.elems() =~= want);
    }
    ret
}

/// Cycle the first `m` bits of a word back by `i`: subtract `i` modulo `m`
/// from every member.
#[inline(always)]
pub fn cycle_rev<B: BitSetContents>(scontents: B, i: u32, m: u32) -> (r: B)
    requires
        i <= m,
        m < B::width(),
        forall|x: nat| scontents.elems().contains(x) ==> x < m,
    ensures
        r.elems() == unshift_mod(scontents.elems(), i as nat, m as nat),
        forall|x: nat| r.elems().contains(x) ==> x < m,
{
    cycle(scontents, m - i, m)
}

/// A set of residues, each below the width of the word `B`, held as the
/// one-bits of a word: residue `i` is a member exactly when bit `i` is one.
#[derive(Copy, Clone)]
pub struct FastSet<B: BitSetContents = u64> {
    pub contents: B,
}

impl<B: BitSetContents> View for FastSet<B> {
    type V = Set<nat>;

    open spec fn view(&self) -> Set<nat> {
        self.contents.elems()
    }
}

/// The set that holds `i` alone.
pub fn singleton<B: BitSetContents>(i: u32) -> (r: FastSet<B>)
    requires
        i < B::width(),
    ensures
        r@ == Set::<nat>::empty().insert(i as nat),
{
    let r = FastSet { contents: B::one().shl(i) };
    proof {
        assert(r@ =~= Set::<nat>::empty().insert(i as nat));
    }
    r
}

/// The set without members.
pub fn empty_set<B: BitSetContents>() -> (r: FastSet<B>)
    ensures
        r@ == Set::<nat>::empty(),
{
    FastSet { contents: B::zero() }
}

impl<B: BitSetContents> FastSet<B> {
    /// Whether `i` is a member.
    #[inline(always)]
    pub fn access(&self, i: u32) -> (r: bool)
        requires
            i < B::width(),
        ensures
            r == self@.contains(i as nat),
    {
        let hit = self.contents.and(B::one().shl(i));
        proof {
            assert(hit.elems() =~= if self@.contains(i as nat) {
                Set::<nat>::empty().insert(i as nat)
            } else {
                Set::<nat>::empty()
            });
            assert(Set::<nat>::empty().insert(i as nat).contains(i as nat));
        }
        !hit.same(B::zero())
    }

    /// Makes `i` a member.
    #[inline(always)]
    pub fn add(&mut self, i: u32)
        requires
            i < B::width(),
        ensures
            final(self)@ == old(self)@.insert(i as nat),
    {
        self.contents = self.contents.or(B::one().shl(i));
        proof {
            assert(self@ =~= old(self)@.insert(i as nat));
        }
    }

    /// Whether every residue below `n` is a member.
    #[inline(always)]
    pub fn isfull(&self, n: u32) -> (r: bool)
        requires
            n <= B::width(),
        ensures
            r == below(n as nat).subset_of(self@),
    {
        let mask = B::low_mask(n);
        let r = self.contents.and(mask).same(mask);
        proof {
            let cut = self@.intersect(below(n as nat));
            if below(n as nat).subset_of(self@) {
                assert(cut =~= below(n as nat));
            }
            if cut == below(n as nat) {
                assert forall|i: nat| below(n as nat).contains(i) implies self@.contains(i) by {
                    assert(cut.contains(i));
                }
            }
        }
        r
    }

    /// Whether the set has no member.
    #[inline]
    pub fn isempty(&self) -> (r: bool)
        ensures
            r == (self@ == Set::<nat>::empty()),
    {
        self.contents.same(B::zero())
    }

    /// The number of members.
    #[inline(always)]
    pub fn size(&self) -> (r: u32)
        ensures
            r == self@.len(),
    {
        self.contents.num_ones()
    }

    /// Keeps the members that `other` holds too.
    #[inline(always)]
    pub fn intersect(&mut self, other: &FastSet<B>)
        ensures
            final(self)@ == old(self)@.intersect(other@),
    {
        self.contents = self.contents.and(other.contents);
    }

    /// The members in increasing order.
    #[inline(always)]
    pub fn as_vec(&self) -> (ret: Vec<u32>)
        ensures
            ret@.len() == self@.len(),
            forall|a: int, b: int| 0 <= a < b < ret@.len() ==> ret@[a] < ret@[b],
            forall|x: nat| self@.contains(x) <==> exists|a: int| 0 <= a < ret@.len() && ret@[a] == x,
    {
        let mut ret: Vec<u32> = Vec::new();
        let mut c1 = self.contents;
        proof {
            self.contents.lemma_elems_below();
        }
        while !c1.same(B::zero())
            invariant
                self@.finite(),
                c1.elems().subset_of(self@),
                ret@.len() + c1.elems().len() == self@.len(),
                forall|a: int, b: int| 0 <= a < b < ret@.len() ==> ret@[a] < ret@[b],
                forall|a: int, x: nat| 0 <= a < ret@.len() && c1.elems().contains(x) ==> ret@[a] < x,
                forall|x: nat|
                    self@.contains(x) <==> c1.elems().contains(x) || exists|a: int|
                        0 <= a < ret@.len() && ret@[a] == x,
            decreases c1.elems().len(),
        {
            proof {
                c1.lemma_elems_below();
            }
            let n = c1.bit_scan_low();
            let c2 = c1.clear_lowest();
            proof {
                assert(is_least(c1.elems(), n as nat));
                assert(c2.elems() == c1.elems().remove(n as nat));
                let old_ret = ret@;
                let new_ret = old_ret.push(n);
                assert forall|x: nat|
                    self@.contains(x) <==> c2.elems().contains(x) || exists|a: int|
                        0 <= a < new_ret.len() && new_ret[a] == x by {
                    if self@.contains(x) {
                        if c1.elems().contains(x) {
                            if x == n {
                                assert(new_ret[old_ret.len() as int] == x);
                            }
                        } else {
                            let a = choose|a: int| 0 <= a < old_ret.len() && old_ret[a] == x;
                            assert(new_ret[a] == x);
                        }
                    }
                    if exists|a: int| 0 <= a < new_ret.len() && new_ret[a] == x {
                        let a = choose|a: int| 0 <= a < new_ret.len() && new_ret[a] == x;
                        if a < old_ret.len() {
                            assert(old_ret[a] == x);
                        }
                    }
                }
            }
            ret.push(n);
            c1 = c2;
        }
        proof {
            assert(c1.elems() =~= Set::<nat>::empty());
        }
        ret
    }

    /// The set of the given residues.
    pub fn from_slice(vals: &[u32]) -> (r: FastSet<B>)
        requires
            forall|a: int| 0 <= a < vals@.len() ==> vals@[a] < B::width(),
        ensures
            forall|x: nat| r@.contains(x) <==> exists|a: int| 0 <= a < vals@.len() && vals@[a] == x,
    {
        let mut me: FastSet<B> = empty_set();
        let mut k: usize = 0;
        while k < vals.len()
            invariant
                k <= vals@.len(),
                forall|a: int| 0 <= a < vals@.len() ==> vals@[a] < B::width(),
                forall|x: nat| me@.contains(x) <==> exists|a: int| 0 <= a < k && vals@[a] == x,
            decreases vals@.len() - k,
        {
            let ghost before = me@;
            me.add(vals[k]);
            proof {
                assert forall|x: nat| me@.contains(x) <==> exists|a: int|
                    0 <= a < k + 1 && vals@[a] == x by {
                    if before.contains(x) {
                        let a = choose|a: int| 0 <= a < k && vals@[a] == x;
                        assert(0 <= a < k + 1 && vals@[a] == x);
                    }
                    if exists|a: int| 0 <= a < k + 1 && vals@[a] == x {
                        let a = choose|a: int| 0 <= a < k + 1 && vals@[a] == x;
                        if a < k {
                            assert(before.contains(x));
                        }
                    }
                }
            }
            k += 1;
        }
        me
    }
}

/// Walks through the subsets of a given size of the residues below a bound,
/// each one once, `{0, .., k-1}` first.
pub struct EachSetExact<B: BitSetContents> {
    state: B,
    setmask: B,
    doneflag: bool,
    bound: Ghost<nat>,
    size: Ghost<nat>,
    pos: Ghost<nat>,
}

impl<B: BitSetContents> EachSetExact<B> {
    /// The residues are those below `universe()`.
    pub closed spec fn universe(&self) -> nat {
        self.bound@
    }

    /// The number of members of each subset.
    pub closed spec fn subset_size(&self) -> nat {
        self.size@
    }

    /// How many subsets have been handed out.
    pub closed spec fn handed_out(&self) -> nat {
        self.pos@
    }

    /// The state is one that `each_set_exact` and `next` lead to.
    pub closed spec fn well_formed(&self) -> bool {
        let all = subsets_of_size(self.bound@, self.size@);
        &&& self.bound@ < B::width()
        &&& self.setmask.elems() == span(self.bound@, B::width())
        &&& self.doneflag ==> self.pos@ == all.len()
        &&& !self.doneflag ==> self.pos@ < all.len() && self.state.elems() == all[self.pos@ as int]
    }

    /// The subsets that are still to come, in order.
    pub open spec fn pending(&self) -> Seq<Set<nat>> {
        subsets_of_size(self.universe(), self.subset_size()).skip(self.handed_out() as int)
    }

    /// A well-formed walk is within its list.
    pub proof fn lemma_position(&self)
        requires
            self.well_formed(),
        ensures
            self.handed_out() <= subsets_of_size(self.universe(), self.subset_size()).len(),
            self.universe() < B::width(),
    {
    }

    /// Hands out the next subset, or `None` when all have been handed out.
    pub fn next(&mut self) -> (r: Option<FastSet<B>>)
        requires
            old(self).well_formed(),
        ensures
            final(self).well_formed(),
            final(self).universe() == old(self).universe(),
            final(self).subset_size() == old(self).subset_size(),
            match r {
                None => old(self).pending().len() == 0 && final(self).handed_out() == old(
                    self,
                ).handed_out(),
                Some(s) => old(self).pending().len() > 0 && s@ == old(self).pending()[0]
                    && final(self).handed_out() == old(self).handed_out() + 1,
            },
    {
        if self.doneflag {
            return None;
        }
        let ghost n = self.bound@;
        let ghost k = self.size@;
        let ghost j = self.pos@ as int;
        let ghost all = subsets_of_size(n, k);
        let ghost s = self.state.elems();
        proof {
            B::lemma_width();
            lemma_subsets_shape(0, n, k);
            assert(is_subset_of_size(all[j], 0, n, k));
        }
        // The members that can be moved to the left
        let taken_above = self.state.shr(1u32);
        let mask_above = self.setmask.shr(1u32);
        let can_be_moved_left = self.state.and(taken_above.not()).and(mask_above.not());
        proof {
            assert forall|p: nat| can_be_moved_left.elems().contains(p) == movable(s, n, p) by {
                assert(taken_above.elems().contains(p) == s.contains(p + 1));
                assert(mask_above.elems().contains(p) == span(n, B::width()).contains(p + 1));
            }
        }
        let first_moveable = B::bit_size() - can_be_moved_left.bit_scan_high();
        let ghost pivot = lemma_subsets_step(0, n, k, j);
        if first_moveable == 0 {
            proof {
                if j + 1 < all.len() {
                    assert(movable(s, n, pivot));
                    assert(can_be_moved_left.elems().contains(pivot));
                }
            }
            self.doneflag = true;
            self.pos = Ghost((j + 1) as nat);
            return Some(FastSet { contents: self.state });
        }
        let ghost p = (first_moveable - 1) as nat;
        proof {
            assert(can_be_moved_left.elems().contains(p));
            assert(movable(s, n, p));
            assert(is_pivot(s, n, p));
            assert(j + 1 < all.len());
            assert(pivot == p);
            assert(is_subset_of_size(all[j + 1], 0, n, k));
            assert(advance(s, p).contains(p + 1 + above(s, p).len()));
        }
        let update_region = B::low_mask(first_moveable - 1).not().and(self.setmask.not());
        proof {
            assert(update_region.elems() =~= span(p, n));
        }
        let moving = self.state.and(update_region);
        proof {
            assert(moving.elems() =~= above(s, p).insert(p));
            moving.lemma_elems_below();
            assert(above(s, p).finite());
            assert(!above(s, p).contains(p));
        }
        let to_fill_left = moving.num_ones() - 1;
        let old = self.state;
        // Clear the updated region
        let kept = self.state.and(update_region.not());
        let newregion = B::low_mask(to_fill_left + 1).shl(first_moveable);
        let next_state = kept.or(newregion);
        proof {
            assert(next_state.elems() =~= advance(s, p));
        }
        self.state = next_state;
        self.pos = Ghost((j + 1) as nat);
        Some(FastSet { contents: old })
    }
}

/// The walk through the `set_size`-member subsets of the residues below
/// `max_size`.
pub fn each_set_exact<B: BitSetContents>(max_size: u32, set_size: u32) -> (r: EachSetExact<B>)
    requires
        max_size < B::width(),
    ensures
        r.well_formed(),
        r.universe() == max_size,
        r.subset_size() == set_size,
        r.handed_out() == 0,
{
    proof {
        B::lemma_width();
    }
    if max_size < set_size {
        let setmask = B::low_mask(max_size).not();
        proof {
            assert(setmask.elems() =~= span(max_size as nat, B::width()));
        }
        return EachSetExact {
            state: B::zero(),
            setmask: setmask,
            doneflag: true,
            bound: Ghost(max_size as nat),
            size: Ghost(set_size as nat),
            pos: Ghost(0nat),
        };
    }
    let naivestate = B::low_mask(set_size);
    let setmask = B::low_mask(max_size).not();
    proof {
        assert(setmask.elems() =~= span(max_size as nat, B::width()));
        lemma_subsets_ends(0, max_size as nat, set_size as nat);
        assert(naivestate.elems() =~= span(0, set_size as nat));
    }
    EachSetExact {
        state: naivestate,
        setmask: setmask,
        doneflag: false,
        bound: Ghost(max_size as nat),
        size: Ghost(set_size as nat),
        pos: Ghost(0nat),
    }
}

/// Walks through the subsets of a given size that hold 0.
pub struct EachSetExactZero<B: BitSetContents> {
    esetiter: EachSetExact<B>,
}

impl<B: BitSetContents> EachSetExactZero<B> {
    /// The residues are those below `universe()`.
    pub closed spec fn universe(&self) -> nat {
        self.esetiter.universe() + 1
    }

    /// The number of members of each subset.
    pub closed spec fn subset_size(&self) -> nat {
        self.esetiter.subset_size() + 1
    }

    /// How many subsets have been handed out.
    pub closed spec fn handed_out(&self) -> nat {
        self.esetiter.handed_out()
    }

    /// The state is one that `each_set_exact_zero` and `next` lead to.
    pub closed spec fn well_formed(&self) -> bool {
        self.esetiter.well_formed() && self.esetiter.universe() + 1 < B::width()
    }

    /// The subsets that are still to come, in order.
    pub open spec fn pending(&self) -> Seq<Set<nat>> {
        subsets_with_zero(self.universe(), self.subset_size()).skip(self.handed_out() as int)
    }

    /// A well-formed walk is within its list.
    pub proof fn lemma_position(&self)
        requires
            self.well_formed(),
        ensures
            self.handed_out() <= subsets_with_zero(self.universe(), self.subset_size()).len(),
            1 <= self.universe() < B::width(),
            1 <= self.subset_size(),
    {
        lemma_subsets_step_up(0, self.esetiter.universe(), self.esetiter.subset_size());
    }

    /// Hands out the next subset, or `None` when all have been handed out.
    pub fn next(&mut self) -> (r: Option<FastSet<B>>)
        requires
            old(self).well_formed(),
        ensures
            final(self).well_formed(),
            final(self).universe() == old(self).universe(),
            final(self).subset_size() == old(self).subset_size(),
            match r {
                None => old(self).pending().len() == 0 && final(self).handed_out() == old(
                    self,
                ).handed_out(),
                Some(s) => old(self).pending().len() > 0 && s@ == old(self).pending()[0]
                    && final(self).handed_out() == old(self).handed_out() + 1,
            },
    {
        let ghost n = self.esetiter.universe();
        let ghost k = self.esetiter.subset_size();
        let ghost j = self.esetiter.handed_out() as int;
        proof {
            B::lemma_width();
            lemma_subsets_step_up(0, n, k);
            lemma_subsets_shape(0, n, k);
        }
        match self.esetiter.next() {
            None => None,
            Some(inner) => {
                let ret = FastSet { contents: inner.contents.shl(1u32).or(B::one()) };
                proof {
                    assert(is_subset_of_size(subsets_from(0, n, k)[j], 0, n, k));
                    assert(subsets_from(1, n + 1, k)[j] == step_up(inner@));
                    assert(ret@ =~= step_up(inner@).insert(0));
                }
                Some(ret)
            },
        }
    }
}

/// The walk through the `set_size`-member subsets of the residues below
/// `max_size` that hold 0.
pub fn each_set_exact_zero<B: BitSetContents>(max_size: u32, set_size: u32) -> (r:
    EachSetExactZero<B>)
    requires
        1 <= max_size < B::width(),
        1 <= set_size,
    ensures
        r.well_formed(),
        r.universe() == max_size,
        r.subset_size() == set_size,
        r.handed_out() == 0,
{
    EachSetExactZero { esetiter: each_set_exact::<B>(max_size - 1, set_size - 1) }
}

/// Walks through the subsets of a given size that do not hold 0.
pub struct EachSetExactNoZero<B: BitSetContents> {
    esetiter: EachSetExact<B>,
}

impl<B: BitSetContents> EachSetExactNoZero<B> {
    /// The residues are those below `universe()`.
    pub closed spec fn universe(&self) -> nat {
        self.esetiter.universe() + 1
    }

    /// The number of members of each subset.
    pub closed spec fn subset_size(&self) -> nat {
        self.esetiter.subset_size()
    }

    /// How many subsets have been handed out.
    pub closed spec fn handed_out(&self) -> nat {
        self.esetiter.handed_out()
    }

    /// The state is one that `each_set_exact_no_zero` and `next` lead to.
    pub closed spec fn well_formed(&self) -> bool {
        self.esetiter.well_formed() && self.esetiter.universe() + 1 < B::width()
    }

    /// The subsets that are still to come, in order.
    pub open spec fn pending(&self) -> Seq<Set<nat>> {
        subsets_without_zero(self.universe(), self.subset_size()).skip(self.handed_out() as int)
    }

    /// A well-formed walk is within its list.
    pub proof fn lemma_position(&self)
        requires
            self.well_formed(),
        ensures
            self.handed_out() <= subsets_without_zero(self.universe(), self.subset_size()).len(),
            1 <= self.universe() < B::width(),
    {
        lemma_subsets_step_up(0, self.esetiter.universe(), self.esetiter.subset_size());
    }

    /// Hands out the next subset, or `None` when all have been handed out.
    pub fn next(&mut self) -> (r: Option<FastSet<B>>)
        requires
            old(self).well_formed(),
        ensures
            final(self).well_formed(),
            final(self).universe() == old(self).universe(),
            final(self).subset_size() == old(self).subset_size(),
            match r {
                None => old(self).pending().len() == 0 && final(self).handed_out() == old(
                    self,
                ).handed_out(),
                Some(s) => old(self).pending().len() > 0 && s@ == old(self).pending()[0]
                    && final(self).handed_out() == old(self).handed_out() + 1,
            },
    {
        let ghost n = self.esetiter.universe();
        let ghost k = self.esetiter.subset_size();
        let ghost j = self.esetiter.handed_out() as int;
        proof {
            B::lemma_width();
            lemma_subsets_step_up(0, n, k);
            lemma_subsets_shape(0, n, k);
        }
        match self.esetiter.next() {
            None => None,
            Some(inner) => {
                let ret = FastSet { contents: inner.contents.shl(1u32) };
                proof {
                    assert(is_subset_of_size(subsets_from(0, n, k)[j], 0, n, k));
                    assert(subsets_from(1, n + 1, k)[j] == step_up(inner@));
                    assert(ret@ =~= step_up(inner@));
                }
                Some(ret)
            },
        }
    }
}

/// The walk through the `set_size`-member subsets of the residues below
/// `max_size` that do not hold 0.
pub fn each_set_exact_no_zero<B: BitSetContents>(max_size: u32, set_size: u32) -> (r:
    EachSetExactNoZero<B>)
    requires
        1 <= max_size < B::width(),
    ensures
        r.well_formed(),
        r.universe() == max_size,
        r.subset_size() == set_size,
        r.handed_out() == 0,
{
    EachSetExactNoZero { esetiter: each_set_exact::<B>(max_size - 1, set_size) }
}

} // verus!
