//! Subsets of any finite abelian group, as vectors of coordinate tuples.

use crate::model::{
    elem_add, elem_after, elem_code, elem_neg, group_size, is_elem, lemma_add_is_elem,
    lemma_code_after, lemma_code_below, lemma_code_top, lemma_code_zero, lemma_coordinates,
    lemma_zero_is_elem, valid_moduli, zero_elem,
};
use crate::sumset::{
    apply_terms, hfold, hfold_interval, hfold_upto, lemma_apply_push, lemma_hfold_of_empty,
    lemma_hfold_zero, lemma_sort_terms, lemma_upto_next, sort_terms, sum_terms, terms_ok, Term,
};
use crate::tuples::{
    block, bump, flip, is_bump_pos, is_first_plus, is_run_end, is_tuple, lemma_sign_lists_complete,
    lemma_sign_lists_last_only, lemma_sign_lists_shape, lemma_sign_lists_step, lemma_steady_ends,
    lemma_rising_complete, lemma_rising_shape, lemma_steady_complete, lemma_steady_shape,
    lemma_steady_step, level, rising_from, sign_lists, steady_from, uniform,
};
use crate::bitword::lemma_count_below;
use crate::tuples::{index_set, lemma_index_set_len, lemma_listing, lemma_listing_of_tuple, listing};

use itertools::Itertools;
use std::rc::Rc;
use vstd::prelude::*;

verus! {

/// An element of a product of cyclic groups: one residue for each factor.
#[derive(Hash, Eq, PartialEq, Clone, Debug)]
pub struct GElem(pub Vec<u32>);

/// The coordinates of an element.
pub open spec fn coords_of(v: Seq<u32>) -> Seq<nat> {
    Seq::new(v.len(), |i: int| v[i] as nat)
}

impl View for GElem {
    type V = Seq<nat>;

    open spec fn view(&self) -> Seq<nat> {
        coords_of(self.0@)
    }
}

/// Lists of residues with the same coordinates are the same list.
pub proof fn lemma_coords_injective(v: Seq<u32>, w: Seq<u32>)
    requires
        coords_of(v) == coords_of(w),
    ensures
        v == w,
{
    assert(v.len() == coords_of(v).len());
    assert(w.len() == coords_of(w).len());
    assert forall|i: int| 0 <= i < v.len() implies v[i] == w[i] by {
        assert(coords_of(v)[i] == v[i] as nat);
        assert(coords_of(w)[i] == w[i] as nat);
    }
    assert(v =~= w);
}

impl GElem {
    /// Whether the two elements have the same coordinates.
    pub fn same(&self, other: &GElem) -> (r: bool)
        ensures
            r == (self@ == other@),
    {
        proof {
            if self@ == other@ {
                lemma_coords_injective(self.0@, other.0@);
            }
            assert(self.0@.len() == self@.len());
            assert(other.0@.len() == other@.len());
        }
        if self.0.len() != other.0.len() {
            return false;
        }
        let mut i: usize = 0;
        while i < self.0.len()
            invariant
                i <= self.0@.len(),
                self.0@.len() == other.0@.len(),
                forall|j: int| 0 <= j < i ==> self.0@[j] == other.0@[j],
            decreases self.0@.len() - i,
        {
            if self.0[i] != other.0[i] {
                proof {
                    assert(self@[i as int] == self.0@[i as int] as nat);
                    assert(other@[i as int] == other.0@[i as int] as nat);
                }
                return false;
            }
            i += 1;
        }
        proof {
            assert(self.0@ =~= other.0@);
        }
        true
    }

    /// A copy of the element.
    pub fn copy(&self) -> (r: GElem)
        ensures
            r@ == self@,
            r.0@ == self.0@,
    {
        let mut out: Vec<u32> = Vec::new();
        let mut i: usize = 0;
        while i < self.0.len()
            invariant
                i <= self.0@.len(),
                out@ == self.0@.take(i as int),
            decreases self.0@.len() - i,
        {
            out.push(self.0[i]);
            proof {
                assert(out@ =~= self.0@.take((i + 1) as int));
            }
            i += 1;
        }
        proof {
            assert(out@ =~= self.0@);
        }
        GElem(out)
    }
}

/// The moduli of the group that a list of moduli stands for.
pub open spec fn moduli_of(mod_v: Seq<u32>) -> Seq<nat> {
    coords_of(mod_v)
}

/// The identity of the group: as many zeros as there are moduli.
pub fn zero_of(len: usize) -> (r: GElem)
    ensures
        r.0@.len() == len,
        forall|i: int| 0 <= i < len ==> r.0@[i] == 0,
        r@ == Seq::new(len as nat, |i: int| 0nat),
{
    let mut out: Vec<u32> = Vec::new();
    let mut i: usize = 0;
    while i < len
        invariant
            i <= len,
            out@.len() == i,
            forall|j: int| 0 <= j < i ==> out@[j] == 0,
        decreases len - i,
    {
        out.push(0);
        i += 1;
    }
    let r = GElem(out);
    proof {
        assert(r@ =~= Seq::new(len as nat, |i: int| 0nat));
    }
    r
}

/// The sum of two elements, coordinate by coordinate, each modulo its
/// modulus.
#[inline]
pub fn mod_sum(x: &GElem, y: &GElem, mod_v: &Rc<Vec<u32>>) -> (r: GElem)
    requires
        x.0@.len() == mod_v@.len(),
        y.0@.len() == mod_v@.len(),
        forall|i: int| 0 <= i < mod_v@.len() ==> mod_v@[i] >= 1,
    ensures
        r@ == elem_add(x@, y@, moduli_of(mod_v@)),
        r.0@.len() == mod_v@.len(),
{
    let n = x.0.len();
    let mut res: Vec<u32> = Vec::new();
    let mut i: usize = 0;
    while i < n
        invariant
            i <= n,
            n == mod_v@.len(),
            x.0@.len() == n,
            y.0@.len() == n,
            forall|j: int| 0 <= j < mod_v@.len() ==> mod_v@[j] >= 1,
            res@.len() == i,
            forall|j: int| 0 <= j < i ==> res@[j] as nat == (x.0@[j] + y.0@[j]) % (mod_v@[j] as int),
        decreases n - i,
    {
        let sum: u64 = (x.0[i] as u64) + (y.0[i] as u64);
        let m: u64 = mod_v[i] as u64;
        let z: u64 = sum % m;
        res.push(z as u32);
        i += 1;
    }
    let r = GElem(res);
    proof {
        let mods = moduli_of(mod_v@);
        lemma_coordinates(x@, y@, mods);
        assert forall|j: int| 0 <= j < mods.len() implies r@[j] == elem_add(x@, y@, mods)[j] by {
            assert(mods[j] == mod_v@[j] as nat);
            assert(x@[j] == x.0@[j] as nat);
            assert(y@[j] == y.0@[j] as nat);
        }
        assert(r@ =~= elem_add(x@, y@, mods));
    }
    r
}

/// The difference of two lists of residues, coordinate by coordinate.
#[inline]
pub fn elem_sub(x: &GElem, y: &GElem) -> (r: GElem)
    requires
        x.0@.len() == y.0@.len(),
        forall|i: int| 0 <= i < x.0@.len() ==> y.0@[i] <= x.0@[i],
    ensures
        r.0@.len() == x.0@.len(),
        forall|i: int| 0 <= i < x.0@.len() ==> r.0@[i] == x.0@[i] - y.0@[i],
{
    let n = x.0.len();
    let mut res: Vec<u32> = Vec::new();
    let mut i: usize = 0;
    while i < n
        invariant
            i <= n,
            x.0@.len() == n,
            y.0@.len() == n,
            forall|j: int| 0 <= j < n ==> y.0@[j] <= x.0@[j],
            res@.len() == i,
            forall|j: int| 0 <= j < i ==> res@[j] == x.0@[j] - y.0@[j],
        decreases n - i,
    {
        res.push(x.0[i] - y.0[i]);
        i += 1;
    }
    GElem(res)
}

/// The set without members.
pub fn empty_set() -> (r: Vec<GElem>)
    ensures
        r@.len() == 0,
{
    Vec::new()
}

/// A copy of a list of numbers.
pub fn copy_of(v: &Vec<u32>) -> (r: Vec<u32>)
    ensures
        r@ == v@,
{
    let mut out: Vec<u32> = Vec::new();
    let mut i: usize = 0;
    while i < v.len()
        invariant
            i <= v@.len(),
            out@ == v@.take(i as int),
        decreases v@.len() - i,
    {
        out.push(v[i]);
        proof {
            assert(out@ =~= v@.take((i + 1) as int));
        }
        i += 1;
    }
    proof {
        assert(out@ =~= v@);
    }
    out
}

/// Walks through the tuples of `r` indices below `n` that never fall, in
/// lexicographic order: the ways to pick `r` of `n` things where a thing may
/// be picked more than once.
pub struct CombWithReplacement {
    indices: Vec<u32>,
    n: u32,
    r: u32,
    first: bool,
    pos: Ghost<nat>,
}

impl CombWithReplacement {
    /// The number of things to pick from.
    pub closed spec fn things(&self) -> nat {
        self.n as nat
    }

    /// The number of picks.
    pub closed spec fn picks(&self) -> nat {
        self.r as nat
    }

    /// How many tuples have been handed out.
    pub closed spec fn handed_out(&self) -> nat {
        self.pos@
    }

    /// The state is one that `combinations_with_replacement` and `next` lead
    /// to.
    pub closed spec fn well_formed(&self) -> bool {
        let all = steady_from(0, self.n as nat, self.r as nat);
        &&& self.n >= 1 || self.r == 0
        &&& self.indices@.len() == self.r
        &&& self.first ==> self.pos@ == 0
        &&& !self.first ==> 1 <= self.pos@ <= all.len() && coords_of(self.indices@) == all[self.pos@
            - 1]
    }

    /// The tuples that are still to come, in order.
    pub open spec fn pending(&self) -> Seq<Seq<nat>> {
        steady_from(0, self.things(), self.picks()).skip(self.handed_out() as int)
    }

    /// A well-formed walk is within its list.
    pub proof fn lemma_position(&self)
        requires
            self.well_formed(),
        ensures
            self.handed_out() <= steady_from(0, self.things(), self.picks()).len(),
            self.things() >= 1 || self.picks() == 0,
    {
    }

    /// Hands out the next tuple, or `None` when all have been handed out.
    pub fn next(&mut self) -> (ret: Option<Vec<u32>>)
        requires
            old(self).well_formed(),
        ensures
            final(self).well_formed(),
            final(self).things() == old(self).things(),
            final(self).picks() == old(self).picks(),
            ret is None ==> old(self).pending().len() == 0 && final(self).handed_out() == old(
                self,
            ).handed_out(),
            ret is Some ==> old(self).pending().len() > 0 && coords_of(ret->0@) == old(
                self,
            ).pending()[0] && final(self).handed_out() == old(self).handed_out() + 1,
    {
        let ghost n = self.n as nat;
        let ghost r = self.r as nat;
        let ghost all = steady_from(0, n, r);
        proof {
            lemma_steady_ends(0, n, r);
            lemma_steady_shape(0, n, r);
        }
        if self.first {
            self.first = false;
            let mut zeros: Vec<u32> = Vec::new();
            let mut i: u32 = 0;
            while i < self.r
                invariant
                    i <= self.r,
                    zeros@.len() == i,
                    forall|j: int| 0 <= j < i ==> zeros@[j] == 0,
                decreases self.r - i,
            {
                zeros.push(0);
                i += 1;
            }
            proof {
                assert(coords_of(zeros@) =~= level(0, r));
                assert(coords_of(self.indices@).len() == r);
            }
            self.indices = copy_of(&zeros);
            self.pos = Ghost(1nat);
            return Some(zeros);
        }
        let ghost j = (self.pos@ - 1) as int;
        let ghost t = coords_of(self.indices@);
        let ghost at = lemma_steady_step(0, n, r, j);
        proof {
            assert(is_tuple(all[j], 0, n, r, false));
        }
        let mut found: bool = false;
        let mut found_index: usize = 0;
        let mut i: usize = self.r as usize;
        while i > 0
            invariant_except_break
                !found,
                forall|q: int| i <= q < self.r ==> #[trigger] t[q] + 1 == self.n,
            invariant
                i <= self.r,
                self.indices@.len() == self.r,
                t == coords_of(self.indices@),
                self.n >= 1 || self.r == 0,
                n == self.n,
                forall|q: int| 0 <= q < self.r ==> #[trigger] t[q] < n,
            ensures
                found ==> is_bump_pos(t, self.n as nat, found_index as int),
                !found ==> forall|q: int| 0 <= q < self.r ==> #[trigger] t[q] + 1 == self.n,
            decreases i,
        {
            i -= 1;
            proof {
                assert(t[i as int] == self.indices@[i as int] as nat);
            }
            if self.indices[i] != self.n - 1 {
                found_index = i;
                found = true;
                proof {
                    assert(t[i as int] < n);
                }
                break;
            }
        }
        if !found {
            proof {
                if j + 1 < all.len() {
                    assert(is_bump_pos(t, n, at));
                    assert(t[at] + 1 == n);
                }
            }
            return None;
        }
        proof {
            if j + 1 == all.len() {
                assert(t == level((n - 1) as nat, r));
                assert(t[found_index as int] == (n - 1) as nat);
            }
            assert(is_bump_pos(t, n, at));
            if at < found_index {
                assert(t[found_index as int] + 1 == n);
            }
            if found_index < at {
                assert(t[at] + 1 == n);
            }
            assert(at == found_index);
            assert(t[found_index as int] == self.indices@[found_index as int] as nat);
        }
        let val_at: u32 = self.indices[found_index] + 1;
        let mut k: usize = found_index;
        let ghost before = self.indices@;
        while k < self.r as usize
            invariant
                found_index <= k <= self.r,
                self.indices@.len() == self.r,
                before.len() == self.r,
                self.n == n,
                self.r == r,
                !self.first,
                forall|q: int| 0 <= q < found_index ==> self.indices@[q] == before[q],
                forall|q: int| found_index <= q < k ==> self.indices@[q] == val_at,
            decreases self.r - k,
        {
            self.indices.set(k, val_at);
            k += 1;
        }
        proof {
            assert(coords_of(self.indices@) =~= bump(t, found_index as int)) by {
                let got = coords_of(self.indices@);
                let want = bump(t, found_index as int);
                assert(got.len() == want.len());
                assert forall|q: int| 0 <= q < got.len() implies got[q] == want[q] by {
                    if q < found_index {
                        assert(t[q] == before[q] as nat);
                    }
                }
            }
        }
        self.pos = Ghost((j + 2) as nat);
        Some(copy_of(&self.indices))
    }
}

/// The walk through the ways to pick `r` of `n` things where a thing may be
/// picked more than once.
pub fn combinations_with_replacement(n: u32, r: u32) -> (c: CombWithReplacement)
    requires
        n >= 1 || r == 0,
    ensures
        c.well_formed(),
        c.things() == n,
        c.picks() == r,
        c.handed_out() == 0,
{
    let mut zeros: Vec<u32> = Vec::new();
    let mut i: u32 = 0;
    while i < r
        invariant
            i <= r,
            zeros@.len() == i,
        decreases r - i,
    {
        zeros.push(0);
        i += 1;
    }
    CombWithReplacement { indices: zeros, n: n, r: r, first: true, pos: Ghost(0nat) }
}

/// A walk of `itertools` through the combinations of indices.
#[verifier::external_body]
pub struct IndexCombinations {
    inner: itertools::Combinations<std::ops::Range<u32>>,
}

/// The combinations that a walk has still to hand out, in order.
pub uninterp spec fn combinations_left(c: IndexCombinations) -> Seq<Seq<nat>>;

/// `Itertools::combinations` on the range of the indices below `n`: the walk
/// through the `k`-length combinations of the indices, each strictly rising,
/// in lexicographic order.
#[verifier::external_body]
fn index_combinations(n: u32, k: usize) -> (c: IndexCombinations)
    ensures
        combinations_left(c) == rising_from(0, n as nat, k as nat),
{
    IndexCombinations { inner: (0..n).combinations(k) }
}

/// `Iterator::next` of the walk: the first combination that was left, or
/// `None` where none was left.
#[verifier::external_body]
fn next_combination(c: &mut IndexCombinations) -> (r: Option<Vec<u32>>)
    ensures
        r is None ==> combinations_left(*old(c)).len() == 0 && combinations_left(*final(c))
            == combinations_left(*old(c)),
        r is Some ==> combinations_left(*old(c)).len() > 0 && r->0@.len() == combinations_left(
            *old(c),
        )[0].len() && (forall|i: int| 0 <= i < r->0@.len() ==> r->0@[i] as nat == combinations_left(
            *old(c),
        )[0][i]) && combinations_left(*final(c)) == combinations_left(*old(c)).drop_first(),
{
    c.inner.next()
}

/// The set that a list of elements stands for.
pub open spec fn set_model(v: Seq<GElem>) -> Set<Seq<nat>> {
    Set::new(|e: Seq<nat>| exists|i: int| 0 <= i < v.len() && #[trigger] v[i]@ == e)
}

/// No element occurs twice in the list.
pub open spec fn no_dups(v: Seq<GElem>) -> bool {
    forall|i: int, j: int| 0 <= i < j < v.len() ==> #[trigger] v[i]@ != #[trigger] v[j]@
}

/// Every element of the list is an element of the group.
pub open spec fn in_group(v: Seq<GElem>, mods: Seq<nat>) -> bool {
    forall|i: int| 0 <= i < v.len() ==> is_elem(#[trigger] v[i]@, mods)
}

/// The coordinates of the elements of a list.
pub open spec fn views(v: Seq<GElem>) -> Seq<Seq<nat>> {
    Seq::new(v.len(), |i: int| v[i]@)
}

/// A list without a repeated element stands for a set of as many members as
/// it has entries.
pub proof fn lemma_model_len(v: Seq<GElem>)
    requires
        no_dups(v),
    ensures
        set_model(v).finite(),
        set_model(v).len() == v.len(),
    decreases v.len(),
{
    if v.len() == 0 {
        assert(set_model(v) =~= Set::<Seq<nat>>::empty());
    } else {
        let init = v.drop_last();
        let last = v.last();
        assert forall|i: int, j: int| 0 <= i < j < init.len() implies #[trigger] init[i]@
            != #[trigger] init[j]@ by {
            assert(init[i] == v[i] && init[j] == v[j]);
        }
        lemma_model_len(init);
        assert(!set_model(init).contains(last@)) by {
            if set_model(init).contains(last@) {
                let i = choose|i: int| 0 <= i < init.len() && #[trigger] init[i]@ == last@;
                assert(init[i] == v[i]);
                assert(v[i]@ != v[v.len() - 1]@);
            }
        }
        assert forall|e: Seq<nat>| set_model(v).contains(e) == set_model(init).insert(
            last@,
        ).contains(e) by {
            if set_model(v).contains(e) {
                let i = choose|i: int| 0 <= i < v.len() && #[trigger] v[i]@ == e;
                if i < init.len() {
                    assert(init[i] == v[i]);
                }
            }
            if set_model(init).contains(e) {
                let i = choose|i: int| 0 <= i < init.len() && #[trigger] init[i]@ == e;
                assert(v[i] == init[i]);
            }
            if e == last@ {
                assert(v[v.len() - 1]@ == e);
            }
        }
        assert(set_model(v) =~= set_model(init).insert(last@));
    }
}

/// Whether `e` is a member of the set.
pub fn holds(set: &Vec<GElem>, e: &GElem) -> (r: bool)
    ensures
        r == set_model(set@).contains(e@),
{
    let mut i: usize = 0;
    while i < set.len()
        invariant
            i <= set@.len(),
            forall|j: int| 0 <= j < i ==> (#[trigger] set@[j])@ != e@,
        decreases set@.len() - i,
    {
        if set[i].same(e) {
            return true;
        }
        i += 1;
    }
    false
}

/// Makes `e` a member of the set, unless it is one.
pub fn put(res: &mut Vec<GElem>, e: GElem)
    ensures
        set_model(final(res)@) == set_model(old(res)@).insert(e@),
        no_dups(old(res)@) ==> no_dups(final(res)@),
        forall|mods: Seq<nat>|
            in_group(old(res)@, mods) && is_elem(e@, mods) ==> #[trigger] in_group(
                final(res)@,
                mods,
            ),
{
    if holds(res, &e) {
        proof {
            assert(set_model(res@) =~= set_model(res@).insert(e@));
        }
        return;
    }
    let ghost before = res@;
    let ghost x = e@;
    res.push(e);
    proof {
        assert forall|f: Seq<nat>| set_model(res@).contains(f) == set_model(before).insert(
            x,
        ).contains(f) by {
            if set_model(res@).contains(f) {
                let i = choose|i: int| 0 <= i < res@.len() && #[trigger] res@[i]@ == f;
                if i < before.len() {
                    assert(before[i] == res@[i]);
                }
            }
            if set_model(before).contains(f) {
                let i = choose|i: int| 0 <= i < before.len() && #[trigger] before[i]@ == f;
                assert(res@[i] == before[i]);
            }
            if f == x {
                assert(res@[before.len() as int]@ == f);
            }
        }
        assert(set_model(res@) =~= set_model(before).insert(x));
        if no_dups(before) {
            assert forall|i: int, j: int| 0 <= i < j < res@.len() implies #[trigger] res@[i]@
                != #[trigger] res@[j]@ by {
                if j < before.len() {
                    assert(res@[i] == before[i] && res@[j] == before[j]);
                } else {
                    assert(res@[i] == before[i]);
                    assert(!set_model(before).contains(x));
                }
            }
        }
        assert forall|mods: Seq<nat>| in_group(before, mods) && is_elem(x, mods) implies #[trigger] in_group(
            res@,
            mods,
        ) by {
            assert forall|i: int| 0 <= i < res@.len() implies is_elem(#[trigger] res@[i]@, mods) by {
                if i < before.len() {
                    assert(res@[i] == before[i]);
                }
            }
        }
    }
}

/// The signs that a list of coefficients stands for: 0 is minus, anything
/// else is plus.
pub open spec fn signs_of(coeffs: Seq<u32>) -> Seq<bool> {
    Seq::new(coeffs.len(), |i: int| coeffs[i] != 0)
}

/// The terms that a tuple of indices into a list of elements stands for,
/// with their signs.
pub open spec fn terms_of(t: Seq<nat>, signs: Seq<bool>, elems: Seq<Seq<nat>>) -> Seq<Term> {
    Seq::new(t.len(), |j: int| Term { elem: elems[t[j] as int], plus: signs[j] })
}

/// The sum of the elements at the given indices, each added or, where its
/// coefficient is 0, subtracted.
pub fn tuple_sum(
    indices: &Vec<u32>,
    coeffs: &Vec<u32>,
    as_vec: &Vec<GElem>,
    mod_v: &Rc<Vec<u32>>,
) -> (r: GElem)
    requires
        indices@.len() == coeffs@.len(),
        forall|j: int| 0 <= j < indices@.len() ==> indices@[j] < as_vec@.len(),
        in_group(as_vec@, moduli_of(mod_v@)),
        valid_moduli(moduli_of(mod_v@)),
    ensures
        r@ == sum_terms(
            terms_of(coords_of(indices@), signs_of(coeffs@), views(as_vec@)),
            moduli_of(mod_v@),
        ),
        is_elem(r@, moduli_of(mod_v@)),
{
    let ghost mods = moduli_of(mod_v@);
    let ghost ts = terms_of(coords_of(indices@), signs_of(coeffs@), views(as_vec@));
    let n: usize = mod_v.len();
    let mut prev = zero_of(n);
    proof {
        assert(zero_elem(mods) =~= prev@);
        lemma_zero_is_elem(mods);
        assert(ts.take(0) =~= Seq::<Term>::empty());
        assert forall|i: int| 0 <= i < mod_v@.len() implies mod_v@[i] >= 1 by {
            assert(mods[i] == mod_v@[i] as nat);
        }
    }
    let mut j: usize = 0;
    while j < indices.len()
        invariant
            j <= indices@.len(),
            indices@.len() == coeffs@.len(),
            forall|q: int| 0 <= q < indices@.len() ==> indices@[q] < as_vec@.len(),
            in_group(as_vec@, mods),
            valid_moduli(mods),
            mods == moduli_of(mod_v@),
            forall|i: int| 0 <= i < mod_v@.len() ==> mod_v@[i] >= 1,
            ts == terms_of(coords_of(indices@), signs_of(coeffs@), views(as_vec@)),
            prev@ == apply_terms(zero_elem(mods), ts.take(j as int), mods),
            is_elem(prev@, mods),
            prev.0@.len() == mod_v@.len(),
        decreases indices@.len() - j,
    {
        let elem = &as_vec[indices[j] as usize];
        let ghost t = ts[j as int];
        proof {
            assert(t.elem == elem@);
            assert(t.plus == (coeffs@[j as int] != 0));
            assert(is_elem(elem@, mods));
            assert(elem.0@.len() == elem@.len());
            assert(ts.take((j + 1) as int) =~= ts.take(j as int).push(t));
            lemma_apply_push(zero_elem(mods), ts.take(j as int), t, mods);
        }
        if coeffs[j] == 0 {
            let whole = GElem(copy_of(mod_v));
            proof {
                assert forall|i: int| 0 <= i < whole.0@.len() implies elem.0@[i] <= whole.0@[i] by {
                    assert(elem@[i] == elem.0@[i] as nat);
                    assert(mods[i] == mod_v@[i] as nat);
                }
            }
            let inverse = elem_sub(&whole, elem);
            let next = mod_sum(&prev, &inverse, mod_v);
            proof {
                let neg = elem_neg(elem@, mods);
                lemma_coordinates(prev@, inverse@, mods);
                lemma_coordinates(prev@, neg, mods);
                lemma_coordinates(elem@, elem@, mods);
                assert forall|i: int| 0 <= i < mods.len() implies elem_add(prev@, inverse@, mods)[i]
                    == elem_add(prev@, neg, mods)[i] by {
                    assert(inverse@[i] == inverse.0@[i] as nat);
                    assert(elem@[i] == elem.0@[i] as nat);
                    assert(mods[i] == mod_v@[i] as nat);
                    vstd::arithmetic::div_mod::lemma_add_mod_noop_right(
                        prev@[i] as int,
                        (mods[i] - elem@[i]) as int,
                        mods[i] as int,
                    );
                }
                assert(elem_add(prev@, inverse@, mods) =~= elem_add(prev@, neg, mods));
                lemma_add_is_elem(prev@, neg, mods);
            }
            prev = next;
        } else {
            let next = mod_sum(&prev, elem, mod_v);
            proof {
                lemma_add_is_elem(prev@, elem@, mods);
            }
            prev = next;
        }
        j += 1;
    }
    proof {
        assert(ts.take(indices@.len() as int) =~= ts);
    }
    prev
}

/// The sums that a tuple of indices stands for: one for each way to give
/// equal signs to equal indices, or the sum of the elements alone where
/// nothing is subtracted.
pub open spec fn sums_of_tuple(
    t: Seq<nat>,
    elems: Seq<Seq<nat>>,
    signed: bool,
    mods: Seq<nat>,
) -> Set<Seq<nat>> {
    Set::new(
        |x: Seq<nat>|
            exists|signs: Seq<bool>|
                uniform(signs, t) && (!signed ==> signs == block(true, t.len())) && x
                    == #[trigger] sum_terms(terms_of(t, signs, elems), mods),
    )
}

/// The sums for the first `upto` entries of a list of sign lists.
pub open spec fn sums_upto(
    t: Seq<nat>,
    elems: Seq<Seq<nat>>,
    lists: Seq<Seq<bool>>,
    upto: int,
    mods: Seq<nat>,
) -> Set<Seq<nat>> {
    Set::new(
        |x: Seq<nat>|
            exists|j: int|
                0 <= j < upto && x == #[trigger] sum_terms(terms_of(t, lists[j], elems), mods),
    )
}

/// As many coefficients, all 1.
fn ones(len: usize) -> (r: Vec<u32>)
    ensures
        r@.len() == len,
        signs_of(r@) == block(true, len as nat),
{
    let mut out: Vec<u32> = Vec::new();
    let mut i: usize = 0;
    while i < len
        invariant
            i <= len,
            out@.len() == i,
            forall|j: int| 0 <= j < i ==> out@[j] == 1,
        decreases len - i,
    {
        out.push(1);
        i += 1;
    }
    proof {
        assert(signs_of(out@) =~= block(true, len as nat));
    }
    out
}

/// Puts into `res` the sums that the tuple of indices stands for.
pub fn put_sums(
    indices: &Vec<u32>,
    as_vec: &Vec<GElem>,
    mod_v: &Rc<Vec<u32>>,
    signed: bool,
    res: &mut Vec<GElem>,
)
    requires
        indices@.len() >= 1,
        forall|j: int| 0 <= j < indices@.len() ==> indices@[j] < as_vec@.len(),
        forall|i: int, j: int| 0 <= i < j < indices@.len() ==> indices@[i] <= indices@[j],
        in_group(as_vec@, moduli_of(mod_v@)),
        valid_moduli(moduli_of(mod_v@)),
        no_dups(old(res)@),
        in_group(old(res)@, moduli_of(mod_v@)),
    ensures
        set_model(final(res)@) == set_model(old(res)@).union(
            sums_of_tuple(coords_of(indices@), views(as_vec@), signed, moduli_of(mod_v@)),
        ),
        no_dups(final(res)@),
        in_group(final(res)@, moduli_of(mod_v@)),
{
    let ghost mods = moduli_of(mod_v@);
    let ghost t = coords_of(indices@);
    let ghost elems = views(as_vec@);
    let ghost start = set_model(res@);
    let len: usize = indices.len();
    let mut coeffs: Vec<u32> = ones(len);
    proof {
        assert forall|i: int, j: int| 0 <= i < j < t.len() implies t[i] <= t[j] by {
            assert(t[i] == indices@[i] as nat && t[j] == indices@[j] as nat);
        }
        lemma_sign_lists_shape(t, t.len() as int);
    }
    if !signed {
        let sum = tuple_sum(indices, &coeffs, as_vec, mod_v);
        put(res, sum);
        proof {
            let want = start.union(sums_of_tuple(t, elems, signed, mods));
            let plus = block(true, t.len());
            assert(uniform(plus, t));
            assert(set_model(res@) =~= want);
        }
        return;
    }
    let ghost lists = sign_lists(t, t.len() as int);
    let ghost at: int = 0;
    proof {
        assert(sums_upto(t, elems, lists, 0, mods) =~= Set::<Seq<nat>>::empty());
        assert(start.union(Set::<Seq<nat>>::empty()) =~= start);
    }
    loop
        invariant_except_break
            0 <= at < lists.len(),
            signs_of(coeffs@) == lists[at],
            set_model(res@) == start.union(sums_upto(t, elems, lists, at, mods)),
        invariant
            len == indices@.len(),
            len >= 1,
            coeffs@.len() == len,
            t == coords_of(indices@),
            elems == views(as_vec@),
            mods == moduli_of(mod_v@),
            lists == sign_lists(t, t.len() as int),
            forall|j: int| 0 <= j < indices@.len() ==> indices@[j] < as_vec@.len(),
            forall|i: int, j: int| 0 <= i < j < t.len() ==> t[i] <= t[j],
            in_group(as_vec@, mods),
            valid_moduli(mods),
            no_dups(res@),
            in_group(res@, mods),
        ensures
            set_model(res@) == start.union(sums_upto(t, elems, lists, lists.len() as int, mods)),
        decreases lists.len() - at,
    {
        let sum = tuple_sum(indices, &coeffs, as_vec, mod_v);
        let ghost before = set_model(res@);
        put(res, sum);
        proof {
            let now = start.union(sums_upto(t, elems, lists, at + 1, mods));
            assert forall|x: Seq<nat>| set_model(res@).contains(x) == now.contains(x) by {
                if sums_upto(t, elems, lists, at + 1, mods).contains(x) {
                    let j = choose|j: int|
                        0 <= j < at + 1 && x == #[trigger] sum_terms(
                            terms_of(t, lists[j], elems),
                            mods,
                        );
                    if j < at {
                        assert(sums_upto(t, elems, lists, at, mods).contains(x));
                    }
                }
                if sums_upto(t, elems, lists, at, mods).contains(x) {
                    let j = choose|j: int|
                        0 <= j < at && x == #[trigger] sum_terms(terms_of(t, lists[j], elems), mods);
                    assert(0 <= j < at + 1);
                }
                if x == sum@ {
                    assert(x == sum_terms(terms_of(t, lists[at], elems), mods));
                }
            }
            assert(set_model(res@) =~= now);
        }
        let ghost c = signs_of(coeffs@);
        let mut found_index: usize = 0;
        let mut found: bool = true;
        while coeffs[found_index] == 0
            invariant_except_break
                found,
            invariant
                found_index < len,
                coeffs@.len() == len,
                c.len() == len,
                forall|q: int| 0 <= q < found_index ==> !#[trigger] c[q],
                forall|q: int| 0 <= q < found_index ==> coeffs@[q] == 1,
                forall|q: int| found_index <= q < len ==> (#[trigger] coeffs@[q] != 0) == c[q],
            ensures
                found ==> is_first_plus(c, found_index as int),
                !found ==> c == block(false, len as nat),
                found_index < len,
                coeffs@.len() == len,
                forall|q: int| 0 <= q < found_index ==> coeffs@[q] == 1,
                forall|q: int| found_index <= q < len ==> (#[trigger] coeffs@[q] != 0) == c[q],
            decreases len - found_index,
        {
            if found_index == len - 1 {
                found = false;
                proof {
                    assert(c =~= block(false, len as nat));
                }
                break;
            }
            coeffs.set(found_index, 1);
            found_index += 1;
        }
        if !found {
            proof {
                lemma_sign_lists_last_only(t, t.len() as int, at);
            }
            break;
        } else {
            // Give the inverse sign to the positions with the same index
            let val_at = indices[found_index];
            let mut indx: usize = found_index;
            while indx < len && indices[indx] == val_at
                invariant
                    found_index <= indx <= len,
                    len == indices@.len(),
                    coeffs@.len() == len,
                    c.len() == len,
                    val_at == indices@[found_index as int],
                    forall|q: int| 0 <= q < found_index ==> coeffs@[q] == 1,
                    forall|q: int| found_index <= q < indx ==> coeffs@[q] == 0,
                    forall|q: int| found_index <= q < indx ==> indices@[q] == val_at,
                    forall|q: int| indx <= q < len ==> (#[trigger] coeffs@[q] != 0) == c[q],
                decreases len - indx,
            {
                coeffs.set(indx, 0);
                indx += 1;
            }
            proof {
                assert(t.take(t.len() as int) =~= t);
                assert(is_run_end(t, found_index as int, indx as int)) by {
                    assert forall|q: int| found_index <= q < indx implies #[trigger] t[q]
                        == t[found_index as int] by {
                        assert(t[q] == indices@[q] as nat);
                    }
                    assert(t[found_index as int] == indices@[found_index as int] as nat);
                    if indx < len {
                        assert(t[indx as int] == indices@[indx as int] as nat);
                    }
                }
                if at + 1 == lists.len() {
                    lemma_sign_lists_shape(t, t.len() as int);
                    assert(c == lists.last());
                    assert(c == block(false, len as nat));
                    assert(c[found_index as int] == false);
                }
                lemma_sign_lists_step(t, t.len() as int, at, found_index as int, indx as int);
                assert(signs_of(coeffs@) =~= flip(c, found_index as int, indx as int));
                at = at + 1;
            }
        }
    }
    proof {
        let all = sums_upto(t, elems, lists, lists.len() as int, mods);
        let want = sums_of_tuple(t, elems, signed, mods);
        assert forall|x: Seq<nat>| all.contains(x) == want.contains(x) by {
            if all.contains(x) {
                let j = choose|j: int|
                    0 <= j < lists.len() && x == #[trigger] sum_terms(
                        terms_of(t, lists[j], elems),
                        mods,
                    );
                assert(uniform(lists[j], t)) by {
                    assert(lists[j].len() == t.len());
                    assert forall|a: int, b: int|
                        0 <= a < t.len() && 0 <= b < t.len() && #[trigger] t[a]
                            == #[trigger] t[b] implies lists[j][a] == lists[j][b] by {
                        assert(sign_lists(t, t.len() as int)[j][a] == sign_lists(
                            t,
                            t.len() as int,
                        )[j][b]);
                    }
                }
            }
            if want.contains(x) {
                let signs = choose|signs: Seq<bool>|
                    uniform(signs, t) && (!signed ==> signs == block(true, t.len())) && x
                        == #[trigger] sum_terms(terms_of(t, signs, elems), mods);
                let j = lemma_sign_lists_complete(t, t.len() as int, signs);
                assert(x == sum_terms(terms_of(t, lists[j], elems), mods));
            }
        }
        assert(all =~= want);
    }
}

/// The tuples of indices that a kind of sumset goes through.
pub open spec fn tuples_for(n: nat, h: nat, restricted: bool) -> Seq<Seq<nat>> {
    if restricted {
        rising_from(0, n, h)
    } else {
        steady_from(0, n, h)
    }
}

/// The sums that the first `upto` tuples of a list stand for.
pub open spec fn all_sums(
    tuples: Seq<Seq<nat>>,
    upto: int,
    elems: Seq<Seq<nat>>,
    signed: bool,
    mods: Seq<nat>,
) -> Set<Seq<nat>> {
    Set::new(
        |x: Seq<nat>|
            exists|j: int|
                0 <= j < upto && (#[trigger] sums_of_tuple(tuples[j], elems, signed, mods)).contains(
                    x,
                ),
    )
}

/// The set of the entries of a list.
pub open spec fn members(elems: Seq<Seq<nat>>) -> Set<Seq<nat>> {
    Set::new(|e: Seq<nat>| exists|i: int| 0 <= i < elems.len() && #[trigger] elems[i] == e)
}

/// Where `e` stands in the list.
pub open spec fn index_in(elems: Seq<Seq<nat>>, e: Seq<nat>) -> int {
    choose|i: int| 0 <= i < elems.len() && #[trigger] elems[i] == e
}

/// The terms of a tuple of indices count for the kind of sumset that goes
/// through the tuple.
proof fn lemma_tuple_terms_ok(
    t: Seq<nat>,
    signs: Seq<bool>,
    elems: Seq<Seq<nat>>,
    h: nat,
    restricted: bool,
    signed: bool,
)
    requires
        is_tuple(t, 0, elems.len(), h, restricted),
        uniform(signs, t),
        !signed ==> signs == block(true, t.len()),
        forall|i: int, j: int| 0 <= i < j < elems.len() ==> #[trigger] elems[i] != #[trigger] elems[j],
    ensures
        terms_ok(terms_of(t, signs, elems), members(elems), restricted, signed),
        terms_of(t, signs, elems).len() == h,
{
    let ts = terms_of(t, signs, elems);
    assert forall|i: int| 0 <= i < ts.len() implies members(elems).contains(#[trigger] ts[i].elem) by {
        assert(t[i] < elems.len());
        assert(elems[t[i] as int] == ts[i].elem);
    }
    assert forall|i: int, j: int| 0 <= i < ts.len() && 0 <= j < ts.len() && i != j && (
    #[trigger] ts[i]).elem == (#[trigger] ts[j]).elem implies t[i] == t[j] by {
        assert(t[i] < elems.len() && t[j] < elems.len());
        if t[i] < t[j] {
            assert(elems[t[i] as int] != elems[t[j] as int]);
        }
        if t[j] < t[i] {
            assert(elems[t[j] as int] != elems[t[i] as int]);
        }
    }
    if restricted {
        assert forall|i: int, j: int| 0 <= i < j < ts.len() implies (#[trigger] ts[i]).elem != (
        #[trigger] ts[j]).elem by {
            assert(t[i] < t[j]);
        }
    }
    assert forall|i: int, j: int|
        0 <= i < ts.len() && 0 <= j < ts.len() && (#[trigger] ts[i]).elem == (
        #[trigger] ts[j]).elem implies ts[i].plus == ts[j].plus by {
        if i != j {
            assert(t[i] == t[j]);
        }
    }
}

/// The sums that the tuples of indices stand for are the sumset of their
/// kind.
pub proof fn lemma_tuples_are_hfold(
    elems: Seq<Seq<nat>>,
    h: nat,
    mods: Seq<nat>,
    restricted: bool,
    signed: bool,
)
    requires
        valid_moduli(mods),
        forall|i: int| 0 <= i < elems.len() ==> is_elem(#[trigger] elems[i], mods),
        forall|i: int, j: int| 0 <= i < j < elems.len() ==> #[trigger] elems[i] != #[trigger] elems[j],
    ensures
        all_sums(
            tuples_for(elems.len(), h, restricted),
            tuples_for(elems.len(), h, restricted).len() as int,
            elems,
            signed,
            mods,
        ) == hfold(members(elems), h, mods, restricted, signed),
{
    let n = elems.len();
    let tuples = tuples_for(n, h, restricted);
    let got = all_sums(tuples, tuples.len() as int, elems, signed, mods);
    let a = members(elems);
    let want = hfold(a, h, mods, restricted, signed);
    if restricted {
        lemma_rising_shape(0, n, h);
    } else {
        lemma_steady_shape(0, n, h);
    }
    assert forall|x: Seq<nat>| got.contains(x) implies want.contains(x) by {
        let j = choose|j: int|
            0 <= j < tuples.len() && (#[trigger] sums_of_tuple(
                tuples[j],
                elems,
                signed,
                mods,
            )).contains(x);
        let t = tuples[j];
        let signs = choose|signs: Seq<bool>|
            uniform(signs, t) && (!signed ==> signs == block(true, t.len())) && x
                == #[trigger] sum_terms(terms_of(t, signs, elems), mods);
        assert(is_tuple(t, 0, n, h, restricted));
        lemma_tuple_terms_ok(t, signs, elems, h, restricted, signed);
    }
    assert forall|x: Seq<nat>| want.contains(x) implies got.contains(x) by {
        let ts = choose|ts: Seq<Term>|
            ts.len() == h && terms_ok(ts, a, restricted, signed) && sum_terms(ts, mods) == x;
        let rank = |e: Seq<nat>| -index_in(elems, e);
        assert forall|e: Seq<nat>| a.contains(e) implies is_elem(e, mods) by {
            let i = index_in(elems, e);
            assert(is_elem(elems[i], mods));
        }
        assert forall|e: Seq<nat>, f: Seq<nat>|
            a.contains(e) && a.contains(f) && #[trigger] rank(e) == #[trigger] rank(f) implies e
            == f by {
            assert(elems[index_in(elems, e)] == e);
            assert(elems[index_in(elems, f)] == f);
        }
        lemma_sort_terms(ts, rank, a, mods, restricted, signed);
        let c = sort_terms(ts, rank);
        let t = Seq::new(h, |j: int| index_in(elems, c[j].elem) as nat);
        let signs = Seq::new(h, |j: int| c[j].plus);
        assert forall|j: int| 0 <= j < h implies 0 <= index_in(elems, #[trigger] c[j].elem) < n
            && elems[index_in(elems, c[j].elem)] == c[j].elem by {
            assert(a.contains(c[j].elem));
        }
        assert(is_tuple(t, 0, n, h, restricted)) by {
            assert forall|i: int| 0 <= i < t.len() implies 0 <= #[trigger] t[i] && t[i] < n by {
                assert(a.contains(c[i].elem));
            }
            assert forall|i: int, j: int| 0 <= i < j < t.len() implies if restricted {
                #[trigger] t[i] < #[trigger] t[j]
            } else {
                t[i] <= t[j]
            } by {
                assert(a.contains(c[i].elem) && a.contains(c[j].elem));
                if restricted {
                    assert(rank(c[j].elem) < rank(c[i].elem));
                } else {
                    assert(rank(c[j].elem) <= rank(c[i].elem));
                }
            }
        }
        assert(uniform(signs, t)) by {
            assert forall|i: int, j: int|
                0 <= i < t.len() && 0 <= j < t.len() && #[trigger] t[i] == #[trigger] t[j] implies signs[i]
                == signs[j] by {
                assert(a.contains(c[i].elem) && a.contains(c[j].elem));
                assert(c[i].elem == c[j].elem);
            }
        }
        if !signed {
            assert(signs =~= block(true, t.len())) by {
                assert forall|j: int| 0 <= j < h implies signs[j] by {
                    assert(c[j].plus);
                }
            }
        }
        assert(terms_of(t, signs, elems) =~= c) by {
            assert forall|j: int| 0 <= j < h implies terms_of(t, signs, elems)[j] == c[j] by {
                assert(a.contains(c[j].elem));
            }
        }
        let j = if restricted {
            lemma_rising_complete(0, n, h, t)
        } else {
            lemma_steady_complete(0, n, h, t)
        };
        assert(sums_of_tuple(tuples[j], elems, signed, mods).contains(x));
    }
    assert(got =~= want);
}

/// The set that stands for a list of elements is the set of their
/// coordinates.
pub proof fn lemma_members_of_views(v: Seq<GElem>)
    ensures
        members(views(v)) == set_model(v),
        views(v).len() == v.len(),
        no_dups(v) ==> forall|i: int, j: int|
            0 <= i < j < v.len() ==> #[trigger] views(v)[i] != #[trigger] views(v)[j],
{
    assert forall|e: Seq<nat>| members(views(v)).contains(e) == set_model(v).contains(e) by {
        if members(views(v)).contains(e) {
            let i = choose|i: int| 0 <= i < views(v).len() && #[trigger] views(v)[i] == e;
            assert(v[i]@ == e);
        }
        if set_model(v).contains(e) {
            let i = choose|i: int| 0 <= i < v.len() && #[trigger] v[i]@ == e;
            assert(views(v)[i] == e);
        }
    }
    assert(members(views(v)) =~= set_model(v));
}

/// Puts into `res` a copy of each member of `more`.
pub fn merge(res: &mut Vec<GElem>, more: &Vec<GElem>)
    requires
        no_dups(old(res)@),
    ensures
        set_model(final(res)@) == set_model(old(res)@).union(set_model(more@)),
        no_dups(final(res)@),
        forall|mods: Seq<nat>|
            in_group(old(res)@, mods) && in_group(more@, mods) ==> #[trigger] in_group(
                final(res)@,
                mods,
            ),
{
    let ghost start = res@;
    let mut i: usize = 0;
    proof {
        assert(set_model(more@.take(0)) =~= Set::<Seq<nat>>::empty());
        assert(set_model(start).union(Set::<Seq<nat>>::empty()) =~= set_model(start));
    }
    while i < more.len()
        invariant
            i <= more@.len(),
            no_dups(res@),
            set_model(res@) == set_model(start).union(set_model(more@.take(i as int))),
            forall|mods: Seq<nat>|
                in_group(start, mods) && in_group(more@, mods) ==> #[trigger] in_group(res@, mods),
        decreases more@.len() - i,
    {
        let ghost before = res@;
        let e = more[i].copy();
        put(res, e);
        proof {
            let sofar = more@.take(i as int);
            let next = more@.take((i + 1) as int);
            assert forall|x: Seq<nat>| set_model(next).contains(x) == set_model(sofar).insert(
                more@[i as int]@,
            ).contains(x) by {
                if set_model(next).contains(x) {
                    let j = choose|j: int| 0 <= j < next.len() && #[trigger] next[j]@ == x;
                    if j < i {
                        assert(sofar[j] == next[j]);
                    }
                }
                if set_model(sofar).contains(x) {
                    let j = choose|j: int| 0 <= j < sofar.len() && #[trigger] sofar[j]@ == x;
                    assert(next[j] == sofar[j]);
                }
                if x == more@[i as int]@ {
                    assert(next[i as int]@ == x);
                }
            }
            assert(set_model(next) =~= set_model(sofar).insert(more@[i as int]@));
            assert(set_model(res@) =~= set_model(start).union(set_model(next)));
            assert forall|mods: Seq<nat>|
                in_group(start, mods) && in_group(more@, mods) implies #[trigger] in_group(
                res@,
                mods,
            ) by {
                assert(in_group(before, mods));
                assert(is_elem(more@[i as int]@, mods));
            }
        }
        i += 1;
    }
    proof {
        assert(more@.take(more@.len() as int) =~= more@);
    }
}

/// The sumset of one kind: the sums that the tuples of `h` indices into the
/// set stand for, rising tuples where no member may be taken twice.
fn fold_tuples(set: &Vec<GElem>, h: u32, mod_v: &Rc<Vec<u32>>, restricted: bool, signed: bool) -> (res:
    Vec<GElem>)
    requires
        no_dups(set@),
        set@.len() <= u32::MAX,
        in_group(set@, moduli_of(mod_v@)),
        valid_moduli(moduli_of(mod_v@)),
    ensures
        set_model(res@) == hfold(set_model(set@), h as nat, moduli_of(mod_v@), restricted, signed),
        no_dups(res@),
        in_group(res@, moduli_of(mod_v@)),
{
    let ghost mods = moduli_of(mod_v@);
    let ghost elems = views(set@);
    let ghost a = set_model(set@);
    let mut res: Vec<GElem> = Vec::new();
    let n: usize = mod_v.len();
    proof {
        lemma_members_of_views(set@);
        lemma_hfold_zero(a, mods, restricted, signed);
        assert(set_model(res@) =~= Set::<Seq<nat>>::empty());
    }
    if h == 0 {
        let zero = zero_of(n);
        proof {
            assert(zero@ =~= zero_elem(mods));
            lemma_zero_is_elem(mods);
        }
        put(&mut res, zero);
        return res;
    }
    if set.len() == 0 {
        proof {
            assert(a =~= Set::<Seq<nat>>::empty());
            lemma_hfold_of_empty(h as nat, mods, restricted, signed);
        }
        return res;
    }
    let ghost tuples = tuples_for(elems.len(), h as nat, restricted);
    proof {
        lemma_tuples_are_hfold(elems, h as nat, mods, restricted, signed);
        assert(all_sums(tuples, 0, elems, signed, mods) =~= Set::<Seq<nat>>::empty());
        if restricted {
            lemma_rising_shape(0, elems.len(), h as nat);
        } else {
            lemma_steady_shape(0, elems.len(), h as nat);
        }
    }
    if restricted {
        let mut walk = index_combinations(set.len() as u32, h as usize);
        let ghost at: int = 0;
        loop
            invariant_except_break
                set_model(res@) == all_sums(tuples, at, elems, signed, mods),
            invariant
                0 <= at <= tuples.len(),
                combinations_left(walk) == tuples.skip(at),
                tuples == rising_from(0, elems.len(), h as nat),
                elems == views(set@),
                mods == moduli_of(mod_v@),
                h >= 1,
                forall|j: int|
                    0 <= j < tuples.len() ==> is_tuple(
                        #[trigger] tuples[j],
                        0,
                        elems.len(),
                        h as nat,
                        true,
                    ),
                in_group(set@, mods),
                valid_moduli(mods),
                no_dups(res@),
                in_group(res@, mods),
            ensures
                set_model(res@) == all_sums(tuples, tuples.len() as int, elems, signed, mods),
                no_dups(res@),
                in_group(res@, mods),
            decreases tuples.len() - at,
        {
            match next_combination(&mut walk) {
                None => {
                    proof {
                        assert(tuples.skip(at).len() == 0);
                    }
                    break;
                },
                Some(indices) => {
                    let ghost t = tuples[at];
                    proof {
                        assert(tuples.skip(at)[0] == t);
                        assert(tuples.skip(at).drop_first() =~= tuples.skip(at + 1));
                        assert(is_tuple(t, 0, elems.len(), h as nat, true));
                        assert(coords_of(indices@) =~= t);
                        assert forall|j: int| 0 <= j < indices@.len() implies indices@[j]
                            < set@.len() by {
                            assert(t[j] < elems.len());
                        }
                        assert forall|i: int, j: int|
                            0 <= i < j < indices@.len() implies indices@[i] <= indices@[j] by {
                            assert(t[i] < t[j]);
                        }
                    }
                    let ghost before = set_model(res@);
                    put_sums(&indices, set, mod_v, signed, &mut res);
                    proof {
                        let now = all_sums(tuples, at + 1, elems, signed, mods);
                        let was = all_sums(tuples, at, elems, signed, mods);
                        let cur = sums_of_tuple(t, elems, signed, mods);
                        assert forall|x: Seq<nat>| now.contains(x) == (was.contains(x)
                            || cur.contains(x)) by {
                            if now.contains(x) {
                                let j = choose|j: int|
                                    0 <= j < at + 1 && (#[trigger] sums_of_tuple(
                                        tuples[j],
                                        elems,
                                        signed,
                                        mods,
                                    )).contains(x);
                                if j < at {
                                    assert(was.contains(x));
                                }
                            }
                            if was.contains(x) {
                                let j = choose|j: int|
                                    0 <= j < at && (#[trigger] sums_of_tuple(
                                        tuples[j],
                                        elems,
                                        signed,
                                        mods,
                                    )).contains(x);
                                assert(0 <= j < at + 1);
                            }
                            if cur.contains(x) {
                                assert(sums_of_tuple(tuples[at], elems, signed, mods).contains(x));
                            }
                        }
                        assert(set_model(res@) =~= now);
                        at = at + 1;
                    }
                },
            }
        }
    } else {
        let mut walk = combinations_with_replacement(set.len() as u32, h);
        let ghost at: int = 0;
        loop
            invariant_except_break
                set_model(res@) == all_sums(tuples, at, elems, signed, mods),
            invariant
                0 <= at <= tuples.len(),
                walk.well_formed(),
                walk.things() == elems.len(),
                walk.picks() == h,
                walk.handed_out() == at,
                tuples == steady_from(0, elems.len(), h as nat),
                elems == views(set@),
                mods == moduli_of(mod_v@),
                h >= 1,
                forall|j: int|
                    0 <= j < tuples.len() ==> is_tuple(
                        #[trigger] tuples[j],
                        0,
                        elems.len(),
                        h as nat,
                        false,
                    ),
                in_group(set@, mods),
                valid_moduli(mods),
                no_dups(res@),
                in_group(res@, mods),
            ensures
                set_model(res@) == all_sums(tuples, tuples.len() as int, elems, signed, mods),
                no_dups(res@),
                in_group(res@, mods),
            decreases tuples.len() - at,
        {
            proof {
                walk.lemma_position();
            }
            match walk.next() {
                None => {
                    proof {
                        assert(tuples.skip(at).len() == 0);
                    }
                    break;
                },
                Some(indices) => {
                    let ghost t = tuples[at];
                    proof {
                        assert(tuples.skip(at)[0] == t);
                        assert(is_tuple(t, 0, elems.len(), h as nat, false));
                        assert(coords_of(indices@) == t);
                        assert(indices@.len() == coords_of(indices@).len());
                        assert forall|j: int| 0 <= j < indices@.len() implies indices@[j]
                            < set@.len() by {
                            assert(t[j] < elems.len());
                            assert(t[j] == indices@[j] as nat);
                        }
                        assert forall|i: int, j: int|
                            0 <= i < j < indices@.len() implies indices@[i] <= indices@[j] by {
                            assert(t[i] <= t[j]);
                            assert(t[i] == indices@[i] as nat);
                            assert(t[j] == indices@[j] as nat);
                        }
                    }
                    put_sums(&indices, set, mod_v, signed, &mut res);
                    proof {
                        let now = all_sums(tuples, at + 1, elems, signed, mods);
                        let was = all_sums(tuples, at, elems, signed, mods);
                        let cur = sums_of_tuple(t, elems, signed, mods);
                        assert forall|x: Seq<nat>| now.contains(x) == (was.contains(x)
                            || cur.contains(x)) by {
                            if now.contains(x) {
                                let j = choose|j: int|
                                    0 <= j < at + 1 && (#[trigger] sums_of_tuple(
                                        tuples[j],
                                        elems,
                                        signed,
                                        mods,
                                    )).contains(x);
                                if j < at {
                                    assert(was.contains(x));
                                }
                            }
                            if was.contains(x) {
                                let j = choose|j: int|
                                    0 <= j < at && (#[trigger] sums_of_tuple(
                                        tuples[j],
                                        elems,
                                        signed,
                                        mods,
                                    )).contains(x);
                                assert(0 <= j < at + 1);
                            }
                            if cur.contains(x) {
                                assert(sums_of_tuple(tuples[at], elems, signed, mods).contains(x));
                            }
                        }
                        assert(set_model(res@) =~= now);
                        at = at + 1;
                    }
                },
            }
        }
    }
    res
}

/// The union of the sumsets of one kind for the numbers of terms in the
/// closed interval.
fn fold_interval(
    set: &Vec<GElem>,
    intv: (u32, u32),
    mod_v: &Rc<Vec<u32>>,
    restricted: bool,
    signed: bool,
) -> (res: Vec<GElem>)
    requires
        no_dups(set@),
        set@.len() <= u32::MAX,
        in_group(set@, moduli_of(mod_v@)),
        valid_moduli(moduli_of(mod_v@)),
    ensures
        set_model(res@) == hfold_interval(
            set_model(set@),
            intv.0 as nat,
            intv.1 as nat,
            moduli_of(mod_v@),
            restricted,
            signed,
        ),
        no_dups(res@),
        in_group(res@, moduli_of(mod_v@)),
{
    let ghost mods = moduli_of(mod_v@);
    let ghost a = set_model(set@);
    let mut res: Vec<GElem> = Vec::new();
    let (ia, ib) = intv;
    proof {
        assert(set_model(res@) =~= Set::<Seq<nat>>::empty());
        lemma_upto_next(a, ia as nat, ia as nat, mods, restricted, signed);
    }
    if ia > ib {
        proof {
            crate::sumset::lemma_interval_empty(a, ia as nat, ib as nat, mods, restricted, signed);
        }
        return res;
    }
    let mut i: u32 = ia;
    loop
        invariant_except_break
            set_model(res@) == hfold_upto(a, ia as nat, i as nat, mods, restricted, signed),
        invariant
            ia <= i <= ib,
            a == set_model(set@),
            mods == moduli_of(mod_v@),
            no_dups(set@),
            set@.len() <= u32::MAX,
            in_group(set@, mods),
            valid_moduli(mods),
            no_dups(res@),
            in_group(res@, mods),
        ensures
            set_model(res@) == hfold_upto(a, ia as nat, (ib + 1) as nat, mods, restricted, signed),
            no_dups(res@),
            in_group(res@, mods),
        decreases ib - i,
    {
        let tmp = fold_tuples(set, i, mod_v, restricted, signed);
        merge(&mut res, &tmp);
        proof {
            lemma_upto_next(a, ia as nat, i as nat, mods, restricted, signed);
        }
        if i == ib {
            break;
        }
        i += 1;
    }
    proof {
        lemma_upto_next(a, ia as nat, ib as nat, mods, restricted, signed);
    }
    res
}

/// The `h`-fold sumset: the sums of `h` members, repetition allowed.
pub fn hfold_sumset(set: &Vec<GElem>, h: u32, mod_v: &Rc<Vec<u32>>) -> (res: Vec<GElem>)
    requires
        no_dups(set@),
        set@.len() <= u32::MAX,
        in_group(set@, moduli_of(mod_v@)),
        valid_moduli(moduli_of(mod_v@)),
    ensures
        set_model(res@) == hfold(set_model(set@), h as nat, moduli_of(mod_v@), false, false),
        no_dups(res@),
        in_group(res@, moduli_of(mod_v@)),
{
    fold_tuples(set, h, mod_v, false, false)
}

/// The union of the `h`-fold sumsets for `h` in the closed interval.
pub fn hfold_interval_sumset(set: &Vec<GElem>, intv: (u32, u32), mod_v: &Rc<Vec<u32>>) -> (res: Vec<GElem>)
    requires
        no_dups(set@),
        set@.len() <= u32::MAX,
        in_group(set@, moduli_of(mod_v@)),
        valid_moduli(moduli_of(mod_v@)),
    ensures
        set_model(res@) == hfold_interval(
            set_model(set@),
            intv.0 as nat,
            intv.1 as nat,
            moduli_of(mod_v@),
            false,
            false,
        ),
        no_dups(res@),
        in_group(res@, moduli_of(mod_v@)),
{
    fold_interval(set, intv, mod_v, false, false)
}

/// The `h`-fold signed sumset: the sums of `h` members, each added or
/// subtracted, no member both.
pub fn hfold_signed_sumset(set: &Vec<GElem>, h: u32, mod_v: &Rc<Vec<u32>>) -> (res: Vec<GElem>)
    requires
        no_dups(set@),
        set@.len() <= u32::MAX,
        in_group(set@, moduli_of(mod_v@)),
        valid_moduli(moduli_of(mod_v@)),
    ensures
        set_model(res@) == hfold(set_model(set@), h as nat, moduli_of(mod_v@), false, true),
        no_dups(res@),
        in_group(res@, moduli_of(mod_v@)),
{
    fold_tuples(set, h, mod_v, false, true)
}

/// The union of the `h`-fold signed sumsets for `h` in the closed interval.
pub fn hfold_interval_signed_sumset(set: &Vec<GElem>, intv: (u32, u32), mod_v: &Rc<Vec<u32>>) -> (res: Vec<GElem>)
    requires
        no_dups(set@),
        set@.len() <= u32::MAX,
        in_group(set@, moduli_of(mod_v@)),
        valid_moduli(moduli_of(mod_v@)),
    ensures
        set_model(res@) == hfold_interval(
            set_model(set@),
            intv.0 as nat,
            intv.1 as nat,
            moduli_of(mod_v@),
            false,
            true,
        ),
        no_dups(res@),
        in_group(res@, moduli_of(mod_v@)),
{
    fold_interval(set, intv, mod_v, false, true)
}

/// The `h`-fold restricted sumset: the sums of `h` distinct members.
pub fn hfold_restricted_sumset(set: &Vec<GElem>, h: u32, mod_v: &Rc<Vec<u32>>) -> (res: Vec<GElem>)
    requires
        no_dups(set@),
        set@.len() <= u32::MAX,
        in_group(set@, moduli_of(mod_v@)),
        valid_moduli(moduli_of(mod_v@)),
    ensures
        set_model(res@) == hfold(set_model(set@), h as nat, moduli_of(mod_v@), true, false),
        no_dups(res@),
        in_group(res@, moduli_of(mod_v@)),
{
    fold_tuples(set, h, mod_v, true, false)
}

/// The union of the `h`-fold restricted sumsets for `h` in the closed
/// interval.
pub fn hfold_interval_restricted_sumset(set: &Vec<GElem>, intv: (u32, u32), mod_v: &Rc<Vec<u32>>) -> (res: Vec<GElem>)
    requires
        no_dups(set@),
        set@.len() <= u32::MAX,
        in_group(set@, moduli_of(mod_v@)),
        valid_moduli(moduli_of(mod_v@)),
    ensures
        set_model(res@) == hfold_interval(
            set_model(set@),
            intv.0 as nat,
            intv.1 as nat,
            moduli_of(mod_v@),
            true,
            false,
        ),
        no_dups(res@),
        in_group(res@, moduli_of(mod_v@)),
{
    fold_interval(set, intv, mod_v, true, false)
}

/// The `h`-fold restricted signed sumset: the sums of `h` distinct members,
/// each added or subtracted.
pub fn hfold_restricted_signed_sumset(set: &Vec<GElem>, h: u32, mod_v: &Rc<Vec<u32>>) -> (res: Vec<GElem>)
    requires
        no_dups(set@),
        set@.len() <= u32::MAX,
        in_group(set@, moduli_of(mod_v@)),
        valid_moduli(moduli_of(mod_v@)),
    ensures
        set_model(res@) == hfold(set_model(set@), h as nat, moduli_of(mod_v@), true, true),
        no_dups(res@),
        in_group(res@, moduli_of(mod_v@)),
{
    fold_tuples(set, h, mod_v, true, true)
}

/// The union of the `h`-fold restricted signed sumsets for `h` in the
/// closed interval.
pub fn hfold_interval_restricted_signed_sumset(set: &Vec<GElem>, intv: (u32, u32), mod_v: &Rc<Vec<u32>>) -> (res: Vec<GElem>)
    requires
        no_dups(set@),
        set@.len() <= u32::MAX,
        in_group(set@, moduli_of(mod_v@)),
        valid_moduli(moduli_of(mod_v@)),
    ensures
        set_model(res@) == hfold_interval(
            set_model(set@),
            intv.0 as nat,
            intv.1 as nat,
            moduli_of(mod_v@),
            true,
            true,
        ),
        no_dups(res@),
        in_group(res@, moduli_of(mod_v@)),
{
    fold_interval(set, intv, mod_v, true, true)
}

/// Walks through the elements of a group, the first coordinate changing
/// fastest.
pub struct EachElement {
    pub curr: Vec<u32>,
    pub mod_v: Rc<Vec<u32>>,
    pub first: bool,
}

impl EachElement {
    /// The state is one that `next` can go on from: the current element is an
    /// element of the group, which has at least one factor.
    pub open spec fn well_formed(&self) -> bool {
        &&& self.mod_v@.len() >= 1
        &&& valid_moduli(moduli_of(self.mod_v@))
        &&& is_elem(coords_of(self.curr@), moduli_of(self.mod_v@))
        &&& self.first ==> coords_of(self.curr@) == zero_elem(moduli_of(self.mod_v@))
    }

    /// How many elements have been handed out.
    pub open spec fn handed_out(&self) -> nat {
        if self.first {
            0
        } else {
            elem_code(coords_of(self.curr@), moduli_of(self.mod_v@)) + 1
        }
    }

    /// Hands out the next element, or `None` when all have been handed out.
    pub fn next(&mut self) -> (r: Option<Vec<u32>>)
        requires
            old(self).well_formed(),
        ensures
            final(self).well_formed(),
            final(self).mod_v == old(self).mod_v,
            r is None ==> old(self).handed_out() == group_size(moduli_of(old(self).mod_v@)),
            r is Some ==> is_elem(coords_of(r->0@), moduli_of(old(self).mod_v@)) && elem_code(
                coords_of(r->0@),
                moduli_of(old(self).mod_v@),
            ) == old(self).handed_out() && final(self).handed_out() == old(self).handed_out() + 1,
    {
        let ghost mods = moduli_of(self.mod_v@);
        let ghost start = coords_of(self.curr@);
        proof {
            lemma_code_zero(mods);
            assert(self.curr@.len() == start.len());
        }
        if self.first {
            self.first = false;
            return Some(copy_of(&self.curr));
        }
        let len: usize = self.curr.len();
        let mut indx: usize = 0;
        proof {
            assert(mods[0] == self.mod_v@[0] as nat);
            assert forall|j: int| 0 <= j < len implies self.mod_v@[j] >= 1 by {
                assert(mods[j] == self.mod_v@[j] as nat);
            }
            assert forall|j: int| 0 <= j < len implies self.curr@[j] as nat == start[j] by {}
        }
        while self.curr[indx] == self.mod_v[indx] - 1
            invariant
                indx < len,
                start == coords_of(old(self).curr@),
                !old(self).first,
                len == self.curr@.len(),
                len == self.mod_v@.len(),
                self.mod_v == old(self).mod_v,
                !self.first,
                mods == moduli_of(self.mod_v@),
                valid_moduli(mods),
                start.len() == len,
                is_elem(start, mods),
                forall|j: int| 0 <= j < indx ==> #[trigger] start[j] + 1 == mods[j],
                forall|j: int| 0 <= j < indx ==> self.curr@[j] == 0,
                forall|j: int| indx <= j < len ==> self.curr@[j] as nat == start[j],
                forall|j: int| 0 <= j < len ==> self.mod_v@[j] >= 1,
            decreases len - indx,
        {
            proof {
                assert(mods[indx as int] == self.mod_v@[indx as int] as nat);
            }
            self.curr.set(indx, 0);
            indx += 1;
            if indx == len {
                proof {
                    lemma_code_top(start, mods);
                    assert(coords_of(self.curr@) =~= zero_elem(mods));
                    crate::model::lemma_zero_is_elem(mods);
                }
                return None;
            }
        }
        proof {
            assert(mods[indx as int] == self.mod_v@[indx as int] as nat);
            assert(start[indx as int] < mods[indx as int]);
            lemma_code_after(start, mods, indx as int);
        }
        let bumped: u32 = self.curr[indx] + 1;
        self.curr.set(indx, bumped);
        proof {
            assert(coords_of(self.curr@) =~= elem_after(start, indx as int));
        }
        Some(copy_of(&self.curr))
    }
}

/// The moduli stand for a group whose size fits a `u32`.
pub open spec fn moduli_ok(mod_v: Seq<u32>) -> bool {
    &&& mod_v.len() >= 1
    &&& valid_moduli(moduli_of(mod_v))
    &&& group_size(moduli_of(mod_v)) <= u32::MAX
}

/// `Rc::clone` makes another pointer to the same list of moduli.
#[verifier::external_body]
fn share(mod_v: &Rc<Vec<u32>>) -> (r: Rc<Vec<u32>>)
    ensures
        r == *mod_v,
{
    Rc::clone(mod_v)
}

/// The elements of the group in the order of their codes; with `skip_zero`,
/// without the identity.
pub fn all_elements(mod_v: &Rc<Vec<u32>>, skip_zero: bool) -> (pool: Vec<GElem>)
    requires
        moduli_ok(mod_v@),
    ensures
        pool@.len() + (if skip_zero {
            1nat
        } else {
            0nat
        }) == group_size(moduli_of(mod_v@)),
        forall|i: int|
            0 <= i < pool@.len() ==> is_elem(#[trigger] pool@[i]@, moduli_of(mod_v@)) && elem_code(
                pool@[i]@,
                moduli_of(mod_v@),
            ) == i + (if skip_zero {
                1nat
            } else {
                0nat
            }),
{
    let ghost mods = moduli_of(mod_v@);
    let ghost shift = if skip_zero {
        1nat
    } else {
        0nat
    };
    let zero = zero_of(mod_v.len());
    proof {
        assert(zero@ =~= zero_elem(mods));
        lemma_zero_is_elem(mods);
        lemma_code_zero(mods);
        crate::model::lemma_group_size_positive(mods);
    }
    let mut walk = EachElement { curr: zero.0, mod_v: share(mod_v), first: !skip_zero };
    let mut pool: Vec<GElem> = Vec::new();
    loop
        invariant_except_break
            walk.handed_out() == pool@.len() + shift,
        invariant
            walk.well_formed(),
            walk.mod_v == *mod_v,
            mods == moduli_of(mod_v@),
            forall|i: int|
                0 <= i < pool@.len() ==> is_elem(#[trigger] pool@[i]@, mods) && elem_code(
                    pool@[i]@,
                    mods,
                ) == i + shift,
        ensures
            pool@.len() + shift == group_size(mods),
            forall|i: int|
                0 <= i < pool@.len() ==> is_elem(#[trigger] pool@[i]@, mods) && elem_code(
                    pool@[i]@,
                    mods,
                ) == i + shift,
        decreases group_size(mods) + 1 - walk.handed_out(),
    {
        proof {
            if !walk.first {
                lemma_code_below(coords_of(walk.curr@), mods);
            }
            crate::model::lemma_group_size_positive(mods);
        }
        match walk.next() {
            None => {
                break;
            },
            Some(v) => {
                let e = GElem(v);
                proof {
                    lemma_code_below(e@, mods);
                }
                pool.push(e);
            },
        }
    }
    pool
}

/// The entries of a list that a tuple of indices picks.
pub open spec fn picked(elems: Seq<Seq<nat>>, t: Seq<nat>) -> Set<Seq<nat>> {
    Set::new(|e: Seq<nat>| exists|q: int| 0 <= q < t.len() && #[trigger] elems[t[q] as int] == e)
}

/// The indices of the entries of a list that are members of a set.
pub open spec fn indices_of(elems: Seq<Seq<nat>>, a: Set<Seq<nat>>) -> Set<nat> {
    Set::new(|i: nat| i < elems.len() && a.contains(elems[i as int]))
}

/// What a strictly rising tuple picks from a list without a repeated entry
/// is a set of as many members as the tuple has entries.
pub proof fn lemma_picked_len(elems: Seq<Seq<nat>>, t: Seq<nat>, k: nat)
    requires
        is_tuple(t, 0, elems.len(), k, true),
        forall|i: int, j: int| 0 <= i < j < elems.len() ==> #[trigger] elems[i] != #[trigger] elems[j],
    ensures
        picked(elems, t).finite(),
        picked(elems, t).len() == k,
        picked(elems, t).subset_of(members(elems)),
        indices_of(elems, picked(elems, t)) == index_set(t),
{
    let s = index_set(t);
    let f = |i: nat| elems[i as int];
    lemma_index_set_len(t, elems.len(), k);
    assert forall|i: nat| s.contains(i) implies i < elems.len() by {
        let q = choose|q: int| 0 <= q < t.len() && #[trigger] t[q] == i;
    }
    assert(vstd::relations::injective_on(f, s)) by {
        assert forall|x: nat, y: nat|
            s.contains(x) && s.contains(y) && #[trigger] f(x) == #[trigger] f(y) implies x == y by {
            if x < y {
                assert(elems[x as int] != elems[y as int]);
            }
            if y < x {
                assert(elems[y as int] != elems[x as int]);
            }
        }
    }
    assert forall|e: Seq<nat>| picked(elems, t).contains(e) == s.map(f).contains(e) by {
        if picked(elems, t).contains(e) {
            let q = choose|q: int| 0 <= q < t.len() && #[trigger] elems[t[q] as int] == e;
            assert(s.contains(t[q]));
            assert(f(t[q]) == e);
        }
        if s.map(f).contains(e) {
            let i = choose|i: nat| s.contains(i) && f(i) == e;
            let q = choose|q: int| 0 <= q < t.len() && #[trigger] t[q] == i;
            assert(elems[t[q] as int] == e);
        }
    }
    assert(picked(elems, t) =~= s.map(f));
    vstd::set_lib::lemma_map_size(s, picked(elems, t), f);
    assert forall|e: Seq<nat>| picked(elems, t).contains(e) implies members(elems).contains(e) by {
        let q = choose|q: int| 0 <= q < t.len() && #[trigger] elems[t[q] as int] == e;
        assert(t[q] < elems.len());
    }
    assert forall|i: nat| indices_of(elems, picked(elems, t)).contains(i) == s.contains(i) by {
        if indices_of(elems, picked(elems, t)).contains(i) {
            let q = choose|q: int|
                0 <= q < t.len() && #[trigger] elems[t[q] as int] == elems[i as int];
            assert(t[q] < elems.len());
            if t[q] < i {
                assert(elems[t[q] as int] != elems[i as int]);
            }
            if i < t[q] {
                assert(elems[i as int] != elems[t[q] as int]);
            }
        }
        if s.contains(i) {
            let q = choose|q: int| 0 <= q < t.len() && #[trigger] t[q] == i;
            assert(elems[t[q] as int] == elems[i as int]);
        }
    }
    assert(indices_of(elems, picked(elems, t)) =~= s);
}

/// Different strictly rising tuples pick different sets.
pub proof fn lemma_picked_distinct(elems: Seq<Seq<nat>>, t: Seq<nat>, u: Seq<nat>, k: nat)
    requires
        is_tuple(t, 0, elems.len(), k, true),
        is_tuple(u, 0, elems.len(), k, true),
        forall|i: int, j: int| 0 <= i < j < elems.len() ==> #[trigger] elems[i] != #[trigger] elems[j],
        picked(elems, t) == picked(elems, u),
    ensures
        t == u,
{
    lemma_picked_len(elems, t, k);
    lemma_picked_len(elems, u, k);
    lemma_listing_of_tuple(t, elems.len(), k);
    lemma_listing_of_tuple(u, elems.len(), k);
}

/// Every set of `k` entries of a list without a repeated entry is picked by
/// a strictly rising tuple.
pub proof fn lemma_picked_complete(elems: Seq<Seq<nat>>, a: Set<Seq<nat>>, k: nat) -> (t: Seq<nat>)
    requires
        forall|i: int, j: int| 0 <= i < j < elems.len() ==> #[trigger] elems[i] != #[trigger] elems[j],
        a.finite(),
        a.len() == k,
        a.subset_of(members(elems)),
    ensures
        is_tuple(t, 0, elems.len(), k, true),
        picked(elems, t) == a,
{
    let n = elems.len();
    let s = indices_of(elems, a);
    let t = listing(s, n);
    lemma_listing(s, n);
    lemma_count_below(s, n);
    let f = |i: nat| elems[i as int];
    assert(vstd::relations::injective_on(f, s)) by {
        assert forall|x: nat, y: nat|
            s.contains(x) && s.contains(y) && #[trigger] f(x) == #[trigger] f(y) implies x == y by {
            if x < y {
                assert(elems[x as int] != elems[y as int]);
            }
            if y < x {
                assert(elems[y as int] != elems[x as int]);
            }
        }
    }
    assert forall|e: Seq<nat>| a.contains(e) == s.map(f).contains(e) by {
        if a.contains(e) {
            assert(members(elems).contains(e));
            let i = choose|i: int| 0 <= i < elems.len() && #[trigger] elems[i] == e;
            assert(s.contains(i as nat));
            assert(f(i as nat) == e);
        }
        if s.map(f).contains(e) {
            let i = choose|i: nat| s.contains(i) && f(i) == e;
        }
    }
    assert(a =~= s.map(f));
    vstd::set_lib::lemma_map_size(s, a, f);
    assert forall|e: Seq<nat>| picked(elems, t).contains(e) == a.contains(e) by {
        if picked(elems, t).contains(e) {
            let q = choose|q: int| 0 <= q < t.len() && #[trigger] elems[t[q] as int] == e;
            assert(index_set(t).contains(t[q]));
            assert(s.contains(t[q]));
            assert(a.contains(elems[t[q] as int]));
        }
        if a.contains(e) {
            assert(s.map(f).contains(e));
            let i = choose|i: nat| s.contains(i) && f(i) == e;
            assert(i < n);
            assert(index_set(t).contains(i));
            let q = choose|q: int| 0 <= q < t.len() && #[trigger] t[q] == i;
            assert(elems[t[q] as int] == e);
        }
    }
    assert(picked(elems, t) =~= a);
    t
}

/// Walks through the subsets of a given size of a group, each one once; each
/// is what a strictly rising tuple of indices picks from the list of the
/// elements, together with the elements that every subset is to hold.
pub struct EachSetExact {
    pool: Vec<GElem>,
    extra: Vec<GElem>,
    c: IndexCombinations,
    mod_v: Rc<Vec<u32>>,
    count: Ghost<nat>,
    pos: Ghost<nat>,
}

impl EachSetExact {
    /// The moduli of the group.
    pub closed spec fn moduli(&self) -> Rc<Vec<u32>> {
        self.mod_v
    }

    /// The elements that are picked from.
    pub closed spec fn elements(&self) -> Seq<GElem> {
        self.pool@
    }

    /// The elements that every subset holds.
    pub closed spec fn fixed(&self) -> Seq<GElem> {
        self.extra@
    }

    /// The number of elements that are picked for each subset.
    pub closed spec fn picks(&self) -> nat {
        self.count@
    }

    /// How many subsets have been handed out.
    pub closed spec fn handed_out(&self) -> nat {
        self.pos@
    }

    /// The tuples of indices that the walk goes through.
    pub open spec fn tuples(&self) -> Seq<Seq<nat>> {
        rising_from(0, self.elements().len(), self.picks())
    }

    /// The subsets, in the order of the walk.
    pub open spec fn all_sets(&self) -> Seq<Set<Seq<nat>>> {
        Seq::new(
            self.tuples().len(),
            |j: int| picked(views(self.elements()), self.tuples()[j]).union(set_model(self.fixed())),
        )
    }

    /// The state is one that the constructors and `next` lead to.
    pub closed spec fn well_formed(&self) -> bool {
        &&& self.pos@ <= self.tuples().len()
        &&& combinations_left(self.c) == self.tuples().skip(self.pos@ as int)
        &&& no_dups(self.pool@)
        &&& no_dups(self.extra@)
        &&& in_group(self.pool@, moduli_of(self.mod_v@))
        &&& in_group(self.extra@, moduli_of(self.mod_v@))
        &&& forall|i: int, j: int|
            0 <= i < self.pool@.len() && 0 <= j < self.extra@.len() ==> (#[trigger] self.pool@[i])@
                != (#[trigger] self.extra@[j])@
    }

    /// What a well-formed walk holds.
    pub proof fn lemma_well_formed(&self)
        requires
            self.well_formed(),
        ensures
            self.handed_out() <= self.tuples().len(),
            no_dups(self.elements()),
            no_dups(self.fixed()),
            in_group(self.elements(), moduli_of(self.moduli()@)),
            in_group(self.fixed(), moduli_of(self.moduli()@)),
            forall|i: int, j: int|
                0 <= i < self.elements().len() && 0 <= j < self.fixed().len() ==> (
                #[trigger] self.elements()[i])@ != (#[trigger] self.fixed()[j])@,
    {
    }

    /// Hands out the next subset, or `None` when all have been handed out.
    pub fn next(&mut self) -> (r: Option<Vec<GElem>>)
        requires
            old(self).well_formed(),
        ensures
            final(self).well_formed(),
            final(self).moduli() == old(self).moduli(),
            final(self).elements() == old(self).elements(),
            final(self).fixed() == old(self).fixed(),
            final(self).picks() == old(self).picks(),
            r is None ==> old(self).handed_out() == old(self).tuples().len(),
            r is None ==> final(self).handed_out() == old(self).handed_out(),
            r is Some ==> old(self).handed_out() < old(self).tuples().len(),
            r is Some ==> set_model(r->0@) == old(self).all_sets()[old(self).handed_out() as int],
            r is Some ==> no_dups(r->0@) && in_group(r->0@, moduli_of(old(self).moduli()@)),
            r is Some ==> r->0@.len() == old(self).picks() + old(self).fixed().len(),
            r is Some ==> final(self).handed_out() == old(self).handed_out() + 1,
    {
        let ghost tuples = self.tuples();
        let ghost at = self.pos@ as int;
        let ghost elems = views(self.pool@);
        let ghost mods = moduli_of(self.mod_v@);
        proof {
            lemma_rising_shape(0, self.pool@.len() as nat, self.count@);
            lemma_members_of_views(self.pool@);
        }
        match next_combination(&mut self.c) {
            None => {
                proof {
                    assert(tuples.skip(at).len() == 0);
                }
                None
            },
            Some(indices) => {
                let ghost t = tuples[at];
                proof {
                    assert(tuples.skip(at)[0] == t);
                    assert(tuples.skip(at).drop_first() =~= tuples.skip(at + 1));
                    assert(is_tuple(t, 0, self.pool@.len() as nat, self.count@, true));
                    assert(coords_of(indices@) =~= t);
                    lemma_picked_len(elems, t, self.count@);
                }
                let mut out: Vec<GElem> = Vec::new();
                let mut q: usize = 0;
                while q < self.extra.len()
                    invariant
                        q <= self.extra@.len(),
                        out@.len() == q,
                        forall|i: int| 0 <= i < q ==> (#[trigger] out@[i])@ == self.extra@[i]@,
                    decreases self.extra@.len() - q,
                {
                    out.push(self.extra[q].copy());
                    q += 1;
                }
                let base: usize = out.len();
                let mut p: usize = 0;
                while p < indices.len()
                    invariant
                        p <= indices@.len(),
                        base == self.extra@.len(),
                        out@.len() == base + p,
                        t == coords_of(indices@),
                        is_tuple(t, 0, self.pool@.len() as nat, self.count@, true),
                        forall|i: int| 0 <= i < base ==> (#[trigger] out@[i])@ == self.extra@[i]@,
                        forall|i: int|
                            0 <= i < p ==> (#[trigger] out@[base + i])@ == self.pool@[t[i] as int]@,
                    decreases indices@.len() - p,
                {
                    proof {
                        assert(t[p as int] == indices@[p as int] as nat);
                        assert(t[p as int] < self.pool@.len());
                    }
                    out.push(self.pool[indices[p] as usize].copy());
                    p += 1;
                }
                proof {
                    let want = picked(elems, t).union(set_model(self.extra@));
                    assert forall|e: Seq<nat>| set_model(out@).contains(e) == want.contains(e) by {
                        if set_model(out@).contains(e) {
                            let i = choose|i: int| 0 <= i < out@.len() && #[trigger] out@[i]@ == e;
                            if i < base {
                                assert(self.extra@[i]@ == e);
                            } else {
                                assert(out@[base + (i - base)]@ == self.pool@[t[i - base] as int]@);
                                assert(elems[t[i - base] as int] == e);
                            }
                        }
                        if picked(elems, t).contains(e) {
                            let k = choose|k: int|
                                0 <= k < t.len() && #[trigger] elems[t[k] as int] == e;
                            assert(out@[base + k]@ == e);
                        }
                        if set_model(self.extra@).contains(e) {
                            let i = choose|i: int|
                                0 <= i < self.extra@.len() && #[trigger] self.extra@[i]@ == e;
                            assert(out@[i]@ == e);
                        }
                    }
                    assert(set_model(out@) =~= want);
                    assert(no_dups(out@)) by {
                        assert forall|i: int, j: int| 0 <= i < j < out@.len() implies #[trigger] out@[i]@
                            != #[trigger] out@[j]@ by {
                            if j < base {
                                assert(self.extra@[i]@ != self.extra@[j]@);
                            } else if i < base {
                                assert(out@[base + (j - base)]@ == self.pool@[t[j - base] as int]@);
                                assert(self.pool@[t[j - base] as int]@ != self.extra@[i]@);
                            } else {
                                assert(out@[base + (i - base)]@ == self.pool@[t[i - base] as int]@);
                                assert(out@[base + (j - base)]@ == self.pool@[t[j - base] as int]@);
                                assert(t[i - base] < t[j - base]);
                                assert(self.pool@[t[i - base] as int]@ != self.pool@[t[j
                                    - base] as int]@);
                            }
                        }
                    }
                    assert(in_group(out@, mods)) by {
                        assert forall|i: int| 0 <= i < out@.len() implies is_elem(
                            #[trigger] out@[i]@,
                            mods,
                        ) by {
                            if i < base {
                                assert(is_elem(self.extra@[i]@, mods));
                            } else {
                                assert(out@[base + (i - base)]@ == self.pool@[t[i - base] as int]@);
                                assert(is_elem(self.pool@[t[i - base] as int]@, mods));
                            }
                        }
                    }
                    assert(indices@.len() == t.len());
                }
                self.pos = Ghost((at + 1) as nat);
                Some(out)
            },
        }
    }
}

/// The walk through the subsets of `size` elements of the group.
pub fn each_set_exact(size: u32, mod_v: &Rc<Vec<u32>>) -> (w: EachSetExact)
    requires
        moduli_ok(mod_v@),
    ensures
        w.well_formed(),
        w.moduli() == *mod_v,
        w.picks() == size,
        w.handed_out() == 0,
        w.fixed().len() == 0,
        w.elements().len() == group_size(moduli_of(mod_v@)),
        forall|i: int|
            0 <= i < w.elements().len() ==> elem_code(
                (#[trigger] w.elements()[i])@,
                moduli_of(mod_v@),
            ) == i,
{
    let pool = all_elements(mod_v, false);
    proof {
        lemma_pool_distinct(pool@, moduli_of(mod_v@), 0);
    }
    let c = index_combinations(pool.len() as u32, size as usize);
    proof {
        assert(rising_from(0, pool@.len() as nat, size as nat).skip(0) =~= rising_from(
            0,
            pool@.len() as nat,
            size as nat,
        ));
    }
    EachSetExact {
        pool: pool,
        extra: Vec::new(),
        c: c,
        mod_v: share(mod_v),
        count: Ghost(size as nat),
        pos: Ghost(0nat),
    }
}

/// The walk through the subsets of `size` elements of the group that do not
/// hold the identity.
pub fn each_set_exact_no_zero(size: u32, mod_v: &Rc<Vec<u32>>) -> (w: EachSetExact)
    requires
        moduli_ok(mod_v@),
    ensures
        w.well_formed(),
        w.moduli() == *mod_v,
        w.picks() == size,
        w.handed_out() == 0,
        w.fixed().len() == 0,
        w.elements().len() + 1 == group_size(moduli_of(mod_v@)),
        forall|i: int|
            0 <= i < w.elements().len() ==> elem_code(
                (#[trigger] w.elements()[i])@,
                moduli_of(mod_v@),
            ) == i + 1,
{
    let pool = all_elements(mod_v, true);
    proof {
        lemma_pool_distinct(pool@, moduli_of(mod_v@), 1);
    }
    let c = index_combinations(pool.len() as u32, size as usize);
    proof {
        assert(rising_from(0, pool@.len() as nat, size as nat).skip(0) =~= rising_from(
            0,
            pool@.len() as nat,
            size as nat,
        ));
    }
    EachSetExact {
        pool: pool,
        extra: Vec::new(),
        c: c,
        mod_v: share(mod_v),
        count: Ghost(size as nat),
        pos: Ghost(0nat),
    }
}

/// The walk through the subsets of `size` elements of the group that hold
/// the identity.
pub fn each_set_exact_zero(size: u32, mod_v: &Rc<Vec<u32>>) -> (w: EachSetExact)
    requires
        moduli_ok(mod_v@),
        size >= 1,
    ensures
        w.well_formed(),
        w.moduli() == *mod_v,
        w.picks() + 1 == size,
        w.handed_out() == 0,
        w.fixed().len() == 1,
        w.fixed()[0]@ == zero_elem(moduli_of(mod_v@)),
        w.elements().len() + 1 == group_size(moduli_of(mod_v@)),
        forall|i: int|
            0 <= i < w.elements().len() ==> elem_code(
                (#[trigger] w.elements()[i])@,
                moduli_of(mod_v@),
            ) == i + 1,
{
    let ghost mods = moduli_of(mod_v@);
    let pool = all_elements(mod_v, true);
    proof {
        lemma_pool_distinct(pool@, mods, 1);
    }
    let c = index_combinations(pool.len() as u32, (size - 1) as usize);
    let zero = zero_of(mod_v.len());
    let mut extra: Vec<GElem> = Vec::new();
    extra.push(zero);
    proof {
        assert(extra@[0]@ =~= zero_elem(mods));
        lemma_zero_is_elem(mods);
        lemma_code_zero(mods);
        assert(rising_from(0, pool@.len() as nat, (size - 1) as nat).skip(0) =~= rising_from(
            0,
            pool@.len() as nat,
            (size - 1) as nat,
        ));
    }
    EachSetExact {
        pool: pool,
        extra: extra,
        c: c,
        mod_v: share(mod_v),
        count: Ghost((size - 1) as nat),
        pos: Ghost(0nat),
    }
}

/// Elements with the codes from `shift` on, one after the other, are
/// distinct.
pub proof fn lemma_pool_distinct(pool: Seq<GElem>, mods: Seq<nat>, shift: nat)
    requires
        forall|i: int|
            0 <= i < pool.len() ==> is_elem(#[trigger] pool[i]@, mods) && elem_code(pool[i]@, mods)
                == i + shift,
    ensures
        no_dups(pool),
        in_group(pool, mods),
{
    assert forall|i: int, j: int| 0 <= i < j < pool.len() implies #[trigger] pool[i]@
        != #[trigger] pool[j]@ by {
        assert(elem_code(pool[i]@, mods) == i + shift);
        assert(elem_code(pool[j]@, mods) == j + shift);
    }
}

} // verus!
