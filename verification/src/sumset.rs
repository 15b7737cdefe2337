//! What the sumset operators compute, stated over the model.
//!
//! A sum is written down as a list of terms, each an element of the subset
//! with a sign. The kind of sumset decides which lists count.

use crate::model::{
    elem_add, elem_neg, is_elem, lemma_add_associates, lemma_add_commutes, lemma_add_is_elem,
    lemma_add_zero, lemma_neg_is_elem, lemma_zero_is_elem, valid_moduli, zero_elem,
};
use vstd::prelude::*;

verus! {

/// One summand: an element, added or subtracted.
pub struct Term {
    pub elem: Seq<nat>,
    pub plus: bool,
}

/// What a term adds to a sum.
pub open spec fn term_value(t: Term, mods: Seq<nat>) -> Seq<nat> {
    if t.plus {
        t.elem
    } else {
        elem_neg(t.elem, mods)
    }
}

/// `y` with the terms of `ts` added one after the other.
pub open spec fn apply_terms(y: Seq<nat>, ts: Seq<Term>, mods: Seq<nat>) -> Seq<nat>
    decreases ts.len(),
{
    if ts.len() == 0 {
        y
    } else {
        apply_terms(elem_add(y, term_value(ts[0], mods), mods), ts.drop_first(), mods)
    }
}

/// The sum of the terms of `ts`.
pub open spec fn sum_terms(ts: Seq<Term>, mods: Seq<nat>) -> Seq<nat> {
    apply_terms(zero_elem(mods), ts, mods)
}

/// The lists of terms that count for a kind of sumset of `a`:
/// every element is from `a`; without `signed` nothing is subtracted; with
/// `restricted` no element occurs twice; and an element that occurs more than
/// once has the same sign each time.
pub open spec fn terms_ok(ts: Seq<Term>, a: Set<Seq<nat>>, restricted: bool, signed: bool) -> bool {
    &&& forall|i: int| 0 <= i < ts.len() ==> a.contains(#[trigger] ts[i].elem)
    &&& !signed ==> forall|i: int| 0 <= i < ts.len() ==> (#[trigger] ts[i]).plus
    &&& restricted ==> forall|i: int, j: int|
        0 <= i < j < ts.len() ==> (#[trigger] ts[i]).elem != (#[trigger] ts[j]).elem
    &&& forall|i: int, j: int|
        0 <= i < ts.len() && 0 <= j < ts.len() && (#[trigger] ts[i]).elem == (#[trigger] ts[j]).elem
            ==> ts[i].plus == ts[j].plus
}

/// The `h`-fold sumset of `a` of the given kind: the sums of the lists of `h`
/// terms that count.
pub open spec fn hfold(
    a: Set<Seq<nat>>,
    h: nat,
    mods: Seq<nat>,
    restricted: bool,
    signed: bool,
) -> Set<Seq<nat>> {
    Set::new(
        |x: Seq<nat>|
            exists|ts: Seq<Term>|
                ts.len() == h && terms_ok(ts, a, restricted, signed) && sum_terms(ts, mods) == x,
    )
}

/// The union of the `h`-fold sumsets for `h` from `lo` to `hi`, both included.
pub open spec fn hfold_interval(
    a: Set<Seq<nat>>,
    lo: nat,
    hi: nat,
    mods: Seq<nat>,
    restricted: bool,
    signed: bool,
) -> Set<Seq<nat>> {
    Set::new(
        |x: Seq<nat>|
            exists|h: nat| lo <= h && h <= hi && hfold(a, h, mods, restricted, signed).contains(x),
    )
}

/// The sums of `h` elements of `a`, repetition allowed.
pub open spec fn sumset(a: Set<Seq<nat>>, h: nat, mods: Seq<nat>) -> Set<Seq<nat>> {
    hfold(a, h, mods, false, false)
}

/// The sums of `h` distinct elements of `a`.
pub open spec fn restricted_sumset(a: Set<Seq<nat>>, h: nat, mods: Seq<nat>) -> Set<Seq<nat>> {
    hfold(a, h, mods, true, false)
}

/// The sums of `h` elements of `a`, each added or subtracted, no element both.
pub open spec fn signed_sumset(a: Set<Seq<nat>>, h: nat, mods: Seq<nat>) -> Set<Seq<nat>> {
    hfold(a, h, mods, false, true)
}

/// The sums of `h` distinct elements of `a`, each added or subtracted.
pub open spec fn restricted_signed_sumset(a: Set<Seq<nat>>, h: nat, mods: Seq<nat>) -> Set<
    Seq<nat>,
> {
    hfold(a, h, mods, true, true)
}

/// Every term of `ts` holds an element of the group.
pub open spec fn terms_in_group(ts: Seq<Term>, mods: Seq<nat>) -> bool {
    forall|i: int| 0 <= i < ts.len() ==> is_elem(#[trigger] ts[i].elem, mods)
}

/// What a term adds is an element.
pub proof fn lemma_term_value_is_elem(t: Term, mods: Seq<nat>)
    requires
        valid_moduli(mods),
        is_elem(t.elem, mods),
    ensures
        is_elem(term_value(t, mods), mods),
{
    lemma_neg_is_elem(t.elem, mods);
}

/// Adding terms to an element gives an element.
pub proof fn lemma_apply_is_elem(y: Seq<nat>, ts: Seq<Term>, mods: Seq<nat>)
    requires
        valid_moduli(mods),
        is_elem(y, mods),
    ensures
        is_elem(apply_terms(y, ts, mods), mods),
    decreases ts.len(),
{
    if ts.len() > 0 {
        lemma_add_is_elem(y, term_value(ts[0], mods), mods);
        lemma_apply_is_elem(elem_add(y, term_value(ts[0], mods), mods), ts.drop_first(), mods);
    }
}

/// Adding two lists one after the other is adding their concatenation.
pub proof fn lemma_apply_concat(y: Seq<nat>, ts: Seq<Term>, us: Seq<Term>, mods: Seq<nat>)
    ensures
        apply_terms(y, ts + us, mods) == apply_terms(apply_terms(y, ts, mods), us, mods),
    decreases ts.len(),
{
    if ts.len() == 0 {
        assert(ts + us =~= us);
    } else {
        assert((ts + us)[0] == ts[0]);
        assert((ts + us).drop_first() =~= ts.drop_first() + us);
        lemma_apply_concat(
            elem_add(y, term_value(ts[0], mods), mods),
            ts.drop_first(),
            us,
            mods,
        );
    }
}

/// Adding a list with one more term at its end.
pub proof fn lemma_apply_push(y: Seq<nat>, ts: Seq<Term>, t: Term, mods: Seq<nat>)
    ensures
        apply_terms(y, ts.push(t), mods) == elem_add(
            apply_terms(y, ts, mods),
            term_value(t, mods),
            mods,
        ),
{
    lemma_apply_concat(y, ts, seq![t], mods);
    assert(ts.push(t) =~= ts + seq![t]);
    let z = apply_terms(y, ts, mods);
    assert(seq![t].drop_first() =~= Seq::<Term>::empty());
    assert(apply_terms(z, seq![t], mods) == apply_terms(
        elem_add(z, term_value(seq![t][0], mods), mods),
        seq![t].drop_first(),
        mods,
    ));
}

/// Adding terms to `y` is adding their sum to `y`.
pub proof fn lemma_apply_is_add(y: Seq<nat>, ts: Seq<Term>, mods: Seq<nat>)
    requires
        valid_moduli(mods),
        is_elem(y, mods),
        terms_in_group(ts, mods),
    ensures
        apply_terms(y, ts, mods) == elem_add(y, sum_terms(ts, mods), mods),
    decreases ts.len(),
{
    let zero = zero_elem(mods);
    lemma_zero_is_elem(mods);
    if ts.len() == 0 {
        lemma_add_zero(y, mods);
    } else {
        let v = term_value(ts[0], mods);
        let rest = ts.drop_first();
        assert(is_elem(ts[0].elem, mods));
        lemma_term_value_is_elem(ts[0], mods);
        lemma_add_is_elem(y, v, mods);
        lemma_add_is_elem(zero, v, mods);
        assert forall|i: int| 0 <= i < rest.len() implies is_elem(#[trigger] rest[i].elem, mods) by {
            assert(rest[i] == ts[i + 1]);
        }
        lemma_apply_is_add(elem_add(y, v, mods), rest, mods);
        lemma_apply_is_add(elem_add(zero, v, mods), rest, mods);
        lemma_add_zero(v, mods);
        let s = sum_terms(rest, mods);
        lemma_add_associates(y, v, s, mods);
    }
}

/// Adding one more term anywhere in a list adds its value to the sum.
pub proof fn lemma_apply_insert(y: Seq<nat>, ts: Seq<Term>, p: int, t: Term, mods: Seq<nat>)
    requires
        valid_moduli(mods),
        is_elem(y, mods),
        terms_in_group(ts, mods),
        is_elem(t.elem, mods),
        0 <= p <= ts.len(),
    ensures
        apply_terms(y, ts.insert(p, t), mods) == elem_add(
            apply_terms(y, ts, mods),
            term_value(t, mods),
            mods,
        ),
{
    let head = ts.take(p);
    let tail = ts.skip(p);
    let v = term_value(t, mods);
    lemma_term_value_is_elem(t, mods);
    assert(ts.insert(p, t) =~= head.push(t) + tail);
    assert(ts =~= head + tail);
    lemma_apply_concat(y, head.push(t), tail, mods);
    lemma_apply_concat(y, head, tail, mods);
    lemma_apply_push(y, head, t, mods);
    let y1 = apply_terms(y, head, mods);
    lemma_apply_is_elem(y, head, mods);
    lemma_add_is_elem(y1, v, mods);
    assert forall|i: int| 0 <= i < tail.len() implies is_elem(#[trigger] tail[i].elem, mods) by {
        assert(tail[i] == ts[p + i]);
    }
    lemma_apply_is_add(elem_add(y1, v, mods), tail, mods);
    lemma_apply_is_add(y1, tail, mods);
    let s = sum_terms(tail, mods);
    lemma_zero_is_elem(mods);
    lemma_apply_is_elem(zero_elem(mods), tail, mods);
    lemma_add_associates(y1, v, s, mods);
    lemma_add_commutes(v, s, mods);
    lemma_add_associates(y1, s, v, mods);
}


/// The terms come in an order of falling rank: no term has a higher rank than
/// one before it, and with `strict` none has the same.
pub open spec fn ranked(ts: Seq<Term>, rank: spec_fn(Seq<nat>) -> int, strict: bool) -> bool {
    forall|i: int, j: int|
        0 <= i < j < ts.len() ==> if strict {
            rank((#[trigger] ts[j]).elem) < rank((#[trigger] ts[i]).elem)
        } else {
            rank(ts[j].elem) <= rank(ts[i].elem)
        }
}

/// Where `t` goes in a list of falling rank: behind the terms of its rank.
pub open spec fn insert_pos(c: Seq<Term>, t: Term, rank: spec_fn(Seq<nat>) -> int) -> int
    decreases c.len(),
{
    if c.len() == 0 {
        0
    } else if rank(c[0].elem) >= rank(t.elem) {
        1 + insert_pos(c.drop_first(), t, rank)
    } else {
        0
    }
}

/// The terms of `ts` in an order of falling rank.
pub open spec fn sort_terms(ts: Seq<Term>, rank: spec_fn(Seq<nat>) -> int) -> Seq<Term>
    decreases ts.len(),
{
    if ts.len() == 0 {
        ts
    } else {
        let c = sort_terms(ts.drop_last(), rank);
        c.insert(insert_pos(c, ts.last(), rank), ts.last())
    }
}

/// Every term of `c` is a term of `ts`.
pub open spec fn drawn_from(c: Seq<Term>, ts: Seq<Term>) -> bool {
    forall|i: int| 0 <= i < c.len() ==> exists|j: int| 0 <= j < ts.len() && #[trigger] c[i] == ts[j]
}

/// No element occurs in two terms.
pub open spec fn distinct_elems(ts: Seq<Term>) -> bool {
    forall|i: int, j: int|
        0 <= i < j < ts.len() ==> (#[trigger] ts[i]).elem != (#[trigger] ts[j]).elem
}

proof fn lemma_insert_pos(c: Seq<Term>, t: Term, rank: spec_fn(Seq<nat>) -> int)
    requires
        ranked(c, rank, false),
    ensures
        0 <= insert_pos(c, t, rank) <= c.len(),
        forall|i: int| 0 <= i < insert_pos(c, t, rank) ==> rank(t.elem) <= rank(#[trigger] c[i].elem),
        forall|i: int|
            insert_pos(c, t, rank) <= i < c.len() ==> rank(#[trigger] c[i].elem) < rank(t.elem),
    decreases c.len(),
{
    if c.len() > 0 {
        let rest = c.drop_first();
        assert forall|i: int, j: int| 0 <= i < j < rest.len() implies rank(
            (#[trigger] rest[j]).elem,
        ) <= rank((#[trigger] rest[i]).elem) by {
            assert(rest[i] == c[i + 1] && rest[j] == c[j + 1]);
        }
        lemma_insert_pos(rest, t, rank);
        let p = insert_pos(c, t, rank);
        if rank(c[0].elem) >= rank(t.elem) {
            assert forall|i: int| 0 <= i < p implies rank(t.elem) <= rank(#[trigger] c[i].elem) by {
                if i > 0 {
                    assert(c[i] == rest[i - 1]);
                }
            }
            assert forall|i: int| p <= i < c.len() implies rank(#[trigger] c[i].elem) < rank(
                t.elem,
            ) by {
                assert(c[i] == rest[i - 1]);
            }
        } else {
            assert forall|i: int| 0 <= i < c.len() implies rank(#[trigger] c[i].elem) < rank(
                t.elem,
            ) by {
                if i > 0 {
                    assert(rank(c[i].elem) <= rank(c[0].elem));
                }
            }
        }
    }
}

/// A sorted list has falling rank, as many terms as the list it was made
/// from, and no term that is not in that list.
pub proof fn lemma_sort_ranked(ts: Seq<Term>, rank: spec_fn(Seq<nat>) -> int)
    ensures
        sort_terms(ts, rank).len() == ts.len(),
        ranked(sort_terms(ts, rank), rank, false),
        drawn_from(sort_terms(ts, rank), ts),
    decreases ts.len(),
{
    let r = sort_terms(ts, rank);
    if ts.len() > 0 {
        let init = ts.drop_last();
        let t = ts.last();
        let c = sort_terms(init, rank);
        lemma_sort_ranked(init, rank);
        lemma_insert_pos(c, t, rank);
        let p = insert_pos(c, t, rank);
        assert(r == c.insert(p, t));
        assert forall|i: int| 0 <= i < r.len() implies exists|j: int|
            0 <= j < ts.len() && #[trigger] r[i] == ts[j] by {
            if i < p {
                let j = choose|j: int| 0 <= j < init.len() && c[i] == init[j];
                assert(r[i] == ts[j]);
            } else if i == p {
                assert(r[i] == ts[ts.len() - 1]);
            } else {
                let j = choose|j: int| 0 <= j < init.len() && c[i - 1] == init[j];
                assert(r[i] == ts[j]);
            }
        }
        assert forall|i: int, j: int| 0 <= i < j < r.len() implies rank((#[trigger] r[j]).elem)
            <= rank((#[trigger] r[i]).elem) by {
            let ci = if i < p { i } else { i - 1 };
            let cj = if j < p { j } else { j - 1 };
            if i != p && j != p {
                assert(r[i] == c[ci] && r[j] == c[cj]);
            } else if i == p {
                assert(r[j] == c[cj]);
            } else {
                assert(r[i] == c[ci]);
            }
        }
    }
}

/// Sorting a list without a repeated element gives one without.
pub proof fn lemma_sort_distinct(ts: Seq<Term>, rank: spec_fn(Seq<nat>) -> int)
    requires
        distinct_elems(ts),
    ensures
        distinct_elems(sort_terms(ts, rank)),
    decreases ts.len(),
{
    let r = sort_terms(ts, rank);
    if ts.len() > 0 {
        let init = ts.drop_last();
        let t = ts.last();
        let c = sort_terms(init, rank);
        assert forall|i: int, j: int| 0 <= i < j < init.len() implies (#[trigger] init[i]).elem
            != (#[trigger] init[j]).elem by {
            assert(init[i] == ts[i] && init[j] == ts[j]);
        }
        lemma_sort_distinct(init, rank);
        lemma_sort_ranked(init, rank);
        lemma_insert_pos(c, t, rank);
        let p = insert_pos(c, t, rank);
        assert(r == c.insert(p, t));
        assert forall|i: int| 0 <= i < c.len() implies (#[trigger] c[i]).elem != t.elem by {
            let k = choose|k: int| 0 <= k < init.len() && c[i] == init[k];
            assert(init[k] == ts[k]);
            assert(ts[k].elem != ts[ts.len() - 1].elem);
        }
        assert forall|i: int, j: int| 0 <= i < j < r.len() implies (#[trigger] r[i]).elem != (
        #[trigger] r[j]).elem by {
            let ci = if i < p { i } else { i - 1 };
            let cj = if j < p { j } else { j - 1 };
            if i != p && j != p {
                assert(r[i] == c[ci] && r[j] == c[cj]);
            } else if i == p {
                assert(r[j] == c[cj]);
            } else {
                assert(r[i] == c[ci]);
            }
        }
    }
}

/// Sorting keeps the sum.
pub proof fn lemma_sort_sum(ts: Seq<Term>, rank: spec_fn(Seq<nat>) -> int, mods: Seq<nat>)
    requires
        valid_moduli(mods),
        terms_in_group(ts, mods),
    ensures
        sum_terms(sort_terms(ts, rank), mods) == sum_terms(ts, mods),
        terms_in_group(sort_terms(ts, rank), mods),
    decreases ts.len(),
{
    let r = sort_terms(ts, rank);
    if ts.len() > 0 {
        let init = ts.drop_last();
        let t = ts.last();
        let c = sort_terms(init, rank);
        assert forall|i: int| 0 <= i < init.len() implies is_elem(#[trigger] init[i].elem, mods) by {
            assert(init[i] == ts[i]);
        }
        lemma_sort_sum(init, rank, mods);
        lemma_sort_ranked(init, rank);
        lemma_insert_pos(c, t, rank);
        let p = insert_pos(c, t, rank);
        assert(r == c.insert(p, t));
        assert(is_elem(ts[ts.len() - 1].elem, mods));
        lemma_zero_is_elem(mods);
        lemma_apply_insert(zero_elem(mods), c, p, t, mods);
        assert(ts =~= init.push(t));
        lemma_apply_push(zero_elem(mods), init, t, mods);
        assert forall|i: int| 0 <= i < r.len() implies is_elem(#[trigger] r[i].elem, mods) by {
            if i < p {
                assert(r[i] == c[i]);
            } else if i > p {
                assert(r[i] == c[i - 1]);
            }
        }
    }
}

/// A list drawn from one that counts, and without a repeated element where
/// the kind asks for that, counts too.
pub proof fn lemma_drawn_ok(
    c: Seq<Term>,
    ts: Seq<Term>,
    a: Set<Seq<nat>>,
    restricted: bool,
    signed: bool,
)
    requires
        terms_ok(ts, a, restricted, signed),
        drawn_from(c, ts),
        restricted ==> distinct_elems(c),
    ensures
        terms_ok(c, a, restricted, signed),
{
    assert forall|i: int| 0 <= i < c.len() implies a.contains(#[trigger] c[i].elem) by {
        let j = choose|j: int| 0 <= j < ts.len() && c[i] == ts[j];
        assert(a.contains(ts[j].elem));
    }
    if !signed {
        assert forall|i: int| 0 <= i < c.len() implies (#[trigger] c[i]).plus by {
            let j = choose|j: int| 0 <= j < ts.len() && c[i] == ts[j];
            assert(ts[j].plus);
        }
    }
    assert forall|i: int, j: int|
        0 <= i < c.len() && 0 <= j < c.len() && (#[trigger] c[i]).elem == (#[trigger] c[j]).elem
        implies c[i].plus == c[j].plus by {
        let k = choose|k: int| 0 <= k < ts.len() && c[i] == ts[k];
        let l = choose|l: int| 0 <= l < ts.len() && c[j] == ts[l];
        assert(ts[k].elem == ts[l].elem);
    }
}

/// Sorting keeps the number of terms and their sum, and what counts for a
/// kind of sumset still counts; with `restricted` the rank falls strictly.
pub proof fn lemma_sort_terms(
    ts: Seq<Term>,
    rank: spec_fn(Seq<nat>) -> int,
    a: Set<Seq<nat>>,
    mods: Seq<nat>,
    restricted: bool,
    signed: bool,
)
    requires
        valid_moduli(mods),
        terms_ok(ts, a, restricted, signed),
        forall|e: Seq<nat>| a.contains(e) ==> is_elem(e, mods),
        forall|e: Seq<nat>, f: Seq<nat>|
            a.contains(e) && a.contains(f) && #[trigger] rank(e) == #[trigger] rank(f) ==> e == f,
    ensures
        sort_terms(ts, rank).len() == ts.len(),
        terms_ok(sort_terms(ts, rank), a, restricted, signed),
        ranked(sort_terms(ts, rank), rank, restricted),
        sum_terms(sort_terms(ts, rank), mods) == sum_terms(ts, mods),
{
    let r = sort_terms(ts, rank);
    lemma_sort_ranked(ts, rank);
    if restricted {
        lemma_sort_distinct(ts, rank);
    }
    lemma_drawn_ok(r, ts, a, restricted, signed);
    assert(terms_in_group(ts, mods)) by {
        assert forall|i: int| 0 <= i < ts.len() implies is_elem(#[trigger] ts[i].elem, mods) by {
            assert(a.contains(ts[i].elem));
        }
    }
    lemma_sort_sum(ts, rank, mods);
    if restricted {
        assert forall|i: int, j: int| 0 <= i < j < r.len() implies rank((#[trigger] r[j]).elem)
            < rank((#[trigger] r[i]).elem) by {
            assert(rank(r[j].elem) <= rank(r[i].elem));
            assert(r[i].elem != r[j].elem);
            assert(a.contains(r[i].elem) && a.contains(r[j].elem));
        }
    }
}


/// The elements that occur in the first `k` terms of `ts`.
pub open spec fn elems_of(ts: Seq<Term>, k: int) -> Set<Seq<nat>> {
    Set::new(|e: Seq<nat>| exists|i: int| 0 <= i < k && #[trigger] ts[i].elem == e)
}

/// A list without a repeated element holds as many elements as it has terms.
pub proof fn lemma_distinct_count(ts: Seq<Term>, k: int)
    requires
        distinct_elems(ts),
        0 <= k <= ts.len(),
    ensures
        elems_of(ts, k).finite(),
        elems_of(ts, k).len() == k,
    decreases k,
{
    if k == 0 {
        assert(elems_of(ts, 0) =~= Set::<Seq<nat>>::empty());
    } else {
        lemma_distinct_count(ts, k - 1);
        let e = ts[k - 1].elem;
        assert(!elems_of(ts, k - 1).contains(e)) by {
            if elems_of(ts, k - 1).contains(e) {
                let i = choose|i: int| 0 <= i < k - 1 && #[trigger] ts[i].elem == e;
                assert(ts[i].elem != ts[k - 1].elem);
            }
        }
        assert(elems_of(ts, k) =~= elems_of(ts, k - 1).insert(e));
    }
}

/// There is no sum of more distinct members than the set has: beyond the
/// size of the set the restricted sumsets are empty.
pub proof fn lemma_restricted_beyond_size(a: Set<Seq<nat>>, h: nat, mods: Seq<nat>, signed: bool)
    requires
        a.finite(),
        h > a.len(),
    ensures
        hfold(a, h, mods, true, signed) == Set::<Seq<nat>>::empty(),
{
    let got = hfold(a, h, mods, true, signed);
    assert forall|x: Seq<nat>| !got.contains(x) by {
        if got.contains(x) {
            let ts = choose|ts: Seq<Term>|
                ts.len() == h && terms_ok(ts, a, true, signed) && sum_terms(ts, mods) == x;
            assert(distinct_elems(ts));
            lemma_distinct_count(ts, ts.len() as int);
            let held = elems_of(ts, ts.len() as int);
            assert forall|e: Seq<nat>| held.contains(e) implies a.contains(e) by {
                let i = choose|i: int| 0 <= i < ts.len() && #[trigger] ts[i].elem == e;
                assert(a.contains(ts[i].elem));
            }
            vstd::set_lib::lemma_len_subset(held, a);
        }
    }
    assert(got =~= Set::<Seq<nat>>::empty());
}

/// The 0-fold sumset of any kind holds the identity alone.
pub proof fn lemma_hfold_zero(a: Set<Seq<nat>>, mods: Seq<nat>, restricted: bool, signed: bool)
    ensures
        hfold(a, 0, mods, restricted, signed) == Set::<Seq<nat>>::empty().insert(zero_elem(mods)),
{
    let got = hfold(a, 0, mods, restricted, signed);
    let want = Set::<Seq<nat>>::empty().insert(zero_elem(mods));
    let none = Seq::<Term>::empty();
    assert(terms_ok(none, a, restricted, signed));
    assert(sum_terms(none, mods) == zero_elem(mods));
    assert(got.contains(zero_elem(mods)));
    assert forall|x: Seq<nat>| got.contains(x) implies x == zero_elem(mods) by {
        let ts = choose|ts: Seq<Term>|
            ts.len() == 0 && terms_ok(ts, a, restricted, signed) && sum_terms(ts, mods) == x;
        assert(ts =~= none);
    }
    assert(got =~= want);
}

/// The interval from `h` to `h` holds the `h`-fold sumset alone.
pub proof fn lemma_interval_single(
    a: Set<Seq<nat>>,
    h: nat,
    mods: Seq<nat>,
    restricted: bool,
    signed: bool,
)
    ensures
        hfold_interval(a, h, h, mods, restricted, signed) == hfold(a, h, mods, restricted, signed),
{
    assert(hfold_interval(a, h, h, mods, restricted, signed) =~= hfold(
        a,
        h,
        mods,
        restricted,
        signed,
    ));
}

/// An empty interval gives the empty set.
pub proof fn lemma_interval_empty(
    a: Set<Seq<nat>>,
    lo: nat,
    hi: nat,
    mods: Seq<nat>,
    restricted: bool,
    signed: bool,
)
    requires
        lo > hi,
    ensures
        hfold_interval(a, lo, hi, mods, restricted, signed) == Set::<Seq<nat>>::empty(),
{
    assert(hfold_interval(a, lo, hi, mods, restricted, signed) =~= Set::<Seq<nat>>::empty());
}

/// Every sum of a sumset is an element of the group.
pub proof fn lemma_hfold_in_group(
    a: Set<Seq<nat>>,
    h: nat,
    mods: Seq<nat>,
    restricted: bool,
    signed: bool,
)
    requires
        valid_moduli(mods),
    ensures
        forall|x: Seq<nat>| hfold(a, h, mods, restricted, signed).contains(x) ==> is_elem(x, mods),
{
    assert forall|x: Seq<nat>| hfold(a, h, mods, restricted, signed).contains(x) implies is_elem(
        x,
        mods,
    ) by {
        let ts = choose|ts: Seq<Term>|
            ts.len() == h && terms_ok(ts, a, restricted, signed) && sum_terms(ts, mods) == x;
        lemma_zero_is_elem(mods);
        lemma_apply_is_elem(zero_elem(mods), ts, mods);
    }
}

/// The union of the sumsets of one kind for the numbers of terms from `lo`
/// up to, not including, `end`.
pub open spec fn hfold_upto(
    a: Set<Seq<nat>>,
    lo: nat,
    end: nat,
    mods: Seq<nat>,
    restricted: bool,
    signed: bool,
) -> Set<Seq<nat>> {
    Set::new(
        |x: Seq<nat>|
            exists|h: nat| lo <= h && h < end && hfold(a, h, mods, restricted, signed).contains(x),
    )
}

/// The union up to one number of terms more is the union so far and the
/// sumset for that number, where it counts.
pub proof fn lemma_upto_next(
    a: Set<Seq<nat>>,
    lo: nat,
    end: nat,
    mods: Seq<nat>,
    restricted: bool,
    signed: bool,
)
    ensures
        hfold_upto(a, lo, end + 1, mods, restricted, signed) == if lo <= end {
            hfold_upto(a, lo, end, mods, restricted, signed).union(
                hfold(a, end, mods, restricted, signed),
            )
        } else {
            hfold_upto(a, lo, end, mods, restricted, signed)
        },
        hfold_upto(a, lo, lo, mods, restricted, signed) == Set::<Seq<nat>>::empty(),
        hfold_upto(a, lo, end + 1, mods, restricted, signed) == hfold_interval(
            a,
            lo,
            end,
            mods,
            restricted,
            signed,
        ),
{
    let now = hfold_upto(a, lo, end + 1, mods, restricted, signed);
    let was = hfold_upto(a, lo, end, mods, restricted, signed);
    let cur = hfold(a, end, mods, restricted, signed);
    assert forall|x: Seq<nat>| now.contains(x) implies was.contains(x) || (lo <= end && cur.contains(
        x,
    )) by {
        let h = choose|h: nat|
            lo <= h && h < end + 1 && hfold(a, h, mods, restricted, signed).contains(x);
        if h < end {
            assert(was.contains(x));
        }
    }
    assert forall|x: Seq<nat>| was.contains(x) implies now.contains(x) by {
        let h = choose|h: nat| lo <= h && h < end && hfold(a, h, mods, restricted, signed).contains(x);
        assert(lo <= h && h < end + 1);
    }
    if lo <= end {
        assert(now =~= was.union(cur));
    } else {
        assert(now =~= was);
    }
    assert(hfold_upto(a, lo, lo, mods, restricted, signed) =~= Set::<Seq<nat>>::empty());
    assert(now =~= hfold_interval(a, lo, end, mods, restricted, signed));
}

/// The set with no member has no sum of one or more terms.
pub proof fn lemma_hfold_of_empty(h: nat, mods: Seq<nat>, restricted: bool, signed: bool)
    requires
        h >= 1,
    ensures
        hfold(Set::<Seq<nat>>::empty(), h, mods, restricted, signed) == Set::<Seq<nat>>::empty(),
{
    let got = hfold(Set::<Seq<nat>>::empty(), h, mods, restricted, signed);
    assert forall|x: Seq<nat>| !got.contains(x) by {
        if got.contains(x) {
            let ts = choose|ts: Seq<Term>|
                ts.len() == h && terms_ok(ts, Set::<Seq<nat>>::empty(), restricted, signed)
                    && sum_terms(ts, mods) == x;
            assert(Set::<Seq<nat>>::empty().contains(ts[0].elem));
        }
    }
    assert(got =~= Set::<Seq<nat>>::empty());
}

} // verus!
