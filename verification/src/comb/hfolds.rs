//! The sumset operators on packed subsets.

use crate::bitword::{below, is_least, BitSetContents};
use crate::fastset::{cycle, cycle_rev, empty_set, shift_mod, singleton, unshift_mod, FastSet};
use crate::model::{
    cyclic, elem_add, elem_neg, is_elem, lemma_coordinates, lemma_residues_len, residue, residues,
    valid_moduli, zero_elem,
};
use crate::sumset::{
    apply_terms, hfold, hfold_interval, hfold_upto, lemma_apply_is_elem, lemma_apply_push,
    lemma_hfold_zero, lemma_interval_empty, lemma_interval_single, lemma_restricted_beyond_size,
    lemma_sort_terms, ranked, sort_terms, sum_terms, term_value, terms_ok, Term,
};
use crate::model::lemma_residues_subset;
use crate::setlike::HFolds;
use vstd::prelude::*;

verus! {

/// Whether `val` lies in the closed interval.
#[inline]
pub fn in_interval(val: u32, interval: (u32, u32)) -> (r: bool)
    ensures
        r == (interval.0 <= val && val <= interval.1),
{
    let (a, b) = interval;
    (val >= a) && (val <= b)
}

/// The sums modulo `n` of a member of `prev` and a member of `a`.
pub open spec fn sum_step(prev: Set<nat>, a: Set<nat>, n: nat) -> Set<nat> {
    Set::new(|x: nat| exists|y: nat, e: nat| prev.contains(y) && a.contains(e) && x == (y + e) % n)
}

/// Adding residues is adding the elements that stand for them.
pub proof fn lemma_residue_add(y: nat, e: nat, n: nat)
    requires
        n >= 1,
    ensures
        elem_add(residue(y), residue(e), cyclic(n)) == residue((y + e) % n),
        valid_moduli(cyclic(n)),
        zero_elem(cyclic(n)) == residue(0),
        y < n ==> is_elem(residue(y), cyclic(n)),
{
    lemma_coordinates(residue(y), residue(e), cyclic(n));
    assert(elem_add(residue(y), residue(e), cyclic(n)) =~= residue((y + e) % n));
    assert(zero_elem(cyclic(n)) =~= residue(0));
}

/// Subtracting a residue is adding the inverse of the element that stands
/// for it.
pub proof fn lemma_residue_sub(y: nat, e: nat, n: nat)
    requires
        n >= 1,
        e <= n,
    ensures
        elem_add(residue(y), elem_neg(residue(e), cyclic(n)), cyclic(n)) == residue(
            (y + (n - e) as nat) % n,
        ),
{
    let neg = elem_neg(residue(e), cyclic(n));
    lemma_coordinates(residue(e), residue(e), cyclic(n));
    lemma_coordinates(residue(y), neg, cyclic(n));
    assert(neg[0] == ((n - e) as int) % (n as int));
    vstd::arithmetic::div_mod::lemma_add_mod_noop_right(y as int, (n - e) as int, n as int);
    assert(elem_add(residue(y), neg, cyclic(n)) =~= residue((y + (n - e) as nat) % n));
}

/// An element of a cyclic group is the residue that is its one coordinate.
pub proof fn lemma_residue_of(x: Seq<nat>, n: nat)
    requires
        is_elem(x, cyclic(n)),
    ensures
        x == residue(x[0]),
        x[0] < n,
{
    assert(x =~= residue(x[0]));
}

/// The plain sumsets, one fold at a time: a sum of `h + 1` members is a sum
/// of `h` members and one more.
pub proof fn lemma_sumset_step(a: Set<nat>, prev: Set<nat>, h: nat, n: nat)
    requires
        n >= 1,
        forall|e: nat| a.contains(e) ==> e < n,
        forall|y: nat| prev.contains(y) ==> y < n,
        residues(prev) == hfold(residues(a), h, cyclic(n), false, false),
    ensures
        residues(sum_step(prev, a, n)) == hfold(residues(a), h + 1, cyclic(n), false, false),
{
    let mods = cyclic(n);
    let ra = residues(a);
    let next = residues(sum_step(prev, a, n));
    let want = hfold(ra, h + 1, mods, false, false);
    assert forall|x: Seq<nat>| next.contains(x) implies want.contains(x) by {
        let (y, e) = choose|y: nat, e: nat| prev.contains(y) && a.contains(e) && x[0] == (y + e) % n;
        assert(residues(prev).contains(residue(y)));
        let ts = choose|ts: Seq<Term>|
            ts.len() == h && terms_ok(ts, ra, false, false) && sum_terms(ts, mods) == residue(y);
        let t = Term { elem: residue(e), plus: true };
        let us = ts.push(t);
        lemma_apply_push(zero_elem(mods), ts, t, mods);
        lemma_residue_add(y, e, n);
        assert(x =~= residue((y + e) % n));
        assert(ra.contains(residue(e)));
        assert(terms_ok(us, ra, false, false)) by {
            assert forall|i: int| 0 <= i < us.len() implies ra.contains(#[trigger] us[i].elem) by {
                if i < ts.len() {
                    assert(us[i] == ts[i]);
                }
            }
            assert forall|i: int| 0 <= i < us.len() implies (#[trigger] us[i]).plus by {
                if i < ts.len() {
                    assert(us[i] == ts[i]);
                }
            }
        }
        assert(us.len() == h + 1 && sum_terms(us, mods) == x);
    }
    assert forall|x: Seq<nat>| want.contains(x) implies next.contains(x) by {
        let us = choose|us: Seq<Term>|
            us.len() == h + 1 && terms_ok(us, ra, false, false) && sum_terms(us, mods) == x;
        let ts = us.drop_last();
        let t = us.last();
        assert(us =~= ts.push(t));
        lemma_apply_push(zero_elem(mods), ts, t, mods);
        assert(terms_ok(ts, ra, false, false)) by {
            assert forall|i: int| 0 <= i < ts.len() implies ra.contains(#[trigger] ts[i].elem) by {
                assert(ts[i] == us[i]);
            }
            assert forall|i: int| 0 <= i < ts.len() implies (#[trigger] ts[i]).plus by {
                assert(ts[i] == us[i]);
            }
        }
        let sy = sum_terms(ts, mods);
        assert(hfold(ra, h, mods, false, false).contains(sy));
        assert(residues(prev).contains(sy));
        let y = sy[0];
        assert(sy =~= residue(y));
        assert(ra.contains(us[us.len() - 1].elem));
        let e = t.elem[0];
        assert(t.elem =~= residue(e));
        assert(t.plus);
        lemma_residue_add(y, e, n);
        assert(x == residue((y + e) % n));
        assert(prev.contains(y) && a.contains(e) && x[0] == (y + e) % n);
        assert(sum_step(prev, a, n).contains(x[0]));
    }
    assert(next =~= want);
}

/// One fold: the sums of a member of `prev` and a member of `set`.
fn fold_once<B: BitSetContents>(set: B, prev: B, n: u32) -> (res: B)
    requires
        1 <= n < B::width(),
        forall|x: nat| set.elems().contains(x) ==> x < n,
        forall|x: nat| prev.elems().contains(x) ==> x < n,
    ensures
        res.elems() == sum_step(prev.elems(), set.elems(), n as nat),
        forall|x: nat| res.elems().contains(x) ==> x < n,
{
    let mut res = B::zero();
    let mut c1 = set;
    proof {
        set.lemma_elems_below();
        assert(res.elems() =~= sum_step(
            prev.elems(),
            set.elems().difference(c1.elems()),
            n as nat,
        ));
    }
    while !c1.same(B::zero())
        invariant
            1 <= n < B::width(),
            forall|x: nat| set.elems().contains(x) ==> x < n,
            forall|x: nat| prev.elems().contains(x) ==> x < n,
            c1.elems().subset_of(set.elems()),
            c1.elems().finite(),
            res.elems() == sum_step(prev.elems(), set.elems().difference(c1.elems()), n as nat),
            forall|x: nat| res.elems().contains(x) ==> x < n,
        decreases c1.elems().len(),
    {
        let shift = c1.bit_scan_low();
        proof {
            assert(is_least(c1.elems(), shift as nat));
        }
        let cycled = cycle(prev, shift, n);
        let ghost before = res.elems();
        let ghost done = set.elems().difference(c1.elems());
        res = res.or(cycled);
        let c2 = c1.clear_lowest();
        proof {
            let done2 = set.elems().difference(c2.elems());
            let want = sum_step(prev.elems(), done2, n as nat);
            assert forall|x: nat| res.elems().contains(x) == want.contains(x) by {
                if before.contains(x) {
                    let (y, e) = choose|y: nat, e: nat|
                        prev.elems().contains(y) && done.contains(e) && x == (y + e) % (n as nat);
                    assert(prev.elems().contains(y) && done2.contains(e) && x == (y + e) % (
                    n as nat));
                }
                if cycled.elems().contains(x) {
                    let y = choose|y: nat|
                        prev.elems().contains(y) && x == (y + shift as nat) % (n as nat);
                    assert(prev.elems().contains(y) && done2.contains(shift as nat) && x == (y
                        + shift as nat) % (n as nat));
                }
                if want.contains(x) {
                    let (y, e) = choose|y: nat, e: nat|
                        prev.elems().contains(y) && done2.contains(e) && x == (y + e) % (n as nat);
                    if e == shift {
                        assert(shift_mod(prev.elems(), shift as nat, n as nat).contains(x));
                    } else {
                        assert(done.contains(e));
                        assert(sum_step(prev.elems(), done, n as nat).contains(x));
                    }
                }
            }
            assert(res.elems() =~= want);
        }
        c1 = c2;
    }
    proof {
        assert(c1.elems() =~= Set::<nat>::empty());
        assert(set.elems().difference(c1.elems()) =~= set.elems());
    }
    res
}

/// The rank of an element of a cyclic group: its residue.
pub open spec fn rank1(e: Seq<nat>) -> int {
    e[0] as int
}

/// The lists of terms that the backtracking search can still take, given the
/// highest residue it may take next and the residues that it may no longer
/// add (`p`) or subtract (`m`): residues never rise; a residue that was added
/// is not subtracted later, nor the other way round; with `restricted` a
/// residue is not taken again at all.
pub open spec fn chain_ok(
    ts: Seq<Term>,
    a: Set<nat>,
    ceiling: nat,
    p: Set<nat>,
    m: Set<nat>,
    restricted: bool,
    signed: bool,
) -> bool
    decreases ts.len(),
{
    if ts.len() == 0 {
        true
    } else {
        let t = ts[0];
        let e = t.elem[0];
        &&& t.elem == residue(e)
        &&& a.contains(e)
        &&& e <= ceiling
        &&& if t.plus {
            !p.contains(e)
        } else {
            signed && !m.contains(e)
        }
        &&& chain_ok(
            ts.drop_first(),
            a,
            e,
            if t.plus && !restricted {
                p
            } else {
                p.insert(e)
            },
            if !t.plus && !restricted {
                m
            } else {
                m.insert(e)
            },
            restricted,
            signed,
        )
    }
}

/// What the search reaches from the residues of `curr` with at most `h` more
/// terms, `depth` terms being taken already and `lo` being the least number
/// of terms that counts.
pub open spec fn reach(
    curr: Set<nat>,
    a: Set<nat>,
    h: nat,
    lo: nat,
    depth: nat,
    ceiling: nat,
    p: Set<nat>,
    m: Set<nat>,
    restricted: bool,
    signed: bool,
    n: nat,
) -> Set<nat> {
    Set::new(
        |x: nat|
            exists|y: nat, ts: Seq<Term>|
                curr.contains(y) && ts.len() <= h && lo <= depth + ts.len() && chain_ok(
                    ts,
                    a,
                    ceiling,
                    p,
                    m,
                    restricted,
                    signed,
                ) && #[trigger] apply_terms(residue(y), ts, cyclic(n)) == residue(x),
    )
}

/// The part of `reach` whose lists do not start with a residue of `toadd`.
pub open spec fn reach_without(
    curr: Set<nat>,
    a: Set<nat>,
    h: nat,
    lo: nat,
    depth: nat,
    ceiling: nat,
    p: Set<nat>,
    m: Set<nat>,
    restricted: bool,
    signed: bool,
    n: nat,
    toadd: Set<nat>,
) -> Set<nat> {
    Set::new(
        |x: nat|
            exists|y: nat, ts: Seq<Term>|
                curr.contains(y) && ts.len() <= h && lo <= depth + ts.len() && chain_ok(
                    ts,
                    a,
                    ceiling,
                    p,
                    m,
                    restricted,
                    signed,
                ) && (ts.len() > 0 ==> !toadd.contains(ts[0].elem[0])) && #[trigger] apply_terms(
                    residue(y),
                    ts,
                    cyclic(n),
                ) == residue(x),
    )
}

/// The part of `reach` whose lists start with the term `t`.
pub open spec fn reach_via(
    curr: Set<nat>,
    a: Set<nat>,
    h: nat,
    lo: nat,
    depth: nat,
    ceiling: nat,
    p: Set<nat>,
    m: Set<nat>,
    restricted: bool,
    signed: bool,
    n: nat,
    t: Term,
) -> Set<nat> {
    Set::new(
        |x: nat|
            exists|y: nat, ts: Seq<Term>|
                curr.contains(y) && 1 <= ts.len() <= h && lo <= depth + ts.len() && chain_ok(
                    ts,
                    a,
                    ceiling,
                    p,
                    m,
                    restricted,
                    signed,
                ) && ts[0] == t && #[trigger] apply_terms(residue(y), ts, cyclic(n)) == residue(x),
    )
}

/// Residues that stand for the same element are the same.
proof fn lemma_residue_same(x: nat, y: nat)
    requires
        residue(x) == residue(y),
    ensures
        x == y,
{
    assert(residue(x)[0] == x);
    assert(residue(y)[0] == y);
}

/// With no term left to take, the search reaches what it holds.
proof fn lemma_reach_none(
    curr: Set<nat>,
    a: Set<nat>,
    lo: nat,
    depth: nat,
    ceiling: nat,
    p: Set<nat>,
    m: Set<nat>,
    restricted: bool,
    signed: bool,
    n: nat,
)
    requires
        lo <= depth,
    ensures
        reach(curr, a, 0, lo, depth, ceiling, p, m, restricted, signed, n) == curr,
{
    let got = reach(curr, a, 0, lo, depth, ceiling, p, m, restricted, signed, n);
    let none = Seq::<Term>::empty();
    assert forall|x: nat| got.contains(x) == curr.contains(x) by {
        if curr.contains(x) {
            assert(chain_ok(none, a, ceiling, p, m, restricted, signed));
            assert(apply_terms(residue(x), none, cyclic(n)) == residue(x));
        }
        if got.contains(x) {
            let (y, ts) = choose|y: nat, ts: Seq<Term>|
                curr.contains(y) && ts.len() <= 0 && lo <= depth + ts.len() && chain_ok(
                    ts,
                    a,
                    ceiling,
                    p,
                    m,
                    restricted,
                    signed,
                ) && #[trigger] apply_terms(residue(y), ts, cyclic(n)) == residue(x);
            lemma_residue_same(x, y);
        }
    }
    assert(got =~= curr);
}

/// Before any residue is tried, the search has reached what it holds, if
/// that counts.
proof fn lemma_reach_start(
    curr: Set<nat>,
    a: Set<nat>,
    h: nat,
    lo: nat,
    depth: nat,
    ceiling: nat,
    p: Set<nat>,
    m: Set<nat>,
    restricted: bool,
    signed: bool,
    n: nat,
)
    ensures
        reach_without(curr, a, h, lo, depth, ceiling, p, m, restricted, signed, n, a) == if lo
            <= depth {
            curr
        } else {
            Set::<nat>::empty()
        },
{
    let got = reach_without(curr, a, h, lo, depth, ceiling, p, m, restricted, signed, n, a);
    let want = if lo <= depth {
        curr
    } else {
        Set::<nat>::empty()
    };
    let none = Seq::<Term>::empty();
    assert forall|x: nat| got.contains(x) == want.contains(x) by {
        if want.contains(x) {
            assert(chain_ok(none, a, ceiling, p, m, restricted, signed));
            assert(apply_terms(residue(x), none, cyclic(n)) == residue(x));
        }
        if got.contains(x) {
            let (y, ts) = choose|y: nat, ts: Seq<Term>|
                curr.contains(y) && ts.len() <= h && lo <= depth + ts.len() && chain_ok(
                    ts,
                    a,
                    ceiling,
                    p,
                    m,
                    restricted,
                    signed,
                ) && (ts.len() > 0 ==> !a.contains(ts[0].elem[0])) && #[trigger] apply_terms(
                    residue(y),
                    ts,
                    cyclic(n),
                ) == residue(x);
            assert(ts.len() == 0);
            lemma_residue_same(x, y);
        }
    }
    assert(got =~= want);
}

/// When every residue still to try lies above the ceiling, the search has
/// reached all it can.
proof fn lemma_reach_end(
    curr: Set<nat>,
    a: Set<nat>,
    h: nat,
    lo: nat,
    depth: nat,
    ceiling: nat,
    p: Set<nat>,
    m: Set<nat>,
    restricted: bool,
    signed: bool,
    n: nat,
    toadd: Set<nat>,
)
    requires
        forall|e: nat| toadd.contains(e) ==> e > ceiling,
    ensures
        reach_without(curr, a, h, lo, depth, ceiling, p, m, restricted, signed, n, toadd) == reach(
            curr,
            a,
            h,
            lo,
            depth,
            ceiling,
            p,
            m,
            restricted,
            signed,
            n,
        ),
{
    let part = reach_without(curr, a, h, lo, depth, ceiling, p, m, restricted, signed, n, toadd);
    let whole = reach(curr, a, h, lo, depth, ceiling, p, m, restricted, signed, n);
    assert forall|x: nat| whole.contains(x) implies part.contains(x) by {
        let (y, ts) = choose|y: nat, ts: Seq<Term>|
            curr.contains(y) && ts.len() <= h && lo <= depth + ts.len() && chain_ok(
                ts,
                a,
                ceiling,
                p,
                m,
                restricted,
                signed,
            ) && #[trigger] apply_terms(residue(y), ts, cyclic(n)) == residue(x);
        assert(ts.len() > 0 ==> !toadd.contains(ts[0].elem[0]));
    }
    assert(part =~= whole);
}

/// The set of residues that may no longer be added once `t` was taken.
pub open spec fn barred_plus(p: Set<nat>, t: Term, restricted: bool) -> Set<nat> {
    if t.plus && !restricted {
        p
    } else {
        p.insert(t.elem[0])
    }
}

/// The set of residues that may no longer be subtracted once `t` was taken.
pub open spec fn barred_minus(m: Set<nat>, t: Term, restricted: bool) -> Set<nat> {
    if !t.plus && !restricted {
        m
    } else {
        m.insert(t.elem[0])
    }
}

/// Taking the term `t` and searching on from there reaches what the lists
/// that start with `t` reach.
proof fn lemma_reach_branch(
    curr: Set<nat>,
    a: Set<nat>,
    h: nat,
    lo: nat,
    depth: nat,
    ceiling: nat,
    p: Set<nat>,
    m: Set<nat>,
    restricted: bool,
    signed: bool,
    n: nat,
    e: nat,
    plus: bool,
)
    requires
        n >= 1,
        h >= 1,
        a.contains(e),
        e <= ceiling,
        e < n,
        if plus {
            !p.contains(e)
        } else {
            signed && !m.contains(e)
        },
    ensures
        ({
            let t = Term { elem: residue(e), plus: plus };
            reach(
                if plus {
                    shift_mod(curr, e, n)
                } else {
                    unshift_mod(curr, e, n)
                },
                a,
                (h - 1) as nat,
                lo,
                depth + 1,
                e,
                barred_plus(p, t, restricted),
                barred_minus(m, t, restricted),
                restricted,
                signed,
                n,
            ) == reach_via(curr, a, h, lo, depth, ceiling, p, m, restricted, signed, n, t)
        }),
{
    let t = Term { elem: residue(e), plus: plus };
    let moved = if plus {
        shift_mod(curr, e, n)
    } else {
        unshift_mod(curr, e, n)
    };
    let p_next = barred_plus(p, t, restricted);
    let m_next = barred_minus(m, t, restricted);
    let rec = reach(moved, a, (h - 1) as nat, lo, depth + 1, e, p_next, m_next, restricted, signed, n);
    let via = reach_via(curr, a, h, lo, depth, ceiling, p, m, restricted, signed, n, t);
    let mods = cyclic(n);
    assert(residue(e)[0] == e);
    assert forall|x: nat| rec.contains(x) implies via.contains(x) by {
        let (z, rest) = choose|z: nat, rest: Seq<Term>|
            moved.contains(z) && rest.len() <= h - 1 && lo <= depth + 1 + rest.len() && chain_ok(
                rest,
                a,
                e,
                p_next,
                m_next,
                restricted,
                signed,
            ) && #[trigger] apply_terms(residue(z), rest, mods) == residue(x);
        let step = if plus {
            e
        } else {
            (n - e) as nat
        };
        let y = choose|y: nat| curr.contains(y) && z == (y + step) % n;
        let ts = seq![t] + rest;
        assert(ts[0] == t);
        assert(ts.drop_first() =~= rest);
        if plus {
            lemma_residue_add(y, e, n);
        } else {
            lemma_residue_sub(y, e, n);
        }
        assert(elem_add(residue(y), term_value(t, mods), mods) == residue(z));
        assert(chain_ok(ts, a, ceiling, p, m, restricted, signed));
        assert(apply_terms(residue(y), ts, mods) == residue(x));
        assert(curr.contains(y) && 1 <= ts.len() <= h && lo <= depth + ts.len() && ts[0] == t);
    }
    assert forall|x: nat| via.contains(x) implies rec.contains(x) by {
        let (y, ts) = choose|y: nat, ts: Seq<Term>|
            curr.contains(y) && 1 <= ts.len() <= h && lo <= depth + ts.len() && chain_ok(
                ts,
                a,
                ceiling,
                p,
                m,
                restricted,
                signed,
            ) && ts[0] == t && #[trigger] apply_terms(residue(y), ts, mods) == residue(x);
        let rest = ts.drop_first();
        let step = if plus {
            e
        } else {
            (n - e) as nat
        };
        let z = (y + step) % n;
        if plus {
            lemma_residue_add(y, e, n);
        } else {
            lemma_residue_sub(y, e, n);
        }
        assert(elem_add(residue(y), term_value(t, mods), mods) == residue(z));
        assert(moved.contains(z));
        assert(chain_ok(rest, a, e, p_next, m_next, restricted, signed));
        assert(apply_terms(residue(z), rest, mods) == residue(x));
        assert(rest.len() <= h - 1 && lo <= depth + 1 + rest.len());
    }
    assert(rec =~= via);
}

/// Once the residue `e` has been tried with both signs, the search has
/// reached what the lists reach that do not start with a residue still to
/// try.
proof fn lemma_reach_progress(
    curr: Set<nat>,
    a: Set<nat>,
    h: nat,
    lo: nat,
    depth: nat,
    ceiling: nat,
    p: Set<nat>,
    m: Set<nat>,
    restricted: bool,
    signed: bool,
    n: nat,
    toadd: Set<nat>,
    e: nat,
)
    requires
        toadd.contains(e),
        a.contains(e),
        e <= ceiling,
    ensures
        ({
            let tp = Term { elem: residue(e), plus: true };
            let tm = Term { elem: residue(e), plus: false };
            let by_plus = if !p.contains(e) {
                reach_via(curr, a, h, lo, depth, ceiling, p, m, restricted, signed, n, tp)
            } else {
                Set::<nat>::empty()
            };
            let by_minus = if signed && !m.contains(e) {
                reach_via(curr, a, h, lo, depth, ceiling, p, m, restricted, signed, n, tm)
            } else {
                Set::<nat>::empty()
            };
            reach_without(curr, a, h, lo, depth, ceiling, p, m, restricted, signed, n, toadd).union(
                by_plus,
            ).union(by_minus) == reach_without(
                curr,
                a,
                h,
                lo,
                depth,
                ceiling,
                p,
                m,
                restricted,
                signed,
                n,
                toadd.remove(e),
            )
        }),
{
    let tp = Term { elem: residue(e), plus: true };
    let tm = Term { elem: residue(e), plus: false };
    let via_plus = reach_via(curr, a, h, lo, depth, ceiling, p, m, restricted, signed, n, tp);
    let via_minus = reach_via(curr, a, h, lo, depth, ceiling, p, m, restricted, signed, n, tm);
    let by_plus = if !p.contains(e) {
        via_plus
    } else {
        Set::<nat>::empty()
    };
    let by_minus = if signed && !m.contains(e) {
        via_minus
    } else {
        Set::<nat>::empty()
    };
    let before = reach_without(curr, a, h, lo, depth, ceiling, p, m, restricted, signed, n, toadd);
    let after = reach_without(
        curr,
        a,
        h,
        lo,
        depth,
        ceiling,
        p,
        m,
        restricted,
        signed,
        n,
        toadd.remove(e),
    );
    let mods = cyclic(n);
    assert(residue(e)[0] == e);
    assert forall|x: nat| before.contains(x) implies after.contains(x) by {
        let (y, ts) = choose|y: nat, ts: Seq<Term>|
            curr.contains(y) && ts.len() <= h && lo <= depth + ts.len() && chain_ok(
                ts,
                a,
                ceiling,
                p,
                m,
                restricted,
                signed,
            ) && (ts.len() > 0 ==> !toadd.contains(ts[0].elem[0])) && #[trigger] apply_terms(
                residue(y),
                ts,
                mods,
            ) == residue(x);
        assert(ts.len() > 0 ==> !toadd.remove(e).contains(ts[0].elem[0]));
    }
    assert forall|x: nat| by_plus.contains(x) || by_minus.contains(x) implies after.contains(x) by {
        let t = if by_plus.contains(x) {
            tp
        } else {
            tm
        };
        let (y, ts) = choose|y: nat, ts: Seq<Term>|
            curr.contains(y) && 1 <= ts.len() <= h && lo <= depth + ts.len() && chain_ok(
                ts,
                a,
                ceiling,
                p,
                m,
                restricted,
                signed,
            ) && ts[0] == t && #[trigger] apply_terms(residue(y), ts, mods) == residue(x);
        assert(ts[0].elem[0] == e);
        assert(ts.len() > 0 ==> !toadd.remove(e).contains(ts[0].elem[0]));
    }
    assert forall|x: nat| after.contains(x) implies before.contains(x) || by_plus.contains(x)
        || by_minus.contains(x) by {
        let (y, ts) = choose|y: nat, ts: Seq<Term>|
            curr.contains(y) && ts.len() <= h && lo <= depth + ts.len() && chain_ok(
                ts,
                a,
                ceiling,
                p,
                m,
                restricted,
                signed,
            ) && (ts.len() > 0 ==> !toadd.remove(e).contains(ts[0].elem[0]))
                && #[trigger] apply_terms(residue(y), ts, mods) == residue(x);
        if ts.len() > 0 && ts[0].elem[0] == e {
            assert(ts[0].elem == residue(e));
            if ts[0].plus {
                assert(ts[0] == tp);
                assert(via_plus.contains(x));
            } else {
                assert(ts[0] == tm);
                assert(via_minus.contains(x));
            }
        } else {
            assert(ts.len() > 0 ==> !toadd.contains(ts[0].elem[0]));
            assert(before.contains(x));
        }
    }
    assert(before.union(by_plus).union(by_minus) =~= after);
}

/// The backtracking search behind the restricted and the signed sumsets.
///
/// From the residues of `curr` it takes up to `h` more members of `stat`, one
/// after the other and never a higher one than the one before, adding each
/// or, with `signed`, subtracting it. What it holds counts whenever the
/// number of members taken so far, `hs.1 - h`, is at least `hs.0`.
fn backtrack<B: BitSetContents>(
    stat: B,
    curr: B,
    h: u32,
    hs: (u32, u32),
    n: u32,
    prestrictions: FastSet<B>,
    nrestrictions: FastSet<B>,
    ceiling: u32,
    restricted: bool,
    signed: bool,
) -> (total: B)
    requires
        1 <= n < B::width(),
        forall|x: nat| stat.elems().contains(x) ==> x < n,
        forall|x: nat| curr.elems().contains(x) ==> x < n,
        h <= hs.1,
        hs.0 <= hs.1,
    ensures
        forall|x: nat| total.elems().contains(x) ==> x < n,
        total.elems() == reach(
            curr.elems(),
            stat.elems(),
            h as nat,
            hs.0 as nat,
            (hs.1 - h) as nat,
            ceiling as nat,
            prestrictions@,
            nrestrictions@,
            restricted,
            signed,
            n as nat,
        ),
    decreases h,
{
    let ghost a = stat.elems();
    let ghost lo = hs.0 as nat;
    let ghost depth = (hs.1 - h) as nat;
    let ghost p = prestrictions@;
    let ghost m = nrestrictions@;
    if h == 0 {
        proof {
            lemma_reach_none(
                curr.elems(),
                a,
                lo,
                depth,
                ceiling as nat,
                p,
                m,
                restricted,
                signed,
                n as nat,
            );
        }
        return curr;
    }
    let mut total = B::zero();
    if in_interval(hs.1 - h, hs) {
        total = curr;
    }
    let mut toadd = stat;
    proof {
        stat.lemma_elems_below();
        lemma_reach_start(
            curr.elems(),
            a,
            h as nat,
            lo,
            depth,
            ceiling as nat,
            p,
            m,
            restricted,
            signed,
            n as nat,
        );
    }
    while !toadd.same(B::zero())
        invariant
            1 <= n < B::width(),
            1 <= h <= hs.1,
            hs.0 <= hs.1,
            a == stat.elems(),
            lo == hs.0 as nat,
            depth == (hs.1 - h) as nat,
            p == prestrictions@,
            m == nrestrictions@,
            forall|x: nat| a.contains(x) ==> x < n,
            forall|x: nat| curr.elems().contains(x) ==> x < n,
            forall|x: nat| total.elems().contains(x) ==> x < n,
            toadd.elems().subset_of(a),
            toadd.elems().finite(),
            total.elems() == reach_without(
                curr.elems(),
                a,
                h as nat,
                lo,
                depth,
                ceiling as nat,
                p,
                m,
                restricted,
                signed,
                n as nat,
                toadd.elems(),
            ),
        ensures
            forall|e: nat| toadd.elems().contains(e) ==> e > ceiling,
            forall|x: nat| total.elems().contains(x) ==> x < n,
            total.elems() == reach_without(
                curr.elems(),
                a,
                h as nat,
                lo,
                depth,
                ceiling as nat,
                p,
                m,
                restricted,
                signed,
                n as nat,
                toadd.elems(),
            ),
        decreases toadd.elems().len(),
    {
        let shift = toadd.bit_scan_low();
        proof {
            assert(is_least(toadd.elems(), shift as nat));
        }
        if shift > ceiling {
            break;
        }
        let ghost e = shift as nat;
        let ghost tp = Term { elem: residue(e), plus: true };
        let ghost tm = Term { elem: residue(e), plus: false };
        let ghost before = total.elems();
        proof {
            assert(residue(e)[0] == e);
        }
        if !prestrictions.access(shift) {
            let cycled = cycle(curr, shift, n);
            let mut newprestr = prestrictions;
            if restricted {
                newprestr.add(shift);
            }
            let mut newnrestr = nrestrictions;
            newnrestr.add(shift);
            let rec_call = backtrack(
                stat,
                cycled,
                h - 1,
                hs,
                n,
                newprestr,
                newnrestr,
                shift,
                restricted,
                signed,
            );
            proof {
                lemma_reach_branch(
                    curr.elems(),
                    a,
                    h as nat,
                    lo,
                    depth,
                    ceiling as nat,
                    p,
                    m,
                    restricted,
                    signed,
                    n as nat,
                    e,
                    true,
                );
            }
            total = total.or(rec_call);
        }
        let ghost middle = total.elems();
        if signed && !nrestrictions.access(shift) {
            // Also choose the inverse
            let cycled = cycle_rev(curr, shift, n);
            let mut newprestr = prestrictions;
            newprestr.add(shift);
            let mut newnrestr = nrestrictions;
            if restricted {
                newnrestr.add(shift);
            }
            let rec_call = backtrack(
                stat,
                cycled,
                h - 1,
                hs,
                n,
                newprestr,
                newnrestr,
                shift,
                restricted,
                signed,
            );
            proof {
                lemma_reach_branch(
                    curr.elems(),
                    a,
                    h as nat,
                    lo,
                    depth,
                    ceiling as nat,
                    p,
                    m,
                    restricted,
                    signed,
                    n as nat,
                    e,
                    false,
                );
            }
            total = total.or(rec_call);
        }
        proof {
            lemma_reach_progress(
                curr.elems(),
                a,
                h as nat,
                lo,
                depth,
                ceiling as nat,
                p,
                m,
                restricted,
                signed,
                n as nat,
                toadd.elems(),
                e,
            );
        }
        toadd = toadd.clear_lowest();
    }
    proof {
        lemma_reach_end(
            curr.elems(),
            a,
            h as nat,
            lo,
            depth,
            ceiling as nat,
            p,
            m,
            restricted,
            signed,
            n as nat,
            toadd.elems(),
        );
    }
    total
}

/// What holds of every term of a list that the search can take.
pub open spec fn chain_bounds(ts: Seq<Term>, ceiling: nat, p: Set<nat>, m: Set<nat>) -> bool {
    forall|i: int|
        0 <= i < ts.len() ==> {
            let t = #[trigger] ts[i];
            &&& t.elem[0] <= ceiling
            &&& t.plus ==> !p.contains(t.elem[0])
            &&& !t.plus ==> !m.contains(t.elem[0])
        }
}

/// A list that the search can take counts for the kind of sumset, its
/// residues never rise, and it keeps to the ceiling and to the barred
/// residues.
proof fn lemma_chain_sound(
    ts: Seq<Term>,
    a: Set<nat>,
    ceiling: nat,
    p: Set<nat>,
    m: Set<nat>,
    restricted: bool,
    signed: bool,
)
    requires
        chain_ok(ts, a, ceiling, p, m, restricted, signed),
    ensures
        terms_ok(ts, residues(a), restricted, signed),
        ranked(ts, |e: Seq<nat>| rank1(e), false),
        chain_bounds(ts, ceiling, p, m),
    decreases ts.len(),
{
    let rank = |e: Seq<nat>| rank1(e);
    if ts.len() > 0 {
        let t = ts[0];
        let e = t.elem[0];
        let rest = ts.drop_first();
        let p_next = barred_plus(p, t, restricted);
        let m_next = barred_minus(m, t, restricted);
        lemma_chain_sound(rest, a, e, p_next, m_next, restricted, signed);
        assert forall|i: int| 0 < i < ts.len() implies ts[i] == rest[i - 1] by {}
        let ra = residues(a);
        assert(residue(e)[0] == e);
        assert forall|i: int| 0 <= i < ts.len() implies ra.contains(#[trigger] ts[i].elem) by {
            if i > 0 {
                assert(ra.contains(rest[i - 1].elem));
            }
        }
        if !signed {
            assert forall|i: int| 0 <= i < ts.len() implies (#[trigger] ts[i]).plus by {
                if i > 0 {
                    assert(rest[i - 1].plus);
                }
            }
        }
        assert forall|i: int| 0 <= i < ts.len() implies {
            let u = #[trigger] ts[i];
            &&& u.elem[0] <= ceiling
            &&& u.plus ==> !p.contains(u.elem[0])
            &&& !u.plus ==> !m.contains(u.elem[0])
        } by {
            if i > 0 {
                let u = rest[i - 1];
                assert(u.elem[0] <= e);
                assert(u.plus ==> !p_next.contains(u.elem[0]));
                assert(!u.plus ==> !m_next.contains(u.elem[0]));
            }
        }
        assert forall|i: int, j: int| 0 <= i < j < ts.len() implies rank((#[trigger] ts[j]).elem)
            <= rank((#[trigger] ts[i]).elem) by {
            let u = rest[j - 1];
            assert(u.elem[0] <= e);
            if i > 0 {
                assert(rank(rest[j - 1].elem) <= rank(rest[i - 1].elem));
            }
        }
        assert forall|i: int, j: int|
            0 <= i < ts.len() && 0 <= j < ts.len() && (#[trigger] ts[i]).elem == (
            #[trigger] ts[j]).elem implies ts[i].plus == ts[j].plus by {
            if i > 0 && j > 0 {
                assert(rest[i - 1].elem == rest[j - 1].elem);
            } else if i == 0 && j > 0 {
                let u = rest[j - 1];
                assert(u.plus ==> !p_next.contains(u.elem[0]));
                assert(!u.plus ==> !m_next.contains(u.elem[0]));
            } else if j == 0 && i > 0 {
                let u = rest[i - 1];
                assert(u.plus ==> !p_next.contains(u.elem[0]));
                assert(!u.plus ==> !m_next.contains(u.elem[0]));
            }
        }
        if restricted {
            assert forall|i: int, j: int| 0 <= i < j < ts.len() implies (#[trigger] ts[i]).elem
                != (#[trigger] ts[j]).elem by {
                if i > 0 {
                    assert(rest[i - 1].elem != rest[j - 1].elem);
                } else {
                    let u = rest[j - 1];
                    assert(u.plus ==> !p_next.contains(u.elem[0]));
                    assert(!u.plus ==> !m_next.contains(u.elem[0]));
                }
            }
        }
    }
}

/// A list that counts for the kind of sumset, whose residues never rise and
/// which keeps to the ceiling and to the barred residues, is one that the
/// search can take.
proof fn lemma_chain_complete(
    ts: Seq<Term>,
    a: Set<nat>,
    ceiling: nat,
    p: Set<nat>,
    m: Set<nat>,
    restricted: bool,
    signed: bool,
)
    requires
        terms_ok(ts, residues(a), restricted, signed),
        ranked(ts, |e: Seq<nat>| rank1(e), false),
        chain_bounds(ts, ceiling, p, m),
    ensures
        chain_ok(ts, a, ceiling, p, m, restricted, signed),
    decreases ts.len(),
{
    let rank = |e: Seq<nat>| rank1(e);
    if ts.len() > 0 {
        let t = ts[0];
        let e = t.elem[0];
        let rest = ts.drop_first();
        let p_next = barred_plus(p, t, restricted);
        let m_next = barred_minus(m, t, restricted);
        let ra = residues(a);
        assert forall|i: int| 0 <= i < rest.len() implies rest[i] == ts[i + 1] by {}
        assert(ra.contains(ts[0].elem));
        assert(t.elem =~= residue(e));
        assert(terms_ok(rest, ra, restricted, signed)) by {
            assert forall|i: int| 0 <= i < rest.len() implies ra.contains(
                #[trigger] rest[i].elem,
            ) by {
                assert(ra.contains(ts[i + 1].elem));
            }
            if !signed {
                assert forall|i: int| 0 <= i < rest.len() implies (#[trigger] rest[i]).plus by {
                    assert(ts[i + 1].plus);
                }
            }
            if restricted {
                assert forall|i: int, j: int| 0 <= i < j < rest.len() implies (
                #[trigger] rest[i]).elem != (#[trigger] rest[j]).elem by {
                    assert(ts[i + 1].elem != ts[j + 1].elem);
                }
            }
            assert forall|i: int, j: int|
                0 <= i < rest.len() && 0 <= j < rest.len() && (#[trigger] rest[i]).elem == (
                #[trigger] rest[j]).elem implies rest[i].plus == rest[j].plus by {
                assert(ts[i + 1].elem == ts[j + 1].elem);
            }
        }
        assert(ranked(rest, rank, false)) by {
            assert forall|i: int, j: int| 0 <= i < j < rest.len() implies rank(
                (#[trigger] rest[j]).elem,
            ) <= rank((#[trigger] rest[i]).elem) by {
                assert(rank(ts[j + 1].elem) <= rank(ts[i + 1].elem));
            }
        }
        assert(chain_bounds(rest, e, p_next, m_next)) by {
            assert forall|i: int| 0 <= i < rest.len() implies {
                let u = #[trigger] rest[i];
                &&& u.elem[0] <= e
                &&& u.plus ==> !p_next.contains(u.elem[0])
                &&& !u.plus ==> !m_next.contains(u.elem[0])
            } by {
                let u = ts[i + 1];
                assert(rank(ts[i + 1].elem) <= rank(ts[0].elem));
                assert(u.elem[0] <= ceiling);
                assert(ra.contains(u.elem));
                if u.elem[0] == e {
                    assert(u.elem =~= t.elem);
                    assert(ts[0].elem == ts[i + 1].elem);
                    if restricted {
                        assert(ts[0].elem != ts[i + 1].elem);
                    }
                    assert(ts[0].plus == ts[i + 1].plus);
                }
            }
        }
        lemma_chain_complete(rest, a, e, p_next, m_next, restricted, signed);
        assert(!t.plus ==> signed);
    }
}

/// The set of residues that stands for a union is the union of the sets.
proof fn lemma_residues_union(s: Set<nat>, t: Set<nat>)
    ensures
        residues(s.union(t)) == residues(s).union(residues(t)),
        residues(Set::<nat>::empty()) == Set::<Seq<nat>>::empty(),
        residues(Set::<nat>::empty().insert(0)) == Set::<Seq<nat>>::empty().insert(residue(0)),
        residues(below(1)) == Set::<Seq<nat>>::empty().insert(residue(0)),
{
    assert(residues(s.union(t)) =~= residues(s).union(residues(t)));
    assert(residues(Set::<nat>::empty()) =~= Set::<Seq<nat>>::empty());
    assert forall|e: Seq<nat>| residues(below(1)).contains(e) implies e == residue(0) by {
        assert(e =~= residue(0));
    }
    assert(residue(0)[0] == 0);
    assert(residues(below(1)) =~= Set::<Seq<nat>>::empty().insert(residue(0)));
    assert(residues(Set::<nat>::empty().insert(0)) =~= residues(below(1)));
}

/// Started from the residue 0 with nothing barred and a ceiling above every
/// residue, the search reaches the union of the sumsets of its kind over the
/// interval.
proof fn lemma_reach_is_hfold(
    a: Set<nat>,
    lo: nat,
    hi: nat,
    ceiling: nat,
    restricted: bool,
    signed: bool,
    n: nat,
)
    requires
        n >= 1,
        forall|e: nat| a.contains(e) ==> e < n,
        ceiling >= n,
    ensures
        residues(
            reach(
                below(1),
                a,
                hi,
                lo,
                0,
                ceiling,
                Set::<nat>::empty(),
                Set::<nat>::empty(),
                restricted,
                signed,
                n,
            ),
        ) == hfold_interval(residues(a), lo, hi, cyclic(n), restricted, signed),
{
    let none = Set::<nat>::empty();
    let got = residues(reach(below(1), a, hi, lo, 0, ceiling, none, none, restricted, signed, n));
    let ra = residues(a);
    let mods = cyclic(n);
    let want = hfold_interval(ra, lo, hi, mods, restricted, signed);
    let rank = |e: Seq<nat>| rank1(e);
    lemma_residue_add(0, 0, n);
    assert forall|x: Seq<nat>| got.contains(x) implies want.contains(x) by {
        let (y, ts) = choose|y: nat, ts: Seq<Term>|
            below(1).contains(y) && ts.len() <= hi && lo <= 0 + ts.len() && chain_ok(
                ts,
                a,
                ceiling,
                none,
                none,
                restricted,
                signed,
            ) && #[trigger] apply_terms(residue(y), ts, mods) == residue(x[0]);
        lemma_chain_sound(ts, a, ceiling, none, none, restricted, signed);
        assert(x =~= residue(x[0]));
        assert(sum_terms(ts, mods) == x);
        assert(hfold(ra, ts.len(), mods, restricted, signed).contains(x));
    }
    assert forall|x: Seq<nat>| want.contains(x) implies got.contains(x) by {
        let h = choose|h: nat| lo <= h && h <= hi && hfold(ra, h, mods, restricted, signed).contains(x);
        let ts = choose|ts: Seq<Term>|
            ts.len() == h && terms_ok(ts, ra, restricted, signed) && sum_terms(ts, mods) == x;
        assert forall|e: Seq<nat>| ra.contains(e) implies is_elem(e, mods) by {}
        assert forall|e: Seq<nat>, f: Seq<nat>|
            ra.contains(e) && ra.contains(f) && #[trigger] rank(e) == #[trigger] rank(f) implies e
            == f by {
            assert(e =~= f);
        }
        lemma_sort_terms(ts, rank, ra, mods, restricted, signed);
        let c = sort_terms(ts, rank);
        assert(ranked(c, rank, false)) by {
            assert forall|i: int, j: int| 0 <= i < j < c.len() implies rank(
                (#[trigger] c[j]).elem,
            ) <= rank((#[trigger] c[i]).elem) by {}
        }
        assert(chain_bounds(c, ceiling, none, none)) by {
            assert forall|i: int| 0 <= i < c.len() implies {
                let t = #[trigger] c[i];
                &&& t.elem[0] <= ceiling
                &&& t.plus ==> !none.contains(t.elem[0])
                &&& !t.plus ==> !none.contains(t.elem[0])
            } by {
                assert(ra.contains(c[i].elem));
            }
        }
        lemma_chain_complete(c, a, ceiling, none, none, restricted, signed);
        lemma_apply_is_elem(zero_elem(mods), c, mods);
        lemma_residue_of(x, n);
        assert(below(1).contains(0));
        assert(apply_terms(residue(0), c, mods) == residue(x[0]));
        assert(reach(
            below(1),
            a,
            hi,
            lo,
            0,
            ceiling,
            none,
            none,
            restricted,
            signed,
            n,
        ).contains(x[0]));
    }
    assert(got =~= want);
}

/// The sums of `h` more distinct members of `stat`, none above `ceiling` nor
/// in `restrictions`, added to the residues of `curr`.
fn _hfrs<B: BitSetContents>(
    stat: B,
    curr: B,
    h: u32,
    n: u32,
    restrictions: FastSet<B>,
    ceiling: u32,
) -> (r: B)
    requires
        1 <= n < B::width(),
        forall|x: nat| stat.elems().contains(x) ==> x < n,
        forall|x: nat| curr.elems().contains(x) ==> x < n,
    ensures
        forall|x: nat| r.elems().contains(x) ==> x < n,
        r.elems() == reach(
            curr.elems(),
            stat.elems(),
            h as nat,
            h as nat,
            0,
            ceiling as nat,
            restrictions@,
            restrictions@,
            true,
            false,
            n as nat,
        ),
{
    backtrack(stat, curr, h, (h, h), n, restrictions, restrictions, ceiling, true, false)
}

/// As `_hfrs`, for every number of members from `hs.0` to `hs.1`, of which
/// `hs.1 - h` are taken already.
fn _hfirs<B: BitSetContents>(
    stat: B,
    curr: B,
    h: u32,
    hs: (u32, u32),
    n: u32,
    restrictions: FastSet<B>,
    ceiling: u32,
) -> (r: B)
    requires
        1 <= n < B::width(),
        forall|x: nat| stat.elems().contains(x) ==> x < n,
        forall|x: nat| curr.elems().contains(x) ==> x < n,
        h <= hs.1,
        hs.0 <= hs.1,
    ensures
        forall|x: nat| r.elems().contains(x) ==> x < n,
        r.elems() == reach(
            curr.elems(),
            stat.elems(),
            h as nat,
            hs.0 as nat,
            (hs.1 - h) as nat,
            ceiling as nat,
            restrictions@,
            restrictions@,
            true,
            false,
            n as nat,
        ),
{
    backtrack(stat, curr, h, hs, n, restrictions, restrictions, ceiling, true, false)
}

/// The sums of `h` more members of `stat`, none above `ceiling`, each added
/// unless it is in `prestrictions` or subtracted unless it is in
/// `nrestrictions`, and none both, added to the residues of `curr`.
fn _hfss<B: BitSetContents>(
    stat: B,
    curr: B,
    h: u32,
    n: u32,
    prestrictions: FastSet<B>,
    nrestrictions: FastSet<B>,
    ceiling: u32,
) -> (r: B)
    requires
        1 <= n < B::width(),
        forall|x: nat| stat.elems().contains(x) ==> x < n,
        forall|x: nat| curr.elems().contains(x) ==> x < n,
    ensures
        forall|x: nat| r.elems().contains(x) ==> x < n,
        r.elems() == reach(
            curr.elems(),
            stat.elems(),
            h as nat,
            h as nat,
            0,
            ceiling as nat,
            prestrictions@,
            nrestrictions@,
            false,
            true,
            n as nat,
        ),
{
    backtrack(stat, curr, h, (h, h), n, prestrictions, nrestrictions, ceiling, false, true)
}

/// As `_hfss`, for every number of members from `hs.0` to `hs.1`, of which
/// `hs.1 - h` are taken already.
fn _hfiss<B: BitSetContents>(
    stat: B,
    curr: B,
    h: u32,
    hs: (u32, u32),
    n: u32,
    prestrictions: FastSet<B>,
    nrestrictions: FastSet<B>,
    ceiling: u32,
) -> (r: B)
    requires
        1 <= n < B::width(),
        forall|x: nat| stat.elems().contains(x) ==> x < n,
        forall|x: nat| curr.elems().contains(x) ==> x < n,
        h <= hs.1,
        hs.0 <= hs.1,
    ensures
        forall|x: nat| r.elems().contains(x) ==> x < n,
        r.elems() == reach(
            curr.elems(),
            stat.elems(),
            h as nat,
            hs.0 as nat,
            (hs.1 - h) as nat,
            ceiling as nat,
            prestrictions@,
            nrestrictions@,
            false,
            true,
            n as nat,
        ),
{
    backtrack(stat, curr, h, hs, n, prestrictions, nrestrictions, ceiling, false, true)
}

/// The sums of `h` more distinct members of `stat`, none above `ceiling` nor
/// in `restrictions`, each added or subtracted, added to the residues of
/// `curr`.
fn _hfrss<B: BitSetContents>(
    stat: B,
    curr: B,
    h: u32,
    n: u32,
    restrictions: FastSet<B>,
    ceiling: u32,
) -> (r: B)
    requires
        1 <= n < B::width(),
        forall|x: nat| stat.elems().contains(x) ==> x < n,
        forall|x: nat| curr.elems().contains(x) ==> x < n,
    ensures
        forall|x: nat| r.elems().contains(x) ==> x < n,
        r.elems() == reach(
            curr.elems(),
            stat.elems(),
            h as nat,
            h as nat,
            0,
            ceiling as nat,
            restrictions@,
            restrictions@,
            true,
            true,
            n as nat,
        ),
{
    backtrack(stat, curr, h, (h, h), n, restrictions, restrictions, ceiling, true, true)
}

/// As `_hfrss`, for every number of members from `hs.0` to `hs.1`, of which
/// `hs.1 - h` are taken already.
fn _hfirss<B: BitSetContents>(
    stat: B,
    curr: B,
    h: u32,
    hs: (u32, u32),
    n: u32,
    restrictions: FastSet<B>,
    ceiling: u32,
) -> (r: B)
    requires
        1 <= n < B::width(),
        forall|x: nat| stat.elems().contains(x) ==> x < n,
        forall|x: nat| curr.elems().contains(x) ==> x < n,
        h <= hs.1,
        hs.0 <= hs.1,
    ensures
        forall|x: nat| r.elems().contains(x) ==> x < n,
        r.elems() == reach(
            curr.elems(),
            stat.elems(),
            h as nat,
            hs.0 as nat,
            (hs.1 - h) as nat,
            ceiling as nat,
            restrictions@,
            restrictions@,
            true,
            true,
            n as nat,
        ),
{
    backtrack(stat, curr, h, hs, n, restrictions, restrictions, ceiling, true, true)
}

impl<B: BitSetContents> HFolds for FastSet<B> {
    type Element = u32;

    type Group = u32;

    open spec fn model(&self) -> Set<Seq<nat>> {
        residues(self@)
    }

    open spec fn supports(g: &u32) -> bool {
        *g < B::width()
    }

    open spec fn fits(&self, g: &u32) -> bool {
        forall|x: nat| self@.contains(x) ==> x < *g
    }

    open spec fn valid(&self) -> bool {
        true
    }

    open spec fn elem_ok(i: &u32) -> bool {
        *i < B::width()
    }

    proof fn lemma_fits(&self, g: &u32) {
        self.contents.lemma_elems_below();
        lemma_residues_subset(self@, *g as nat);
    }

    proof fn lemma_supports(g: &u32, i: &u32) {
        assert(residue(*i as nat)[0] == *i);
    }

    fn can_hold(g: &u32) -> (r: bool) {
        *g < B::bit_size()
    }

    fn is_subset_of(&self, g: &u32) -> (r: bool) {
        let mask = B::low_mask(*g);
        let rest = mask.not();
        let outside = self.contents.and(rest);
        proof {
            self.contents.lemma_elems_below();
            assert forall|x: nat| outside.elems().contains(x) == (self@.contains(x) && x >= *g) by {
                assert(rest.elems().contains(x) == (x < B::width() && !mask.elems().contains(x)));
            }
            if self.fits(g) {
                assert(outside.elems() =~= Set::<nat>::empty());
            }
            if outside.elems() == Set::<nat>::empty() {
                assert forall|x: nat| self@.contains(x) implies x < *g by {
                    if x >= *g {
                        assert(outside.elems().contains(x));
                    }
                }
            }
        }
        outside.same(B::zero())
    }

    #[inline]
    fn hfold_sumset(&self, h: u32, n: &u32) -> (r: FastSet<B>) {
        let n = *n;
        let ghost ra = residues(self@);
        let ghost mods = cyclic(n as nat);
        proof {
            B::lemma_width();
            lemma_hfold_zero(ra, mods, false, false);
            lemma_residues_union(self@, self@);
            lemma_residue_add(0, 0, n as nat);
        }
        if h == 0 {
            return singleton(0);
        }
        let mut prev = B::one();
        let mut i: u32 = 0;
        while i < h
            invariant
                i <= h,
                1 <= n < B::width(),
                ra == residues(self@),
                mods == cyclic(n as nat),
                forall|x: nat| self@.contains(x) ==> x < n,
                forall|x: nat| prev.elems().contains(x) ==> x < n,
                residues(prev.elems()) == hfold(ra, i as nat, mods, false, false),
            decreases h - i,
        {
            let res = fold_once(self.contents, prev, n);
            proof {
                lemma_sumset_step(self@, prev.elems(), i as nat, n as nat);
            }
            prev = res;
            i += 1;
        }
        FastSet { contents: prev }
    }

    #[inline]
    fn hfold_interval_sumset(&self, hs: (u32, u32), n: &u32) -> (r: FastSet<B>) {
        let n = *n;
        let (h1, h2) = hs;
        let ghost ra = residues(self@);
        let ghost mods = cyclic(n as nat);
        proof {
            B::lemma_width();
            lemma_hfold_zero(ra, mods, false, false);
            lemma_residues_union(self@, self@);
            lemma_residue_add(0, 0, n as nat);
        }
        let mut final_res = B::zero();
        let mut prev = B::one();
        let mut i: u32 = 0;
        proof {
            assert(hfold_upto(ra, h1 as nat, 0, mods, false, false) =~= Set::<Seq<nat>>::empty());
        }
        loop
            invariant_except_break
                residues(final_res.elems()) == hfold_upto(ra, h1 as nat, i as nat, mods, false, false),
            invariant
                i <= h2,
                h1 == hs.0,
                h2 == hs.1,
                1 <= n < B::width(),
                ra == residues(self@),
                mods == cyclic(n as nat),
                forall|x: nat| self@.contains(x) ==> x < n,
                forall|x: nat| prev.elems().contains(x) ==> x < n,
                forall|x: nat| final_res.elems().contains(x) ==> x < n,
                residues(prev.elems()) == hfold(ra, i as nat, mods, false, false),
            ensures
                forall|x: nat| final_res.elems().contains(x) ==> x < n,
                residues(final_res.elems()) == hfold_upto(
                    ra,
                    h1 as nat,
                    (h2 + 1) as nat,
                    mods,
                    false,
                    false,
                ),
            decreases h2 - i,
        {
            let ghost before = final_res.elems();
            if in_interval(i, (h1, h2)) {
                final_res = final_res.or(prev);
            }
            proof {
                let now = hfold_upto(ra, h1 as nat, (i + 1) as nat, mods, false, false);
                let was = hfold_upto(ra, h1 as nat, i as nat, mods, false, false);
                let cur = hfold(ra, i as nat, mods, false, false);
                lemma_residues_union(before, prev.elems());
                assert forall|x: Seq<nat>| now.contains(x) implies was.contains(x) || (h1 <= i
                    && cur.contains(x)) by {
                    let h = choose|h: nat|
                        h1 as nat <= h && h < (i + 1) as nat && hfold(
                            ra,
                            h,
                            mods,
                            false,
                            false,
                        ).contains(x);
                    if h < i {
                        assert(was.contains(x));
                    }
                }
                assert forall|x: Seq<nat>| was.contains(x) implies now.contains(x) by {
                    let h = choose|h: nat|
                        h1 as nat <= h && h < i as nat && hfold(ra, h, mods, false, false).contains(x);
                    assert(h1 as nat <= h && h < (i + 1) as nat);
                }
                assert(residues(final_res.elems()) =~= now);
            }
            if i == h2 {
                break;
            }
            let res = fold_once(self.contents, prev, n);
            proof {
                lemma_sumset_step(self@, prev.elems(), i as nat, n as nat);
            }
            prev = res;
            i += 1;
        }
        proof {
            assert(hfold_upto(ra, h1 as nat, (h2 + 1) as nat, mods, false, false) =~= hfold_interval(
                ra,
                h1 as nat,
                h2 as nat,
                mods,
                false,
                false,
            ));
        }
        FastSet { contents: final_res }
    }

    #[inline]
    fn hfold_restricted_sumset(&self, h: u32, n: &u32) -> (r: FastSet<B>) {
        let n = *n;
        proof {
            B::lemma_width();
            self.contents.lemma_elems_below();
            lemma_residues_union(self@, self@);
            lemma_residue_add(0, 0, n as nat);
            lemma_residues_len(self@);
            lemma_hfold_zero(residues(self@), cyclic(n as nat), true, false);
            lemma_interval_single(residues(self@), h as nat, cyclic(n as nat), true, false);
        }
        if h > self.size() {
            proof {
                lemma_restricted_beyond_size(residues(self@), h as nat, cyclic(n as nat), false);
            }
            return empty_set();
        }
        if h == 0 {
            return singleton(0);
        }
        let r = FastSet { contents: _hfrs(self.contents, B::one(), h, n, empty_set(), n + 1) };
        proof {
            lemma_reach_is_hfold(self@, h as nat, h as nat, (n + 1) as nat, true, false, n as nat);
        }
        r
    }

    #[inline]
    fn hfold_interval_restricted_sumset(&self, hs: (u32, u32), n: &u32) -> (r: FastSet<B>) {
        let n = *n;
        proof {
            B::lemma_width();
            lemma_residues_union(self@, self@);
        }
        if hs.0 > hs.1 {
            proof {
                lemma_interval_empty(
                    residues(self@),
                    hs.0 as nat,
                    hs.1 as nat,
                    cyclic(n as nat),
                    true,
                    false,
                );
            }
            return empty_set();
        }
        let r = FastSet {
            contents: _hfirs(self.contents, B::one(), hs.1, hs, n, empty_set(), n + 1),
        };
        proof {
            lemma_reach_is_hfold(
                self@,
                hs.0 as nat,
                hs.1 as nat,
                (n + 1) as nat,
                true,
                false,
                n as nat,
            );
        }
        r
    }

    #[inline]
    fn hfold_signed_sumset(&self, h: u32, n: &u32) -> (r: FastSet<B>) {
        let n = *n;
        proof {
            B::lemma_width();
            lemma_residues_union(self@, self@);
            lemma_residue_add(0, 0, n as nat);
            lemma_hfold_zero(residues(self@), cyclic(n as nat), false, true);
            lemma_interval_single(residues(self@), h as nat, cyclic(n as nat), false, true);
        }
        if h == 0 {
            return singleton(0);
        }
        let r = FastSet {
            contents: _hfss(self.contents, B::one(), h, n, empty_set(), empty_set(), n + 1),
        };
        proof {
            lemma_reach_is_hfold(self@, h as nat, h as nat, (n + 1) as nat, false, true, n as nat);
        }
        r
    }

    #[inline]
    fn hfold_interval_signed_sumset(&self, hs: (u32, u32), n: &u32) -> (r: FastSet<B>) {
        let n = *n;
        proof {
            B::lemma_width();
            lemma_residues_union(self@, self@);
        }
        if hs.0 > hs.1 {
            proof {
                lemma_interval_empty(
                    residues(self@),
                    hs.0 as nat,
                    hs.1 as nat,
                    cyclic(n as nat),
                    false,
                    true,
                );
            }
            return empty_set();
        }
        let r = FastSet {
            contents: _hfiss(
                self.contents,
                B::one(),
                hs.1,
                hs,
                n,
                empty_set(),
                empty_set(),
                n + 1,
            ),
        };
        proof {
            lemma_reach_is_hfold(
                self@,
                hs.0 as nat,
                hs.1 as nat,
                (n + 1) as nat,
                false,
                true,
                n as nat,
            );
        }
        r
    }

    #[inline]
    fn hfold_restricted_signed_sumset(&self, h: u32, n: &u32) -> (r: FastSet<B>) {
        let n = *n;
        proof {
            B::lemma_width();
            self.contents.lemma_elems_below();
            lemma_residues_union(self@, self@);
            lemma_residue_add(0, 0, n as nat);
            lemma_residues_len(self@);
            lemma_hfold_zero(residues(self@), cyclic(n as nat), true, true);
            lemma_interval_single(residues(self@), h as nat, cyclic(n as nat), true, true);
        }
        if h > self.size() {
            proof {
                lemma_restricted_beyond_size(residues(self@), h as nat, cyclic(n as nat), true);
            }
            return empty_set();
        }
        if h == 0 {
            return singleton(0);
        }
        let r = FastSet { contents: _hfrss(self.contents, B::one(), h, n, empty_set(), n + 1) };
        proof {
            lemma_reach_is_hfold(self@, h as nat, h as nat, (n + 1) as nat, true, true, n as nat);
        }
        r
    }

    #[inline]
    fn hfold_interval_restricted_signed_sumset(&self, hs: (u32, u32), n: &u32) -> (r: FastSet<B>) {
        let n = *n;
        proof {
            B::lemma_width();
            lemma_residues_union(self@, self@);
        }
        if hs.0 > hs.1 {
            proof {
                lemma_interval_empty(
                    residues(self@),
                    hs.0 as nat,
                    hs.1 as nat,
                    cyclic(n as nat),
                    true,
                    true,
                );
            }
            return empty_set();
        }
        let r = FastSet {
            contents: _hfirss(self.contents, B::one(), hs.1, hs, n, empty_set(), n + 1),
        };
        proof {
            lemma_reach_is_hfold(
                self@,
                hs.0 as nat,
                hs.1 as nat,
                (n + 1) as nat,
                true,
                true,
                n as nat,
            );
        }
        r
    }
}

} // verus!
