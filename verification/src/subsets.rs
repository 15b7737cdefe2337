//! The subsets of a given size of an initial segment of the naturals, in the
//! order in which the packed enumerator visits them.

use crate::bitword::lemma_count_below;
use vstd::prelude::*;

verus! {

/// The naturals from `lo` up to, not including, `hi`.
pub open spec fn span(lo: nat, hi: nat) -> Set<nat> {
    Set::new(|i: nat| lo <= i && i < hi)
}

/// `s` has `k` members, all of them from `lo` up to, not including, `n`.
pub open spec fn is_subset_of_size(s: Set<nat>, lo: nat, n: nat, k: nat) -> bool {
    &&& s.finite()
    &&& s.len() == k
    &&& forall|x: nat| s.contains(x) ==> lo <= x && x < n
}

/// The number of `k`-member subsets of an `n`-member set.
pub open spec fn binomial(n: nat, k: nat) -> nat
    decreases n,
{
    if k == 0 {
        1
    } else if n == 0 {
        0
    } else {
        binomial((n - 1) as nat, (k - 1) as nat) + binomial((n - 1) as nat, k)
    }
}

/// Each set of `l` with `lo` put in.
pub open spec fn with_member(l: Seq<Set<nat>>, lo: nat) -> Seq<Set<nat>> {
    Seq::new(l.len(), |j: int| l[j].insert(lo))
}

/// The `k`-member subsets of `lo..n`: first those that hold `lo`, then those
/// that do not, each part in the same order again.
pub open spec fn subsets_from(lo: nat, n: nat, k: nat) -> Seq<Set<nat>>
    decreases n - lo,
{
    if k == 0 {
        seq![Set::<nat>::empty()]
    } else if lo + k > n {
        Seq::<Set<nat>>::empty()
    } else {
        with_member(subsets_from(lo + 1, n, (k - 1) as nat), lo) + subsets_from(lo + 1, n, k)
    }
}

/// The `k`-member subsets of the naturals below `n`, `{0, .., k-1}` first.
pub open spec fn subsets_of_size(n: nat, k: nat) -> Seq<Set<nat>> {
    subsets_from(0, n, k)
}

/// `span(lo, hi)` has `hi - lo` members.
pub proof fn lemma_span_len(lo: nat, hi: nat)
    requires
        lo <= hi,
    ensures
        span(lo, hi).finite(),
        span(lo, hi).len() == hi - lo,
    decreases hi - lo,
{
    if lo == hi {
        assert(span(lo, hi) =~= Set::<nat>::empty());
    } else {
        lemma_span_len(lo, (hi - 1) as nat);
        assert(span(lo, hi) =~= span(lo, (hi - 1) as nat).insert((hi - 1) as nat));
    }
}

/// A finite set within `lo..n` has at most `n - lo` members.
pub proof fn lemma_subset_of_span(s: Set<nat>, lo: nat, n: nat)
    requires
        forall|x: nat| s.contains(x) ==> lo <= x && x < n,
    ensures
        s.finite(),
        lo <= n ==> s.len() <= n - lo,
        lo > n ==> s.len() == 0,
{
    lemma_count_below(s, n);
    if lo <= n {
        lemma_span_len(lo, n);
        assert(s.subset_of(span(lo, n)));
        vstd::set_lib::lemma_len_subset(s, span(lo, n));
    } else {
        assert(s =~= Set::<nat>::empty());
    }
}

/// Every entry of `subsets_from(lo, n, k)` is a `k`-member subset of `lo..n`,
/// and there are `binomial(n - lo, k)` entries.
pub proof fn lemma_subsets_shape(lo: nat, n: nat, k: nat)
    requires
        lo <= n,
    ensures
        subsets_from(lo, n, k).len() == binomial((n - lo) as nat, k),
        forall|j: int|
            0 <= j < subsets_from(lo, n, k).len() ==> is_subset_of_size(
                #[trigger] subsets_from(lo, n, k)[j],
                lo,
                n,
                k,
            ),
    decreases n - lo,
{
    let l = subsets_from(lo, n, k);
    if k == 0 {
    } else if lo + k > n {
        lemma_binomial_zero((n - lo) as nat, k);
    } else {
        let a0 = subsets_from(lo + 1, n, (k - 1) as nat);
        let a = with_member(a0, lo);
        let b = subsets_from(lo + 1, n, k);
        lemma_subsets_shape(lo + 1, n, (k - 1) as nat);
        lemma_subsets_shape(lo + 1, n, k);
        assert forall|j: int| 0 <= j < l.len() implies is_subset_of_size(#[trigger] l[j], lo, n, k) by {
            if j < a.len() {
                assert(is_subset_of_size(a0[j], lo + 1, n, (k - 1) as nat));
                assert(l[j] == a0[j].insert(lo));
            } else {
                assert(l[j] == b[j - a.len()]);
                assert(is_subset_of_size(b[j - a.len()], lo + 1, n, k));
            }
        }
    }
}

/// There is no way to pick more members than there are.
pub proof fn lemma_binomial_zero(n: nat, k: nat)
    requires
        n < k,
    ensures
        binomial(n, k) == 0,
    decreases n,
{
    if n > 0 {
        lemma_binomial_zero((n - 1) as nat, (k - 1) as nat);
        lemma_binomial_zero((n - 1) as nat, k);
    }
}

/// Every `k`-member subset of `lo..n` is an entry of `subsets_from(lo, n, k)`.
pub proof fn lemma_subsets_complete(lo: nat, n: nat, k: nat, s: Set<nat>) -> (j: int)
    requires
        lo <= n,
        is_subset_of_size(s, lo, n, k),
    ensures
        0 <= j < subsets_from(lo, n, k).len(),
        subsets_from(lo, n, k)[j] == s,
    decreases n - lo,
{
    let l = subsets_from(lo, n, k);
    if k == 0 {
        assert(s =~= Set::<nat>::empty());
        0
    } else {
        lemma_subset_of_span(s, lo, n);
        let a0 = subsets_from(lo + 1, n, (k - 1) as nat);
        let a = with_member(a0, lo);
        let b = subsets_from(lo + 1, n, k);
        if s.contains(lo) {
            let t = s.remove(lo);
            let j = lemma_subsets_complete(lo + 1, n, (k - 1) as nat, t);
            assert(l[j] == a0[j].insert(lo));
            assert(t.insert(lo) =~= s);
            j
        } else {
            assert forall|x: nat| s.contains(x) implies lo + 1 <= x && x < n by {
                assert(x != lo);
            }
            let j = lemma_subsets_complete(lo + 1, n, k, s);
            assert(l[a.len() + j] == b[j]);
            a.len() + j
        }
    }
}

/// No two entries of `subsets_from(lo, n, k)` are the same set.
pub proof fn lemma_subsets_distinct(lo: nat, n: nat, k: nat, i: int, j: int)
    requires
        lo <= n,
        0 <= i < j < subsets_from(lo, n, k).len(),
    ensures
        subsets_from(lo, n, k)[i] != subsets_from(lo, n, k)[j],
    decreases n - lo,
{
    let l = subsets_from(lo, n, k);
    if k == 0 {
    } else if lo + k > n {
    } else {
        let a0 = subsets_from(lo + 1, n, (k - 1) as nat);
        let a = with_member(a0, lo);
        let b = subsets_from(lo + 1, n, k);
        lemma_subsets_shape(lo + 1, n, (k - 1) as nat);
        lemma_subsets_shape(lo + 1, n, k);
        if j < a.len() {
            lemma_subsets_distinct(lo + 1, n, (k - 1) as nat, i, j);
            assert(is_subset_of_size(a0[i], lo + 1, n, (k - 1) as nat));
            assert(is_subset_of_size(a0[j], lo + 1, n, (k - 1) as nat));
            assert(l[i] == a0[i].insert(lo));
            assert(l[j] == a0[j].insert(lo));
            if l[i] == l[j] {
                assert(a0[i] =~= l[i].remove(lo));
                assert(a0[j] =~= l[j].remove(lo));
            }
        } else if i >= a.len() {
            lemma_subsets_distinct(lo + 1, n, k, i - a.len(), j - a.len());
            assert(l[i] == b[i - a.len()]);
            assert(l[j] == b[j - a.len()]);
        } else {
            assert(l[i] == a0[i].insert(lo));
            assert(l[i].contains(lo));
            assert(l[j] == b[j - a.len()]);
            assert(is_subset_of_size(b[j - a.len()], lo + 1, n, k));
            assert(!l[j].contains(lo));
        }
    }
}


/// `p` is a member of `s` that can move one step up: `p + 1` is free and
/// still below `n`.
pub open spec fn movable(s: Set<nat>, n: nat, p: nat) -> bool {
    s.contains(p) && !s.contains(p + 1) && p + 1 < n
}

/// `p` is the greatest member of `s` that can move one step up.
pub open spec fn is_pivot(s: Set<nat>, n: nat, p: nat) -> bool {
    movable(s, n, p) && forall|q: nat| movable(s, n, q) ==> q <= p
}

/// The members of `s` above `p`.
pub open spec fn above(s: Set<nat>, p: nat) -> Set<nat> {
    s.filter(|x: nat| x > p)
}

/// `s` with its member `p` moved one step up and the members above `p`
/// packed directly behind it.
pub open spec fn advance(s: Set<nat>, p: nat) -> Set<nat> {
    Set::new(
        |x: nat| (x < p && s.contains(x)) || (p + 1 <= x && x <= p + 1 + above(s, p).len()),
    )
}

/// The first entry of `subsets_from(lo, n, k)` is `lo..lo+k`, the last one
/// is `n-k..n`.
pub proof fn lemma_subsets_ends(lo: nat, n: nat, k: nat)
    requires
        lo + k <= n,
    ensures
        subsets_from(lo, n, k).len() >= 1,
        subsets_from(lo, n, k)[0] == span(lo, lo + k),
        subsets_from(lo, n, k).last() == span((n - k) as nat, n),
    decreases n - lo,
{
    let l = subsets_from(lo, n, k);
    if k == 0 {
        assert(span(lo, lo) =~= Set::<nat>::empty());
        assert(span(n, n) =~= Set::<nat>::empty());
    } else {
        let a0 = subsets_from(lo + 1, n, (k - 1) as nat);
        let a = with_member(a0, lo);
        let b = subsets_from(lo + 1, n, k);
        lemma_subsets_ends(lo + 1, n, (k - 1) as nat);
        assert(l[0] == a0[0].insert(lo));
        assert(span(lo + 1, lo + k).insert(lo) =~= span(lo, lo + k));
        if lo + k < n {
            lemma_subsets_ends(lo + 1, n, k);
            assert(l.last() == b.last());
        } else {
            assert(b.len() == 0);
            assert(l.last() == a0.last().insert(lo));
            assert(span((n - (k - 1)) as nat, n).insert(lo) =~= span((n - k) as nat, n));
        }
    }
}

/// Putting a member below `p` into `s` does not change what lies above `p`.
proof fn lemma_above_insert(s: Set<nat>, lo: nat, p: nat)
    requires
        lo < p,
    ensures
        above(s.insert(lo), p) == above(s, p),
{
    assert(above(s.insert(lo), p) =~= above(s, p));
}

/// What lies above the least member of a top block `{lo} + (n-k+1..n)`.
proof fn lemma_above_block(lo: nat, n: nat, k: nat)
    requires
        k >= 1,
        lo + k < n,
    ensures
        above(span((n - (k - 1)) as nat, n).insert(lo), lo).len() == k - 1,
{
    let top = span((n - (k - 1)) as nat, n);
    lemma_span_len((n - (k - 1)) as nat, n);
    assert(above(top.insert(lo), lo) =~= top);
}

/// Each entry of `subsets_from(lo, n, k)` but the last has a pivot, and moving
/// the pivot gives the next entry; the last entry has no member that can move.
pub proof fn lemma_subsets_step(lo: nat, n: nat, k: nat, j: int) -> (p: nat)
    requires
        lo <= n,
        0 <= j < subsets_from(lo, n, k).len(),
    ensures
        j + 1 < subsets_from(lo, n, k).len() ==> is_pivot(subsets_from(lo, n, k)[j], n, p)
            && advance(subsets_from(lo, n, k)[j], p) == subsets_from(lo, n, k)[j + 1],
        j + 1 == subsets_from(lo, n, k).len() ==> forall|q: nat|
            !movable(subsets_from(lo, n, k)[j], n, q),
    decreases n - lo,
{
    let l = subsets_from(lo, n, k);
    if k == 0 {
        0
    } else {
        let a0 = subsets_from(lo + 1, n, (k - 1) as nat);
        let a = with_member(a0, lo);
        let b = subsets_from(lo + 1, n, k);
        lemma_subsets_shape(lo + 1, n, (k - 1) as nat);
        lemma_subsets_shape(lo + 1, n, k);
        lemma_subsets_ends(lo + 1, n, (k - 1) as nat);
        if j + 1 < a.len() {
            let p = lemma_subsets_step(lo + 1, n, (k - 1) as nat, j);
            let s0 = a0[j];
            let s = l[j];
            assert(is_subset_of_size(s0, lo + 1, n, (k - 1) as nat));
            assert(s == s0.insert(lo));
            assert(l[j + 1] == a0[j + 1].insert(lo));
            assert(movable(s0, n, p));
            assert(p >= lo + 1);
            assert(movable(s, n, p));
            assert forall|q: nat| movable(s, n, q) implies q <= p by {
                if q != lo {
                    assert(movable(s0, n, q));
                }
            }
            lemma_above_insert(s0, lo, p);
            assert(advance(s, p) =~= advance(s0, p).insert(lo));
            p
        } else if j + 1 == a.len() {
            let s = l[j];
            assert(s == a0[j].insert(lo));
            assert(a0[j] == a0.last());
            let top = span((n - (k - 1)) as nat, n);
            assert(s == top.insert(lo));
            if lo + k < n {
                lemma_subsets_ends(lo + 1, n, k);
                assert(l[j + 1] == b[0]);
                assert(movable(s, n, lo));
                assert forall|q: nat| movable(s, n, q) implies q <= lo by {
                    if q > lo {
                        assert(top.contains(q));
                        if q + 1 < n {
                            assert(top.contains(q + 1));
                        }
                    }
                }
                lemma_above_block(lo, n, k);
                assert(advance(s, lo) =~= span(lo + 1, lo + 1 + k));
                lo
            } else {
                assert(b.len() == 0);
                assert forall|q: nat| !movable(s, n, q) by {
                    if s.contains(q) && q + 1 < n {
                        assert(top.contains(q + 1));
                    }
                }
                lo
            }
        } else {
            let p = lemma_subsets_step(lo + 1, n, k, j - a.len());
            assert(l[j] == b[j - a.len()]);
            if j + 1 < l.len() {
                assert(l[j + 1] == b[j + 1 - a.len()]);
            }
            p
        }
    }
}


/// The members of `s`, each one step up.
pub open spec fn step_up(s: Set<nat>) -> Set<nat> {
    Set::new(|x: nat| x >= 1 && s.contains((x - 1) as nat))
}

/// Each set of `l` moved one step up.
pub open spec fn all_step_up(l: Seq<Set<nat>>) -> Seq<Set<nat>> {
    Seq::new(l.len(), |j: int| step_up(l[j]))
}

/// The subsets of `lo+1..n+1` are those of `lo..n`, each moved one step up,
/// in the same order.
pub proof fn lemma_subsets_step_up(lo: nat, n: nat, k: nat)
    requires
        lo <= n,
    ensures
        subsets_from(lo + 1, n + 1, k) == all_step_up(subsets_from(lo, n, k)),
    decreases n - lo,
{
    let l = subsets_from(lo, n, k);
    let u = subsets_from(lo + 1, n + 1, k);
    if k == 0 {
        assert(step_up(Set::<nat>::empty()) =~= Set::<nat>::empty());
        assert(u =~= all_step_up(l));
    } else if lo + k > n {
        assert(u =~= all_step_up(l));
    } else {
        let a0 = subsets_from(lo + 1, n, (k - 1) as nat);
        let b = subsets_from(lo + 1, n, k);
        let ua0 = subsets_from(lo + 2, n + 1, (k - 1) as nat);
        let ub = subsets_from(lo + 2, n + 1, k);
        lemma_subsets_step_up(lo + 1, n, (k - 1) as nat);
        lemma_subsets_step_up(lo + 1, n, k);
        assert(u == with_member(ua0, lo + 1) + ub);
        assert forall|j: int| 0 <= j < u.len() implies u[j] == all_step_up(l)[j] by {
            if j < a0.len() {
                assert(u[j] == ua0[j].insert(lo + 1));
                assert(l[j] == a0[j].insert(lo));
                assert(ua0[j] == step_up(a0[j]));
                assert(step_up(a0[j].insert(lo)) =~= step_up(a0[j]).insert(lo + 1));
            } else {
                assert(u[j] == ub[j - a0.len()]);
                assert(l[j] == b[j - a0.len()]);
            }
        }
        assert(u =~= all_step_up(l));
    }
}

/// The `k`-member subsets of the naturals below `n` that hold 0.
pub open spec fn subsets_with_zero(n: nat, k: nat) -> Seq<Set<nat>> {
    with_member(subsets_from(1, n, (k - 1) as nat), 0)
}

/// The `k`-member subsets of the naturals below `n` that do not hold 0.
pub open spec fn subsets_without_zero(n: nat, k: nat) -> Seq<Set<nat>> {
    subsets_from(1, n, k)
}

/// The subsets of a given size are those that hold 0, followed by those that
/// do not.
pub proof fn lemma_subsets_split(n: nat, k: nat)
    requires
        1 <= k <= n,
    ensures
        subsets_of_size(n, k) == subsets_with_zero(n, k) + subsets_without_zero(n, k),
{
}

} // verus!
