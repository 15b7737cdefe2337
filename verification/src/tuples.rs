//! Lists of index tuples in lexicographic order: the rising ones, which pick
//! each index at most once, and the steady ones, which may repeat an index.

use crate::bitword::{count_below, lemma_count_below};
use vstd::prelude::*;

verus! {

/// Each tuple of `l` with `lo` put in front.
pub open spec fn with_first(l: Seq<Seq<nat>>, lo: nat) -> Seq<Seq<nat>> {
    Seq::new(l.len(), |j: int| seq![lo] + l[j])
}

/// The tuple has `k` entries from `lo` up to, not including, `n`, and no
/// entry is less than the one before it; with `strict`, each is greater.
pub open spec fn is_tuple(t: Seq<nat>, lo: nat, n: nat, k: nat, strict: bool) -> bool {
    &&& t.len() == k
    &&& forall|i: int| 0 <= i < t.len() ==> lo <= #[trigger] t[i] && t[i] < n
    &&& forall|i: int, j: int|
        0 <= i < j < t.len() ==> if strict {
            #[trigger] t[i] < #[trigger] t[j]
        } else {
            t[i] <= t[j]
        }
}

/// The strictly rising tuples of `k` entries from `lo..n`, in lexicographic
/// order.
pub open spec fn rising_from(lo: nat, n: nat, k: nat) -> Seq<Seq<nat>>
    decreases n - lo,
{
    if k == 0 {
        seq![Seq::<nat>::empty()]
    } else if lo + k > n {
        Seq::<Seq<nat>>::empty()
    } else {
        with_first(rising_from(lo + 1, n, (k - 1) as nat), lo) + rising_from(lo + 1, n, k)
    }
}

/// The tuples of `r` entries from `lo..n` that never fall, in lexicographic
/// order.
pub open spec fn steady_from(lo: nat, n: nat, r: nat) -> Seq<Seq<nat>>
    decreases n - lo + r,
{
    if r == 0 {
        seq![Seq::<nat>::empty()]
    } else if lo >= n {
        Seq::<Seq<nat>>::empty()
    } else {
        with_first(steady_from(lo, n, (r - 1) as nat), lo) + steady_from(lo + 1, n, r)
    }
}

/// A tuple behind a first entry that is at most each of its entries.
proof fn lemma_tuple_cons(t: Seq<nat>, lo: nat, from: nat, n: nat, k: nat, strict: bool)
    requires
        is_tuple(t, from, n, k, strict),
        lo < n,
        if strict {
            lo < from
        } else {
            lo <= from
        },
    ensures
        is_tuple(seq![lo] + t, lo, n, k + 1, strict),
{
    let u = seq![lo] + t;
    assert forall|i: int| 0 <= i < u.len() implies lo <= #[trigger] u[i] && u[i] < n by {
        if i > 0 {
            assert(u[i] == t[i - 1]);
        }
    }
    assert forall|i: int, j: int| 0 <= i < j < u.len() implies if strict {
        #[trigger] u[i] < #[trigger] u[j]
    } else {
        u[i] <= u[j]
    } by {
        assert(u[j] == t[j - 1]);
        if i > 0 {
            assert(u[i] == t[i - 1]);
        }
    }
}

/// What is left of a tuple without its first entry.
proof fn lemma_tuple_tail(t: Seq<nat>, lo: nat, n: nat, k: nat, strict: bool)
    requires
        is_tuple(t, lo, n, k, strict),
        k >= 1,
    ensures
        is_tuple(
            t.drop_first(),
            if strict {
                t[0] + 1
            } else {
                t[0]
            },
            n,
            (k - 1) as nat,
            strict,
        ),
        t == seq![t[0]] + t.drop_first(),
{
    let u = t.drop_first();
    let from = if strict {
        t[0] + 1
    } else {
        t[0]
    };
    assert forall|i: int| 0 <= i < u.len() implies from <= #[trigger] u[i] && u[i] < n by {
        assert(u[i] == t[i + 1]);
    }
    assert forall|i: int, j: int| 0 <= i < j < u.len() implies if strict {
        #[trigger] u[i] < #[trigger] u[j]
    } else {
        u[i] <= u[j]
    } by {
        assert(u[i] == t[i + 1] && u[j] == t[j + 1]);
    }
    assert(t =~= seq![t[0]] + u);
}

/// A tuple of entries from `lo + 1` on is a tuple of entries from `lo` on.
proof fn lemma_tuple_widen(t: Seq<nat>, lo: nat, from: nat, n: nat, k: nat, strict: bool)
    requires
        is_tuple(t, from, n, k, strict),
        lo <= from,
    ensures
        is_tuple(t, lo, n, k, strict),
{
}

/// Every entry of `rising_from(lo, n, k)` is a strictly rising tuple.
pub proof fn lemma_rising_shape(lo: nat, n: nat, k: nat)
    requires
        lo <= n,
    ensures
        forall|j: int|
            0 <= j < rising_from(lo, n, k).len() ==> is_tuple(
                #[trigger] rising_from(lo, n, k)[j],
                lo,
                n,
                k,
                true,
            ),
    decreases n - lo,
{
    let l = rising_from(lo, n, k);
    if k == 0 {
    } else if lo + k > n {
    } else {
        let a0 = rising_from(lo + 1, n, (k - 1) as nat);
        let b = rising_from(lo + 1, n, k);
        lemma_rising_shape(lo + 1, n, (k - 1) as nat);
        lemma_rising_shape(lo + 1, n, k);
        assert forall|j: int| 0 <= j < l.len() implies is_tuple(#[trigger] l[j], lo, n, k, true) by {
            if j < a0.len() {
                assert(l[j] == seq![lo] + a0[j]);
                lemma_tuple_cons(a0[j], lo, lo + 1, n, (k - 1) as nat, true);
            } else {
                assert(l[j] == b[j - a0.len()]);
                lemma_tuple_widen(b[j - a0.len()], lo, lo + 1, n, k, true);
            }
        }
    }
}

/// Every strictly rising tuple is an entry of `rising_from(lo, n, k)`.
pub proof fn lemma_rising_complete(lo: nat, n: nat, k: nat, t: Seq<nat>) -> (j: int)
    requires
        lo <= n,
        is_tuple(t, lo, n, k, true),
    ensures
        0 <= j < rising_from(lo, n, k).len(),
        rising_from(lo, n, k)[j] == t,
    decreases n - lo,
{
    let l = rising_from(lo, n, k);
    if k == 0 {
        assert(t =~= Seq::<nat>::empty());
        0
    } else {
        lemma_tuple_tail(t, lo, n, k, true);
        let u = t.drop_first();
        assert(lo + k <= n) by {
            lemma_rising_room(t, lo, n, k);
        }
        let a0 = rising_from(lo + 1, n, (k - 1) as nat);
        let b = rising_from(lo + 1, n, k);
        if t[0] == lo {
            let j = lemma_rising_complete(lo + 1, n, (k - 1) as nat, u);
            assert(l[j] == seq![lo] + a0[j]);
            j
        } else {
            assert(is_tuple(t, lo + 1, n, k, true)) by {
                assert forall|i: int| 0 <= i < t.len() implies lo + 1 <= #[trigger] t[i] by {
                    if i > 0 {
                        assert(t[0] < t[i]);
                    }
                }
            }
            let j = lemma_rising_complete(lo + 1, n, k, t);
            assert(l[a0.len() + j] == b[j]);
            a0.len() + j
        }
    }
}

/// A strictly rising tuple of `k` entries from `lo..n` needs `lo + k <= n`.
proof fn lemma_rising_room(t: Seq<nat>, lo: nat, n: nat, k: nat)
    requires
        is_tuple(t, lo, n, k, true),
    ensures
        k == 0 || lo + k <= n,
    decreases k,
{
    if k >= 1 {
        lemma_tuple_tail(t, lo, n, k, true);
        lemma_rising_room(t.drop_first(), t[0] + 1, n, (k - 1) as nat);
        assert(lo <= t[0] && t[0] < n);
    }
}

/// No two entries of `rising_from(lo, n, k)` are the same tuple.
pub proof fn lemma_rising_distinct(lo: nat, n: nat, k: nat, i: int, j: int)
    requires
        lo <= n,
        0 <= i < j < rising_from(lo, n, k).len(),
    ensures
        rising_from(lo, n, k)[i] != rising_from(lo, n, k)[j],
    decreases n - lo,
{
    let l = rising_from(lo, n, k);
    if k == 0 {
    } else if lo + k > n {
    } else {
        let a0 = rising_from(lo + 1, n, (k - 1) as nat);
        let b = rising_from(lo + 1, n, k);
        lemma_rising_shape(lo + 1, n, k);
        if j < a0.len() {
            lemma_rising_distinct(lo + 1, n, (k - 1) as nat, i, j);
            assert(l[i] == seq![lo] + a0[i]);
            assert(l[j] == seq![lo] + a0[j]);
            if l[i] == l[j] {
                assert(a0[i] =~= l[i].drop_first());
                assert(a0[j] =~= l[j].drop_first());
            }
        } else if i >= a0.len() {
            lemma_rising_distinct(lo + 1, n, k, i - a0.len(), j - a0.len());
            assert(l[i] == b[i - a0.len()]);
            assert(l[j] == b[j - a0.len()]);
        } else {
            assert(l[i] == seq![lo] + a0[i]);
            assert(l[i][0] == lo);
            assert(l[j] == b[j - a0.len()]);
            assert(is_tuple(b[j - a0.len()], lo + 1, n, k, true));
            assert(l[j][0] >= lo + 1);
        }
    }
}

/// Every entry of `steady_from(lo, n, r)` is a tuple that never falls.
pub proof fn lemma_steady_shape(lo: nat, n: nat, r: nat)
    ensures
        forall|j: int|
            0 <= j < steady_from(lo, n, r).len() ==> is_tuple(
                #[trigger] steady_from(lo, n, r)[j],
                lo,
                n,
                r,
                false,
            ),
    decreases n - lo + r,
{
    let l = steady_from(lo, n, r);
    if r == 0 {
    } else if lo >= n {
    } else {
        let a0 = steady_from(lo, n, (r - 1) as nat);
        let b = steady_from(lo + 1, n, r);
        lemma_steady_shape(lo, n, (r - 1) as nat);
        lemma_steady_shape(lo + 1, n, r);
        assert forall|j: int| 0 <= j < l.len() implies is_tuple(#[trigger] l[j], lo, n, r, false) by {
            if j < a0.len() {
                assert(l[j] == seq![lo] + a0[j]);
                lemma_tuple_cons(a0[j], lo, lo, n, (r - 1) as nat, false);
            } else {
                assert(l[j] == b[j - a0.len()]);
                lemma_tuple_widen(b[j - a0.len()], lo, lo + 1, n, r, false);
            }
        }
    }
}

/// Every tuple that never falls is an entry of `steady_from(lo, n, r)`.
pub proof fn lemma_steady_complete(lo: nat, n: nat, r: nat, t: Seq<nat>) -> (j: int)
    requires
        is_tuple(t, lo, n, r, false),
    ensures
        0 <= j < steady_from(lo, n, r).len(),
        steady_from(lo, n, r)[j] == t,
    decreases n - lo + r,
{
    let l = steady_from(lo, n, r);
    if r == 0 {
        assert(t =~= Seq::<nat>::empty());
        0
    } else {
        lemma_tuple_tail(t, lo, n, r, false);
        let u = t.drop_first();
        assert(lo <= t[0] && t[0] < n);
        let a0 = steady_from(lo, n, (r - 1) as nat);
        let b = steady_from(lo + 1, n, r);
        if t[0] == lo {
            let j = lemma_steady_complete(lo, n, (r - 1) as nat, u);
            assert(l[j] == seq![lo] + a0[j]);
            j
        } else {
            assert(is_tuple(t, lo + 1, n, r, false)) by {
                assert forall|i: int| 0 <= i < t.len() implies lo + 1 <= #[trigger] t[i] by {
                    if i > 0 {
                        assert(t[0] <= t[i]);
                    }
                }
            }
            let j = lemma_steady_complete(lo + 1, n, r, t);
            assert(l[a0.len() + j] == b[j]);
            a0.len() + j
        }
    }
}

/// The tuple of `r` entries that are all `x`.
pub open spec fn level(x: nat, r: nat) -> Seq<nat> {
    Seq::new(r, |i: int| x)
}

/// `i` is the last position of `t` whose entry is not `n - 1`.
pub open spec fn is_bump_pos(t: Seq<nat>, n: nat, i: int) -> bool {
    &&& 0 <= i < t.len()
    &&& t[i] + 1 < n
    &&& forall|j: int| i < j < t.len() ==> #[trigger] t[j] + 1 == n
}

/// `t` with the entry at `i` one higher and every later entry made the same.
pub open spec fn bump(t: Seq<nat>, i: int) -> Seq<nat> {
    t.take(i) + level(t[i] + 1, (t.len() - i) as nat)
}

/// The first entry of `steady_from(lo, n, r)` is all `lo`, the last one all
/// `n - 1`.
pub proof fn lemma_steady_ends(lo: nat, n: nat, r: nat)
    requires
        lo < n || r == 0,
    ensures
        steady_from(lo, n, r).len() >= 1,
        steady_from(lo, n, r)[0] == level(lo, r),
        steady_from(lo, n, r).last() == level((n - 1) as nat, r),
    decreases n - lo + r,
{
    let l = steady_from(lo, n, r);
    if r == 0 {
        assert(level(lo, 0) =~= Seq::<nat>::empty());
        assert(level((n - 1) as nat, 0) =~= Seq::<nat>::empty());
    } else {
        let a0 = steady_from(lo, n, (r - 1) as nat);
        let b = steady_from(lo + 1, n, r);
        lemma_steady_ends(lo, n, (r - 1) as nat);
        assert(l[0] == seq![lo] + a0[0]);
        assert(seq![lo] + level(lo, (r - 1) as nat) =~= level(lo, r));
        if lo + 1 < n {
            lemma_steady_ends(lo + 1, n, r);
            assert(l.last() == b.last());
        } else {
            assert(b.len() == 0);
            assert(l.last() == seq![lo] + a0.last());
            assert(seq![lo] + level((n - 1) as nat, (r - 1) as nat) =~= level((n - 1) as nat, r));
        }
    }
}

/// Each entry of `steady_from(lo, n, r)` but the last has a position to bump,
/// and bumping it gives the next entry; the last entry is all `n - 1`.
pub proof fn lemma_steady_step(lo: nat, n: nat, r: nat, j: int) -> (i: int)
    requires
        0 <= j < steady_from(lo, n, r).len(),
    ensures
        j + 1 < steady_from(lo, n, r).len() ==> is_bump_pos(steady_from(lo, n, r)[j], n, i)
            && steady_from(lo, n, r)[j + 1] == bump(steady_from(lo, n, r)[j], i),
        j + 1 == steady_from(lo, n, r).len() ==> steady_from(lo, n, r)[j] == level(
            (n - 1) as nat,
            r,
        ),
    decreases n - lo + r,
{
    let l = steady_from(lo, n, r);
    if r == 0 {
        assert(level((n - 1) as nat, 0) =~= Seq::<nat>::empty());
        0
    } else {
        let a0 = steady_from(lo, n, (r - 1) as nat);
        let b = steady_from(lo + 1, n, r);
        lemma_steady_shape(lo, n, (r - 1) as nat);
        lemma_steady_ends(lo, n, (r - 1) as nat);
        if j + 1 < a0.len() {
            let i0 = lemma_steady_step(lo, n, (r - 1) as nat, j);
            let t0 = a0[j];
            let t = l[j];
            assert(t == seq![lo] + t0);
            assert(l[j + 1] == seq![lo] + a0[j + 1]);
            assert(is_bump_pos(t, n, i0 + 1)) by {
                assert(t[i0 + 1] == t0[i0]);
                assert forall|q: int| i0 + 1 < q < t.len() implies #[trigger] t[q] + 1 == n by {
                    assert(t[q] == t0[q - 1]);
                }
            }
            assert(bump(t, i0 + 1) =~= seq![lo] + bump(t0, i0));
            i0 + 1
        } else if j + 1 == a0.len() {
            let t = l[j];
            let top = level((n - 1) as nat, (r - 1) as nat);
            assert(t == seq![lo] + a0[j]);
            assert(a0[j] == a0.last());
            assert(t == seq![lo] + top);
            if lo + 1 < n {
                lemma_steady_ends(lo + 1, n, r);
                assert(l[j + 1] == b[0]);
                assert(is_bump_pos(t, n, 0)) by {
                    assert forall|q: int| 0 < q < t.len() implies #[trigger] t[q] + 1 == n by {
                        assert(t[q] == top[q - 1]);
                    }
                }
                assert(bump(t, 0) =~= level(lo + 1, r));
                0
            } else {
                assert(b.len() == 0);
                assert(t =~= level((n - 1) as nat, r));
                0
            }
        } else {
            let i = lemma_steady_step(lo + 1, n, r, j - a0.len());
            assert(l[j] == b[j - a0.len()]);
            if j + 1 < l.len() {
                assert(l[j + 1] == b[j + 1 - a0.len()]);
            }
            i
        }
    }
}

/// Positions with the same index have the same sign.
pub open spec fn uniform(signs: Seq<bool>, t: Seq<nat>) -> bool {
    &&& signs.len() == t.len()
    &&& forall|i: int, j: int|
        0 <= i < t.len() && 0 <= j < t.len() && #[trigger] t[i] == #[trigger] t[j] ==> signs[i]
            == signs[j]
}

/// Where the run of equal indices starts that ends just before position `k`
/// of a tuple that never falls.
pub open spec fn run_start(t: Seq<nat>, k: int) -> int
    decreases k,
{
    if k <= 1 {
        0
    } else if t[k - 2] == t[k - 1] {
        run_start(t, k - 1)
    } else {
        k - 1
    }
}

/// `r` entries that are all `b`.
pub open spec fn block(b: bool, r: nat) -> Seq<bool> {
    Seq::new(r, |i: int| b)
}

/// Each list of signs of `l` with `tail` behind it.
pub open spec fn with_tail(l: Seq<Seq<bool>>, tail: Seq<bool>) -> Seq<Seq<bool>> {
    Seq::new(l.len(), |j: int| l[j] + tail)
}

/// The ways to give a sign to each of the first `k` positions of `t` so that
/// equal indices get equal signs; `true` is plus. The signs of the lowest
/// positions change fastest, all plus comes first.
pub open spec fn sign_lists(t: Seq<nat>, k: int) -> Seq<Seq<bool>>
    decreases k,
{
    if k <= 0 {
        seq![Seq::<bool>::empty()]
    } else {
        let p = run_start(t, k);
        if 0 <= p < k {
            let lower = sign_lists(t, p);
            with_tail(lower, block(true, (k - p) as nat)) + with_tail(
                lower,
                block(false, (k - p) as nat),
            )
        } else {
            seq![Seq::<bool>::empty()]
        }
    }
}

/// The run that ends just before `k` starts before `k`, holds equal indices
/// only, and is preceded by a lower index.
pub proof fn lemma_run_start(t: Seq<nat>, k: int)
    requires
        1 <= k <= t.len(),
        forall|i: int, j: int| 0 <= i < j < t.len() ==> t[i] <= t[j],
    ensures
        0 <= run_start(t, k) < k,
        forall|i: int| run_start(t, k) <= i < k ==> #[trigger] t[i] == t[k - 1],
        forall|i: int| 0 <= i < run_start(t, k) ==> #[trigger] t[i] < t[k - 1],
    decreases k,
{
    if k > 1 {
        if t[k - 2] == t[k - 1] {
            lemma_run_start(t, k - 1);
        } else {
            assert forall|i: int| 0 <= i < k - 1 implies #[trigger] t[i] < t[k - 1] by {
                assert(t[i] <= t[k - 2]);
                assert(t[k - 2] <= t[k - 1]);
            }
        }
    }
}

/// `i` is the first position of `c` that holds plus.
pub open spec fn is_first_plus(c: Seq<bool>, i: int) -> bool {
    &&& 0 <= i < c.len()
    &&& c[i]
    &&& forall|j: int| 0 <= j < i ==> !#[trigger] c[j]
}

/// `c` with plus on every position before `i`, minus on the positions from
/// `i` up to, not including, `end`, and the rest as it was.
pub open spec fn flip(c: Seq<bool>, i: int, end: int) -> Seq<bool> {
    Seq::new(
        c.len(),
        |j: int|
            if j < i {
                true
            } else if j < end {
                false
            } else {
                c[j]
            },
    )
}

/// `end` is where the run of the index at position `i` ends.
pub open spec fn is_run_end(t: Seq<nat>, i: int, end: int) -> bool {
    &&& i < end <= t.len()
    &&& forall|j: int| i <= j < end ==> #[trigger] t[j] == t[i]
    &&& end < t.len() ==> t[end] != t[i]
}

/// Every entry of `sign_lists(t, k)` has `k` signs, equal ones on equal
/// indices; the first entry is all plus, the last all minus.
pub proof fn lemma_sign_lists_shape(t: Seq<nat>, k: int)
    requires
        0 <= k <= t.len(),
        forall|i: int, j: int| 0 <= i < j < t.len() ==> t[i] <= t[j],
    ensures
        sign_lists(t, k).len() >= 1,
        sign_lists(t, k)[0] == block(true, k as nat),
        sign_lists(t, k).last() == block(false, k as nat),
        forall|j: int|
            0 <= j < sign_lists(t, k).len() ==> (#[trigger] sign_lists(t, k)[j]).len() == k,
        forall|j: int, x: int, y: int|
            0 <= j < sign_lists(t, k).len() && 0 <= x < k && 0 <= y < k && t[x] == t[y]
                ==> #[trigger] sign_lists(t, k)[j][x] == #[trigger] sign_lists(t, k)[j][y],
    decreases k,
{
    let l = sign_lists(t, k);
    if k == 0 {
        assert(block(true, 0) =~= Seq::<bool>::empty());
        assert(block(false, 0) =~= Seq::<bool>::empty());
    } else {
        lemma_run_start(t, k);
        let p = run_start(t, k);
        let lower = sign_lists(t, p);
        lemma_sign_lists_shape(t, p);
        let w = (k - p) as nat;
        let first = with_tail(lower, block(true, w));
        let second = with_tail(lower, block(false, w));
        assert(l == first + second);
        assert(l[0] == lower[0] + block(true, w));
        assert(block(true, p as nat) + block(true, w) =~= block(true, k as nat));
        assert(l.last() == lower.last() + block(false, w));
        assert(block(false, p as nat) + block(false, w) =~= block(false, k as nat));
        assert forall|j: int| 0 <= j < l.len() implies (#[trigger] l[j]).len() == k by {
            if j < lower.len() {
                assert(l[j] == lower[j] + block(true, w));
            } else {
                assert(l[j] == lower[j - lower.len()] + block(false, w));
            }
        }
        assert forall|j: int, x: int, y: int|
            0 <= j < l.len() && 0 <= x < k && 0 <= y < k && t[x] == t[y] implies #[trigger] l[j][x]
            == #[trigger] l[j][y] by {
            let low = if j < lower.len() {
                lower[j]
            } else {
                lower[j - lower.len()]
            };
            let tail = if j < lower.len() {
                block(true, w)
            } else {
                block(false, w)
            };
            assert(l[j] == low + tail);
            assert(low.len() == p);
            if x < p && y < p {
                assert(low[x] == low[y]);
            } else if x >= p && y >= p {
            } else if x < p {
                assert(t[x] < t[k - 1]);
                assert(t[y] == t[k - 1]);
            } else {
                assert(t[y] < t[k - 1]);
                assert(t[x] == t[k - 1]);
            }
        }
    }
}

/// Every way to give equal signs to equal indices is an entry of
/// `sign_lists(t, k)`.
pub proof fn lemma_sign_lists_complete(t: Seq<nat>, k: int, c: Seq<bool>) -> (j: int)
    requires
        0 <= k <= t.len(),
        forall|i: int, j: int| 0 <= i < j < t.len() ==> t[i] <= t[j],
        c.len() == k,
        forall|x: int, y: int| 0 <= x < k && 0 <= y < k && t[x] == t[y] ==> c[x] == c[y],
    ensures
        0 <= j < sign_lists(t, k).len(),
        sign_lists(t, k)[j] == c,
    decreases k,
{
    let l = sign_lists(t, k);
    if k == 0 {
        assert(c =~= Seq::<bool>::empty());
        0
    } else {
        lemma_run_start(t, k);
        let p = run_start(t, k);
        let lower = sign_lists(t, p);
        let w = (k - p) as nat;
        let low = c.take(p);
        let j0 = lemma_sign_lists_complete(t, p, low);
        let sign = c[k - 1];
        assert(c =~= low + block(sign, w)) by {
            assert forall|x: int| p <= x < k implies c[x] == sign by {
                assert(t[x] == t[k - 1]);
            }
        }
        if sign {
            assert(l[j0] == lower[j0] + block(true, w));
            j0
        } else {
            assert(l[lower.len() + j0] == lower[j0] + block(false, w));
            lower.len() + j0
        }
    }
}

/// Each entry of `sign_lists(t, k)` but the last holds a plus, and flipping
/// the run of the first plus gives the next entry; the last entry holds no
/// plus.
pub proof fn lemma_sign_lists_step(t: Seq<nat>, k: int, j: int, i: int, end: int)
    requires
        0 <= k <= t.len(),
        forall|x: int, y: int| 0 <= x < y < t.len() ==> t[x] <= t[y],
        0 <= j < sign_lists(t, k).len(),
        j + 1 < sign_lists(t, k).len(),
        is_first_plus(sign_lists(t, k)[j], i),
        is_run_end(t.take(k), i, end),
    ensures
        sign_lists(t, k)[j + 1] == flip(sign_lists(t, k)[j], i, end),
    decreases k,
{
    let l = sign_lists(t, k);
    if k == 0 {
    } else {
        lemma_run_start(t, k);
        let p = run_start(t, k);
        let lower = sign_lists(t, p);
        lemma_sign_lists_shape(t, p);
        let w = (k - p) as nat;
        let first = with_tail(lower, block(true, w));
        let second = with_tail(lower, block(false, w));
        assert(l == first + second);
        let inner = if j < lower.len() {
            j
        } else {
            j - lower.len()
        };
        let tail = if j < lower.len() {
            block(true, w)
        } else {
            block(false, w)
        };
        assert(l[j] == lower[inner] + tail);
        assert(lower[inner].len() == p);
        assert forall|x: int| 0 <= x < k implies t.take(k)[x] == t[x] by {}
        if inner + 1 < lower.len() {
            // the first plus lies in the lower part
            if i >= p {
                // then the lower part is all minus, so it is the last one
                assert(lower[inner] =~= block(false, p as nat)) by {
                    assert forall|x: int| 0 <= x < p implies !lower[inner][x] by {
                        assert(l[j][x] == lower[inner][x]);
                    }
                }
                lemma_sign_lists_last_only(t, p, inner);
            }
            assert(is_first_plus(lower[inner], i)) by {
                assert(l[j][i] == lower[inner][i]);
                assert forall|x: int| 0 <= x < i implies !#[trigger] lower[inner][x] by {
                    assert(l[j][x] == lower[inner][x]);
                }
            }
            assert(end <= p) by {
                if end > p {
                    assert(t.take(k)[p] == t.take(k)[i]);
                    assert(t[i] < t[k - 1]);
                    assert(t[p] == t[k - 1]);
                }
            }
            assert(is_run_end(t.take(p), i, end)) by {
                assert forall|x: int| 0 <= x < p implies t.take(p)[x] == t[x] by {}
                if end < p {
                    assert(t.take(k)[end] != t.take(k)[i]);
                }
            }
            lemma_sign_lists_step(t, p, inner, i, end);
            assert(l[j + 1] == lower[inner + 1] + tail);
            assert(l[j + 1] =~= flip(l[j], i, end));
        } else {
            // the lower part is the last one: all minus
            assert(lower[inner] == block(false, p as nat));
            assert(j < lower.len());
            assert(i == p) by {
                if i < p {
                    assert(l[j][i] == lower[inner][i]);
                }
                if i > p {
                    assert(!l[j][p]);
                }
            }
            assert(end == k) by {
                if end < k {
                    assert(t.take(k)[end] != t.take(k)[i]);
                    assert(t[end] == t[k - 1]);
                    assert(t[p] == t[k - 1]);
                }
            }
            assert(l[j + 1] == lower[0] + block(false, w));
            assert(l[j + 1] =~= flip(l[j], i, end));
        }
    }
}

/// Only the last entry of `sign_lists(t, k)` is all minus.
pub proof fn lemma_sign_lists_last_only(t: Seq<nat>, k: int, j: int)
    requires
        0 <= k <= t.len(),
        forall|x: int, y: int| 0 <= x < y < t.len() ==> t[x] <= t[y],
        0 <= j < sign_lists(t, k).len(),
        sign_lists(t, k)[j] == block(false, k as nat),
    ensures
        j + 1 == sign_lists(t, k).len(),
    decreases k,
{
    let l = sign_lists(t, k);
    if k > 0 {
        lemma_run_start(t, k);
        let p = run_start(t, k);
        let lower = sign_lists(t, p);
        lemma_sign_lists_shape(t, p);
        let w = (k - p) as nat;
        if j < lower.len() {
            assert(l[j] == lower[j] + block(true, w));
            assert(l[j][k - 1] == block(true, w)[k - 1 - p]);
            assert(block(false, k as nat)[k - 1] == false);
        } else {
            let inner = j - lower.len();
            assert(l[j] == lower[inner] + block(false, w));
            assert(lower[inner] =~= block(false, p as nat)) by {
                assert forall|x: int| 0 <= x < p implies !lower[inner][x] by {
                    assert(l[j][x] == lower[inner][x]);
                }
            }
            lemma_sign_lists_last_only(t, p, inner);
        }
    }
}

/// The indices that occur in a tuple.
pub open spec fn index_set(t: Seq<nat>) -> Set<nat> {
    Set::new(|i: nat| exists|q: int| 0 <= q < t.len() && #[trigger] t[q] == i)
}

/// The members of `s` below `n`, in rising order.
pub open spec fn listing(s: Set<nat>, n: nat) -> Seq<nat>
    decreases n,
{
    if n == 0 {
        Seq::<nat>::empty()
    } else if s.contains((n - 1) as nat) {
        listing(s, (n - 1) as nat).push((n - 1) as nat)
    } else {
        listing(s, (n - 1) as nat)
    }
}

/// The listing of a set is a strictly rising tuple of its members below the
/// bound.
pub proof fn lemma_listing(s: Set<nat>, n: nat)
    ensures
        is_tuple(listing(s, n), 0, n, count_below(s, n), true),
        forall|i: nat| index_set(listing(s, n)).contains(i) == (s.contains(i) && i < n),
    decreases n,
{
    let l = listing(s, n);
    if n > 0 {
        let p = (n - 1) as nat;
        let l0 = listing(s, p);
        lemma_listing(s, p);
        assert(is_tuple(l, 0, n, count_below(s, n), true)) by {
            assert forall|i: int| 0 <= i < l.len() implies 0 <= #[trigger] l[i] && l[i] < n by {
                if i < l0.len() {
                    assert(l[i] == l0[i]);
                }
            }
            assert forall|i: int, j: int| 0 <= i < j < l.len() implies #[trigger] l[i]
                < #[trigger] l[j] by {
                if j < l0.len() {
                    assert(l[i] == l0[i] && l[j] == l0[j]);
                } else {
                    assert(l[i] == l0[i]);
                }
            }
        }
        assert forall|i: nat| index_set(l).contains(i) == (s.contains(i) && i < n) by {
            if index_set(l).contains(i) {
                let q = choose|q: int| 0 <= q < l.len() && #[trigger] l[q] == i;
                if q < l0.len() {
                    assert(l0[q] == i);
                    assert(index_set(l0).contains(i));
                }
            }
            if s.contains(i) && i < n {
                if i == p {
                    assert(l[l.len() - 1] == i);
                } else {
                    assert(index_set(l0).contains(i));
                    let q = choose|q: int| 0 <= q < l0.len() && #[trigger] l0[q] == i;
                    assert(l[q] == i);
                }
            }
        }
    } else {
        assert forall|i: nat| !index_set(l).contains(i) by {}
    }
}

/// The listing looks only at the members below its bound.
pub proof fn lemma_listing_agree(s: Set<nat>, t: Set<nat>, n: nat)
    requires
        forall|i: nat| i < n ==> s.contains(i) == t.contains(i),
    ensures
        listing(s, n) == listing(t, n),
    decreases n,
{
    if n > 0 {
        lemma_listing_agree(s, t, (n - 1) as nat);
    }
}

/// A strictly rising tuple is the listing of its indices.
pub proof fn lemma_listing_of_tuple(t: Seq<nat>, n: nat, k: nat)
    requires
        is_tuple(t, 0, n, k, true),
    ensures
        listing(index_set(t), n) == t,
    decreases n,
{
    let s = index_set(t);
    if n == 0 {
        assert(t =~= Seq::<nat>::empty()) by {
            if t.len() > 0 {
                assert(t[0] < n);
            }
        }
    } else {
        let p = (n - 1) as nat;
        if t.len() > 0 && t.last() == p {
            let t0 = t.drop_last();
            assert(is_tuple(t0, 0, p, (k - 1) as nat, true)) by {
                assert forall|i: int| 0 <= i < t0.len() implies 0 <= #[trigger] t0[i] && t0[i]
                    < p by {
                    assert(t0[i] == t[i]);
                    assert(t[i] < t[t.len() - 1]);
                }
                assert forall|i: int, j: int| 0 <= i < j < t0.len() implies #[trigger] t0[i]
                    < #[trigger] t0[j] by {
                    assert(t0[i] == t[i] && t0[j] == t[j]);
                }
            }
            lemma_listing_of_tuple(t0, p, (k - 1) as nat);
            assert forall|i: nat| i < p implies s.contains(i) == index_set(t0).contains(i) by {
                if s.contains(i) {
                    let q = choose|q: int| 0 <= q < t.len() && #[trigger] t[q] == i;
                    assert(t0[q] == i);
                }
                if index_set(t0).contains(i) {
                    let q = choose|q: int| 0 <= q < t0.len() && #[trigger] t0[q] == i;
                    assert(t[q] == i);
                }
            }
            lemma_listing_agree(s, index_set(t0), p);
            assert(t[t.len() - 1] == p);
            assert(s.contains(p));
            assert(t =~= t0.push(p));
        } else {
            assert(is_tuple(t, 0, p, k, true)) by {
                assert forall|i: int| 0 <= i < t.len() implies 0 <= #[trigger] t[i] && t[i] < p by {
                    if i < t.len() - 1 {
                        assert(t[i] < t[t.len() - 1]);
                    }
                }
            }
            lemma_listing_of_tuple(t, p, k);
            assert(!s.contains(p)) by {
                if s.contains(p) {
                    let q = choose|q: int| 0 <= q < t.len() && #[trigger] t[q] == p;
                    assert(t[q] < p);
                }
            }
        }
    }
}

/// A strictly rising tuple holds as many indices as it has entries.
pub proof fn lemma_index_set_len(t: Seq<nat>, n: nat, k: nat)
    requires
        is_tuple(t, 0, n, k, true),
    ensures
        index_set(t).finite(),
        index_set(t).len() == k,
{
    lemma_listing_of_tuple(t, n, k);
    lemma_listing(index_set(t), n);
    assert forall|i: nat| index_set(t).contains(i) implies i < n by {
        let q = choose|q: int| 0 <= q < t.len() && #[trigger] t[q] == i;
    }
    lemma_count_below(index_set(t), n);
}

} // verus!
