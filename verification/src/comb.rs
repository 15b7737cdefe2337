//! Counting functions and the families of extremal searches.

pub mod chapter_a;
pub mod chapter_b;
pub mod chapter_c;
pub mod chapter_d;
pub mod chapter_e;
pub mod chapter_f;
pub mod chapter_g;
pub mod exacts;
pub mod hfolds;
pub mod search;

use vstd::prelude::*;

verus! {

/// `n * choose(n - 1, k - 1) / k`, and 1 where `n` or `k` is 0: the number of
/// ways to pick `k` of `n` things, for `k` at most `n`.
pub open spec fn choose_spec(n: nat, k: nat) -> nat
    decreases n,
{
    if k == 0 || n == 0 {
        1
    } else {
        (n * choose_spec((n - 1) as nat, (k - 1) as nat)) / k
    }
}

/// `v` as a `u32`, or `None` where it does not fit.
pub open spec fn capped(v: nat) -> Option<u32> {
    if v <= u32::MAX {
        Some(v as u32)
    } else {
        None
    }
}

/// 2 to the power of `i`.
pub open spec fn two_pow(i: nat) -> nat
    decreases i,
{
    if i == 0 {
        1
    } else {
        2 * two_pow((i - 1) as nat)
    }
}

/// The product of the numbers from 1 to `x`.
pub open spec fn factorial_spec(x: nat) -> nat
    decreases x,
{
    if x == 0 {
        1
    } else {
        x * factorial_spec((x - 1) as nat)
    }
}

/// Picking more than there is: one way from nothing, none otherwise.
pub proof fn lemma_choose_beyond(n: nat, k: nat)
    requires
        n < k,
    ensures
        n == 0 ==> choose_spec(n, k) == 1,
        n >= 1 ==> choose_spec(n, k) == 0,
        choose_spec(n, k) <= 1,
    decreases n,
{
    if n >= 1 {
        lemma_choose_beyond((n - 1) as nat, (k - 1) as nat);
        let inner = choose_spec((n - 1) as nat, (k - 1) as nat);
        assert(n * inner <= n) by (nonlinear_arith)
            requires
                inner <= 1,
        ;
        assert((n * inner) / k == 0) by (nonlinear_arith)
            requires
                n * inner < k,
                k > 0,
                n * inner >= 0,
        ;
    }
}

/// With at least as many things as are picked, there are at least as many
/// ways as with one thing and one pick less.
proof fn lemma_choose_grows(n: nat, k: nat)
    requires
        1 <= k <= n,
    ensures
        choose_spec(n, k) >= choose_spec((n - 1) as nat, (k - 1) as nat),
{
    let inner = choose_spec((n - 1) as nat, (k - 1) as nat);
    assert((n * inner) / k >= inner) by (nonlinear_arith)
        requires
            1 <= k <= n,
            inner >= 0,
    ;
}

/// The product of two `u32` fits a `u64`.
proof fn lemma_product_fits(p: u32, q: u32)
    ensures
        p * q <= u64::MAX,
{
    assert(p * q <= 0xffff_ffff * 0xffff_ffff) by (nonlinear_arith)
        requires
            0 <= p <= 0xffff_ffff,
            0 <= q <= 0xffff_ffff,
    ;
}

/// The product of two capped numbers, capped.
pub(crate) fn cap_mul(a: Option<u32>, b: Option<u32>, Ghost(x): Ghost<nat>, Ghost(y): Ghost<nat>) -> (r:
    Option<u32>)
    requires
        a == capped(x),
        b == capped(y),
    ensures
        r == capped(x * y),
{
    match (a, b) {
        (Some(p), Some(q)) => {
            proof {
                lemma_product_fits(p, q);
            }
            let prod: u64 = (p as u64) * (q as u64);
            if prod > u32::MAX as u64 {
                None
            } else {
                Some(prod as u32)
            }
        },
        (Some(p), None) => {
            if p == 0 {
                proof {
                    assert(x * y == 0) by (nonlinear_arith)
                        requires
                            x == 0,
                    ;
                }
                Some(0)
            } else {
                proof {
                    assert(x * y >= y) by (nonlinear_arith)
                        requires
                            x >= 1,
                    ;
                }
                None
            }
        },
        (None, Some(q)) => {
            if q == 0 {
                proof {
                    assert(x * y == 0) by (nonlinear_arith)
                        requires
                            y == 0,
                    ;
                }
                Some(0)
            } else {
                proof {
                    assert(x * y >= x) by (nonlinear_arith)
                        requires
                            y >= 1,
                    ;
                }
                None
            }
        },
        (None, None) => {
            proof {
                assert(x * y >= x) by (nonlinear_arith)
                    requires
                        y >= 1,
                        x >= 0,
                ;
            }
            None
        },
    }
}

/// The sum of two capped numbers, capped.
pub(crate) fn cap_add(a: Option<u32>, b: Option<u32>, Ghost(x): Ghost<nat>, Ghost(y): Ghost<nat>) -> (r:
    Option<u32>)
    requires
        a == capped(x),
        b == capped(y),
    ensures
        r == capped(x + y),
{
    match (a, b) {
        (Some(p), Some(q)) => {
            let sum: u64 = (p as u64) + (q as u64);
            if sum > u32::MAX as u64 {
                None
            } else {
                Some(sum as u32)
            }
        },
        _ => None,
    }
}

/// 2 to the power of `i`, capped.
pub(crate) fn cap_two_pow(i: u32) -> (r: Option<u32>)
    ensures
        r == capped(two_pow(i as nat)),
{
    let mut p: Option<u32> = Some(1);
    let mut j: u32 = 0;
    while j < i
        invariant
            j <= i,
            p == capped(two_pow(j as nat)),
        decreases i - j,
    {
        p = cap_mul(Some(2), p, Ghost(2nat), Ghost(two_pow(j as nat)));
        j += 1;
    }
    p
}

/// `choose_spec(n, k)` where it fits a `u32`, `None` where it does not.
pub fn checked_choose(n: u32, k: u32) -> (r: Option<u32>)
    ensures
        r == capped(choose_spec(n as nat, k as nat)),
    decreases n,
{
    if k == 0 || n == 0 {
        Some(1)
    } else {
        match checked_choose(n - 1, k - 1) {
            None => {
                proof {
                    if n < k {
                        lemma_choose_beyond((n - 1) as nat, (k - 1) as nat);
                    }
                    lemma_choose_grows(n as nat, k as nat);
                }
                None
            },
            Some(inner) => {
                proof {
                    lemma_product_fits(n, inner);
                }
                let prod: u64 = (n as u64) * (inner as u64);
                let q: u64 = prod / (k as u64);
                if q > u32::MAX as u64 {
                    None
                } else {
                    Some(q as u32)
                }
            },
        }
    }
}

/// The number of ways to pick `k` of `n` things: `n * choose(n - 1, k - 1) / k`,
/// and 1 where `n` or `k` is 0.
pub fn n_choose_k(n: u32, k: u32) -> (r: u32)
    requires
        choose_spec(n as nat, k as nat) <= u32::MAX,
    ensures
        r == choose_spec(n as nat, k as nat),
{
    checked_choose(n, k).unwrap()
}

/// `factorial_spec(x)` where it fits a `u32`, `None` where it does not.
pub fn checked_factorial(x: u32) -> (r: Option<u32>)
    ensures
        r == capped(factorial_spec(x as nat)),
{
    let mut prod: Option<u32> = Some(1);
    let mut val: u32 = 0;
    while val < x
        invariant
            val <= x,
            prod == capped(factorial_spec(val as nat)),
        decreases x - val,
    {
        val += 1;
        prod = cap_mul(
            Some(val),
            prod,
            Ghost(val as nat),
            Ghost(factorial_spec((val - 1) as nat)),
        );
    }
    prod
}

/// The product of the numbers from 1 to `x`.
pub fn factorial(x: u32) -> (r: u32)
    requires
        factorial_spec(x as nat) <= u32::MAX,
    ensures
        r == factorial_spec(x as nat),
{
    checked_factorial(x).unwrap()
}


/// One summand of `c_spec`.
pub open spec fn c_term(h: nat, m: nat, i: nat) -> nat {
    choose_spec(m, i) * choose_spec((h - 1) as nat, (i - 1) as nat) * two_pow(i)
}

/// The summands of `c_spec` from the first to the one numbered `upto`.
pub open spec fn c_sum(h: nat, m: nat, upto: nat) -> nat
    decreases upto,
{
    if upto == 0 {
        0
    } else {
        c_sum(h, m, (upto - 1) as nat) + c_term(h, m, upto)
    }
}

/// The sum over `i` from 1 to `min(m, h - 1) + 1` of
/// `choose(m, i) * choose(h - 1, i - 1) * 2^i`; 1 for `m = 0`, else 0 for
/// `h = 0`.
pub open spec fn c_spec(h: nat, m: nat) -> nat {
    if m == 0 {
        1
    } else if h == 0 {
        0
    } else {
        c_sum(
            h,
            m,
            if m <= h - 1 {
                m + 1
            } else {
                h
            },
        )
    }
}

/// One summand of `a_spec`.
pub open spec fn a_term(h: nat, m: nat, i: nat) -> nat {
    choose_spec(m, i) * choose_spec(h, i) * two_pow(i)
}

/// The first `count` summands of `a_spec`.
pub open spec fn a_sum(h: nat, m: nat, count: nat) -> nat
    decreases count,
{
    if count == 0 {
        0
    } else {
        a_sum(h, m, (count - 1) as nat) + a_term(h, m, (count - 1) as nat)
    }
}

/// The sum over `i` from 0 to `min(m, h) + 1` of
/// `choose(m, i) * choose(h, i) * 2^i`; 1 where `h` or `m` is 0.
pub open spec fn a_spec(h: nat, m: nat) -> nat {
    if h == 0 || m == 0 {
        1
    } else {
        a_sum(
            h,
            m,
            if m <= h {
                m + 2
            } else {
                h + 2
            },
        )
    }
}

/// `c_spec(h, m)` where it fits a `u32`, `None` where it does not.
pub fn checked_c(h: u32, m: u32) -> (r: Option<u32>)
    ensures
        r == capped(c_spec(h as nat, m as nat)),
{
    if m == 0 {
        return Some(1);
    }
    if h == 0 {
        return Some(0);
    }
    let top: u32 = if m <= h - 1 {
        m + 1
    } else {
        h
    };
    let mut sum: Option<u32> = Some(0);
    let mut i: u32 = 0;
    while i < top
        invariant
            i <= top,
            h >= 1,
            sum == capped(c_sum(h as nat, m as nat, i as nat)),
        decreases top - i,
    {
        let k: u32 = i + 1;
        let ghost x = choose_spec(m as nat, k as nat);
        let ghost y = choose_spec((h - 1) as nat, (k - 1) as nat);
        let ways = cap_mul(checked_choose(m, k), checked_choose(h - 1, k - 1), Ghost(x), Ghost(y));
        let term = cap_mul(ways, cap_two_pow(k), Ghost(x * y), Ghost(two_pow(k as nat)));
        sum = cap_add(
            sum,
            term,
            Ghost(c_sum(h as nat, m as nat, i as nat)),
            Ghost(c_term(h as nat, m as nat, k as nat)),
        );
        i += 1;
    }
    sum
}

/// The sum over `i` from 1 to `min(m, h - 1) + 1` of
/// `choose(m, i) * choose(h - 1, i - 1) * 2^i`; 1 for `m = 0`, else 0 for
/// `h = 0`.
pub fn c(h: u32, m: u32) -> (r: u32)
    requires
        c_spec(h as nat, m as nat) <= u32::MAX,
    ensures
        r == c_spec(h as nat, m as nat),
{
    checked_c(h, m).unwrap()
}

/// `a_spec(h, m)` where it fits a `u32`, `None` where it does not.
pub fn checked_a(h: u32, m: u32) -> (r: Option<u32>)
    ensures
        r == capped(a_spec(h as nat, m as nat)),
{
    if h == 0 || m == 0 {
        return Some(1);
    }
    let low: u32 = if m <= h {
        m
    } else {
        h
    };
    let mut sum: Option<u32> = Some(0);
    let mut i: u32 = 0;
    loop
        invariant_except_break
            sum == capped(a_sum(h as nat, m as nat, i as nat)),
        invariant
            i <= low,
            low == if m <= h {
                m
            } else {
                h
            },
            h >= 1,
            m >= 1,
        ensures
            sum == capped(a_sum(h as nat, m as nat, (low + 1) as nat)),
        decreases low - i,
    {
        let ghost x = choose_spec(m as nat, i as nat);
        let ghost y = choose_spec(h as nat, i as nat);
        let ways = cap_mul(checked_choose(m, i), checked_choose(h, i), Ghost(x), Ghost(y));
        let term = cap_mul(ways, cap_two_pow(i), Ghost(x * y), Ghost(two_pow(i as nat)));
        sum = cap_add(
            sum,
            term,
            Ghost(a_sum(h as nat, m as nat, i as nat)),
            Ghost(a_term(h as nat, m as nat, i as nat)),
        );
        if i == low {
            break;
        }
        i += 1;
    }
    proof {
        // the summand behind the last one is 0: it picks more than there is
        let last = (low + 1) as nat;
        if m <= h {
            lemma_choose_beyond(m as nat, last);
        } else {
            lemma_choose_beyond(h as nat, last);
        }
        assert(a_term(h as nat, m as nat, last) == 0) by (nonlinear_arith)
            requires
                choose_spec(m as nat, last) == 0 || choose_spec(h as nat, last) == 0,
                a_term(h as nat, m as nat, last) == choose_spec(m as nat, last) * choose_spec(
                    h as nat,
                    last,
                ) * two_pow(last),
        ;
        assert(a_sum(h as nat, m as nat, last + 1) == a_sum(h as nat, m as nat, last) + a_term(
            h as nat,
            m as nat,
            last,
        ));
    }
    sum
}

/// The sum over `i` from 0 to `min(m, h) + 1` of
/// `choose(m, i) * choose(h, i) * 2^i`; 1 where `h` or `m` is 0.
pub fn a(h: u32, m: u32) -> (r: u32)
    requires
        a_spec(h as nat, m as nat) <= u32::MAX,
    ensures
        r == a_spec(h as nat, m as nat),
{
    checked_a(h, m).unwrap()
}

/// The greatest common divisor, by Euclid's steps; `gcd_spec(a, 0)` is `a`.
pub open spec fn gcd_spec(a: nat, b: nat) -> nat
    decreases b,
{
    if b == 0 {
        a
    } else {
        gcd_spec(b, a % b)
    }
}

/// `d` divides both `a` and `b`.
pub open spec fn divides_both(d: nat, a: nat, b: nat) -> bool {
    d > 0 && a % d == 0 && b % d == 0
}

/// A number that divides `y` divides `x` exactly when it divides the
/// remainder of `x` by `y`.
pub proof fn lemma_divides_remainder(d: nat, x: nat, y: nat)
    requires
        d > 0,
        y > 0,
        y % d == 0,
    ensures
        (x % d == 0) == ((x % y) % d == 0),
{
    let q = x / y;
    let k = y / d;
    vstd::arithmetic::div_mod::lemma_fundamental_div_mod(x as int, y as int);
    vstd::arithmetic::div_mod::lemma_fundamental_div_mod(y as int, d as int);
    assert(y == d * k);
    assert(x == d * (k * q) + x % y) by (nonlinear_arith)
        requires
            x == y * q + x % y,
            y == d * k,
    ;
    vstd::arithmetic::div_mod::lemma_mod_multiples_vanish(
        (k * q) as int,
        (x % y) as int,
        d as int,
    );
    assert(d * (k * q) == (k * q) * d) by (nonlinear_arith);
}

/// `gcd_spec(a, b)` divides `a` and `b`, and whatever divides both divides
/// it; it is 0 only where both are 0.
pub proof fn lemma_gcd_spec(a: nat, b: nat)
    ensures
        (gcd_spec(a, b) == 0) == (a == 0 && b == 0),
        gcd_spec(a, b) > 0 ==> divides_both(gcd_spec(a, b), a, b),
        forall|d: nat| #[trigger] divides_both(d, a, b) ==> gcd_spec(a, b) % d == 0,
    decreases b,
{
    let r = gcd_spec(a, b);
    if b == 0 {
        if a > 0 {
            vstd::arithmetic::div_mod::lemma_mod_self_0(a as int);
        }
    } else {
        vstd::arithmetic::div_mod::lemma_mod_bound(a as int, b as int);
        lemma_gcd_spec(b, a % b);
        assert(r > 0);
        lemma_divides_remainder(r, a, b);
        assert forall|d: nat| #[trigger] divides_both(d, a, b) implies r % d == 0 by {
            lemma_divides_remainder(d, a, b);
            assert(divides_both(d, b, a % b));
        }
    }
}

/// The greatest common divisor of `a` and `b`; `a` where `b` is 0.
pub fn gcd(a: u32, b: u32) -> (r: u32)
    ensures
        r == gcd_spec(a as nat, b as nat),
        (r == 0) == (a == 0 && b == 0),
        r > 0 ==> divides_both(r as nat, a as nat, b as nat),
        forall|d: nat| #[trigger] divides_both(d, a as nat, b as nat) ==> r as nat % d == 0,
{
    let mut x = a;
    let mut y = b;
    while y != 0
        invariant
            gcd_spec(x as nat, y as nat) == gcd_spec(a as nat, b as nat),
        decreases y,
    {
        let t = y;
        y = x % y;
        x = t;
    }
    proof {
        lemma_gcd_spec(a as nat, b as nat);
    }
    x
}

/// The divisors of `n`, in rising order.
#[inline]
pub fn divisors(n: u32) -> (r: Vec<u32>)
    ensures
        forall|i: int| 0 <= i < r@.len() ==> 1 <= #[trigger] r@[i] <= n && n % r@[i] == 0,
        forall|i: int, j: int| 0 <= i < j < r@.len() ==> r@[i] < r@[j],
        forall|d: u32| 1 <= d <= n && n % d == 0 ==> r@.contains(d),
{
    let mut r: Vec<u32> = Vec::new();
    let mut x: u32 = 0;
    while x < n
        invariant
            x <= n,
            forall|i: int| 0 <= i < r@.len() ==> 1 <= #[trigger] r@[i] <= x && n % r@[i] == 0,
            forall|i: int, j: int| 0 <= i < j < r@.len() ==> r@[i] < r@[j],
            forall|d: u32| 1 <= d <= x && n % d == 0 ==> r@.contains(d),
        decreases n - x,
    {
        x += 1;
        if n % x == 0 {
            let ghost before = r@;
            r.push(x);
            proof {
                assert forall|d: u32| 1 <= d <= x && n % d == 0 implies r@.contains(d) by {
                    if d == x {
                        assert(r@[r@.len() - 1] == d);
                    } else {
                        assert(before.contains(d));
                        let i = choose|i: int| 0 <= i < before.len() && before[i] == d;
                        assert(r@[i] == d);
                    }
                }
            }
        }
    }
    r
}

/// Whether each entry is divisible by the one behind it.
pub fn is_invariant(v: &Vec<u32>) -> (r: bool)
    requires
        forall|i: int| 1 <= i < v@.len() ==> v@[i] != 0,
    ensures
        r == forall|i: int| 1 <= i < v@.len() ==> v@[i - 1] % #[trigger] v@[i] == 0,
{
    let mut i: usize = 1;
    while i < v.len()
        invariant
            1 <= i,
            forall|j: int| 1 <= j < v@.len() ==> v@[j] != 0,
            forall|j: int| 1 <= j < i && j < v@.len() ==> v@[j - 1] % #[trigger] v@[j] == 0,
        decreases v@.len() - i,
    {
        if v[i - 1] % v[i] != 0 {
            return false;
        }
        i += 1;
    }
    true
}


/// `d` is a divisor of `n`.
pub open spec fn is_divisor(d: nat, n: nat) -> bool {
    1 <= d <= n && n % d == 0
}

/// What the divisor `d` of `n` contributes to `v(g, n, h)`.
pub open spec fn v_term(g: nat, n: nat, h: nat, d: nat) -> nat {
    if d == 1 || gcd_spec(d, g) > d - 1 {
        0
    } else {
        (((d - 1 - gcd_spec(d, g)) as nat) / h + 1) * (n / d)
    }
}

/// What the divisor `d` of `n` contributes to `v_signed(n, h)`.
pub open spec fn v_signed_term(n: nat, h: nat, d: nat) -> nat {
    if d == 1 {
        0
    } else {
        (2 * (((d - 2) as nat) / (2 * h)) + 1) * (n / d)
    }
}

/// `itertools::max` returns the greatest of the values it is given, `None`
/// where it is given none.
#[verifier::external_body]
fn max_of(values: &Vec<u32>) -> (r: Option<u32>)
    ensures
        values@.len() == 0 ==> r is None,
        values@.len() > 0 ==> r is Some && values@.contains(r->0) && forall|i: int|
            0 <= i < values@.len() ==> values@[i] <= r->0,
{
    itertools::max(values.iter().copied())
}

/// A divisor of `n` above half of `n` is `n` itself.
proof fn lemma_top_divisor(d: nat, n: nat)
    requires
        is_divisor(d, n),
        d > n / 2,
    ensures
        d == n,
{
    let q = n / d;
    vstd::arithmetic::div_mod::lemma_fundamental_div_mod(n as int, d as int);
    assert(n == d * q);
    assert(q >= 1) by (nonlinear_arith)
        requires
            n == d * q,
            n >= 1,
            d >= 1,
            q >= 0,
    ;
    if q >= 2 {
        assert(d * q >= 2 * d) by (nonlinear_arith)
            requires
                q >= 2,
                d >= 0,
        ;
    } else {
        assert(d * q == d) by (nonlinear_arith)
            requires
                q == 1,
        ;
    }
}

/// A count of at most `d` times the number of times `d` goes into `n` is at
/// most `n`.
proof fn lemma_share(count: nat, d: nat, n: nat)
    requires
        count <= d,
        d >= 1,
    ensures
        count * (n / d) <= n,
{
    vstd::arithmetic::div_mod::lemma_fundamental_div_mod(n as int, d as int);
    vstd::arithmetic::div_mod::lemma_mod_bound(n as int, d as int);
    let q = n / d;
    assert(count * q <= d * q) by (nonlinear_arith)
        requires
            count <= d,
            q >= 0,
    ;
}

fn v_value(g: u32, n: u32, h: u32, d: u32) -> (r: u32)
    requires
        h >= 1,
        is_divisor(d as nat, n as nat),
    ensures
        r == v_term(g as nat, n as nat, h as nat, d as nat),
{
    let common = gcd(d, g);
    if d == 1 || common > (d - 1) {
        0
    } else {
        let count: u32 = ((d - 1 - common) / h) + 1;
        proof {
            let x = (d - 1 - common) as nat;
            assert(x / (h as nat) <= x) by (nonlinear_arith)
                requires
                    h >= 1,
            ;
            lemma_share(count as nat, d as nat, n as nat);
        }
        count * (n / d)
    }
}

fn v_signed_value(n: u32, h: u32, d: u32) -> (r: u32)
    requires
        h >= 1,
        2 * h <= u32::MAX,
        is_divisor(d as nat, n as nat),
    ensures
        r == v_signed_term(n as nat, h as nat, d as nat),
{
    if d == 1 {
        0
    } else {
        proof {
            let x = (d - 2) as nat;
            let t = (2 * h) as nat;
            assert(2 * (x / t) <= x) by (nonlinear_arith)
                requires
                    t >= 2,
                    x >= 0,
            ;
        }
        let count: u32 = 2 * ((d - 2) / (2 * h)) + 1;
        proof {
            lemma_share(count as nat, d as nat, n as nat);
        }
        count * (n / d)
    }
}

/// What the divisor `d` of `n` contributes, to `v_signed(n, h)` or to
/// `v(g, n, h)`.
pub open spec fn divisor_term(signed: bool, g: nat, n: nat, h: nat, d: nat) -> nat {
    if signed {
        v_signed_term(n, h, d)
    } else {
        v_term(g, n, h, d)
    }
}

/// `x` is what some divisor of `n` contributes.
pub open spec fn is_divisor_term(x: nat, signed: bool, g: nat, n: nat, h: nat) -> bool {
    exists|e: nat| is_divisor(e, n) && x == #[trigger] divisor_term(signed, g, n, h, e)
}

/// `x` is one of the values.
pub open spec fn holds_value(values: Seq<u32>, x: nat) -> bool {
    exists|i: int| 0 <= i < values.len() && #[trigger] values[i] == x
}

/// The greatest of what the divisors of `n` contribute. The divisors are
/// those up to half of `n`, and `n`.
fn best_divisor_term(signed: bool, g: u32, n: u32, h: u32) -> (r: u32)
    requires
        n >= 1,
        h >= 1,
        signed ==> 2 * h <= u32::MAX,
    ensures
        is_divisor_term(r as nat, signed, g as nat, n as nat, h as nat),
        forall|d: nat|
            is_divisor(d, n as nat) ==> #[trigger] divisor_term(
                signed,
                g as nat,
                n as nat,
                h as nat,
                d,
            ) <= r,
{
    let mut values: Vec<u32> = Vec::new();
    let half: u32 = n / 2;
    let mut d: u32 = 0;
    while d < half
        invariant
            d <= half,
            half == n / 2,
            h >= 1,
            signed ==> 2 * h <= u32::MAX,
            n >= 1,
            forall|i: int|
                0 <= i < values@.len() ==> is_divisor_term(
                    #[trigger] values@[i] as nat,
                    signed,
                    g as nat,
                    n as nat,
                    h as nat,
                ),
            forall|e: nat|
                is_divisor(e, n as nat) && e <= d ==> holds_value(
                    values@,
                    #[trigger] divisor_term(signed, g as nat, n as nat, h as nat, e),
                ),
        decreases half - d,
    {
        d += 1;
        if n % d == 0 {
            let ghost before = values@;
            let term = if signed {
                v_signed_value(n, h, d)
            } else {
                v_value(g, n, h, d)
            };
            values.push(term);
            proof {
                assert(is_divisor(d as nat, n as nat));
                assert(term == divisor_term(signed, g as nat, n as nat, h as nat, d as nat));
                assert forall|i: int| 0 <= i < values@.len() implies is_divisor_term(
                    #[trigger] values@[i] as nat,
                    signed,
                    g as nat,
                    n as nat,
                    h as nat,
                ) by {
                    if i < before.len() {
                        assert(values@[i] == before[i]);
                    }
                }
                assert forall|e: nat| is_divisor(e, n as nat) && e <= d implies holds_value(
                    values@,
                    #[trigger] divisor_term(signed, g as nat, n as nat, h as nat, e),
                ) by {
                    let x = divisor_term(signed, g as nat, n as nat, h as nat, e);
                    if e == d {
                        assert(values@[before.len() as int] == x);
                    } else {
                        assert(holds_value(before, x));
                        let i = choose|i: int| 0 <= i < before.len() && #[trigger] before[i] == x;
                        assert(values@[i] == x);
                    }
                }
            }
        }
    }
    let ghost before = values@;
    proof {
        vstd::arithmetic::div_mod::lemma_mod_self_0(n as int);
        assert(is_divisor(n as nat, n as nat));
    }
    let term = if signed {
        v_signed_value(n, h, n)
    } else {
        v_value(g, n, h, n)
    };
    values.push(term);
    let best = max_of(&values);
    let r = best.unwrap();
    proof {
        assert(term == divisor_term(signed, g as nat, n as nat, h as nat, n as nat));
        let i = choose|i: int| 0 <= i < values@.len() && values@[i] == r;
        if i < before.len() {
            assert(values@[i] == before[i]);
        }
        assert forall|e: nat| is_divisor(e, n as nat) implies #[trigger] divisor_term(
            signed,
            g as nat,
            n as nat,
            h as nat,
            e,
        ) <= r by {
            let x = divisor_term(signed, g as nat, n as nat, h as nat, e);
            if e <= half {
                assert(holds_value(before, x));
                let j = choose|j: int| 0 <= j < before.len() && #[trigger] before[j] == x;
                assert(values@[j] == before[j]);
            } else {
                lemma_top_divisor(e, n as nat);
                assert(values@[before.len() as int] == term);
            }
        }
    }
    r
}

/// The greatest of what the divisors of `n` contribute: for the divisor `d`,
/// nothing if `d` is 1 or divides `g`, else
/// `((d - 1 - gcd(d, g)) / h + 1) * (n / d)`.
pub fn v(g: u32, n: u32, h: u32) -> (r: u32)
    requires
        n >= 1,
        h >= 1,
    ensures
        exists|d: nat| is_divisor(d, n as nat) && r == #[trigger] v_term(
            g as nat,
            n as nat,
            h as nat,
            d,
        ),
        forall|d: nat|
            is_divisor(d, n as nat) ==> #[trigger] v_term(g as nat, n as nat, h as nat, d) <= r,
{
    let r = best_divisor_term(false, g, n, h);
    proof {
        let e = choose|e: nat|
            is_divisor(e, n as nat) && r as nat == #[trigger] divisor_term(
                false,
                g as nat,
                n as nat,
                h as nat,
                e,
            );
        assert(r == v_term(g as nat, n as nat, h as nat, e));
        assert forall|d: nat| is_divisor(d, n as nat) implies #[trigger] v_term(
            g as nat,
            n as nat,
            h as nat,
            d,
        ) <= r by {
            assert(divisor_term(false, g as nat, n as nat, h as nat, d) <= r);
        }
    }
    r
}

/// The greatest of what the divisors of `n` contribute: for the divisor `d`,
/// nothing if `d` is 1, else `(2 * ((d - 2) / (2 * h)) + 1) * (n / d)`.
pub fn v_signed(n: u32, h: u32) -> (r: u32)
    requires
        n >= 1,
        h >= 1,
        2 * h <= u32::MAX,
    ensures
        exists|d: nat| is_divisor(d, n as nat) && r == #[trigger] v_signed_term(
            n as nat,
            h as nat,
            d,
        ),
        forall|d: nat| is_divisor(d, n as nat) ==> #[trigger] v_signed_term(n as nat, h as nat, d)
            <= r,
{
    let r = best_divisor_term(true, 0, n, h);
    proof {
        let e = choose|e: nat|
            is_divisor(e, n as nat) && r as nat == #[trigger] divisor_term(
                true,
                0,
                n as nat,
                h as nat,
                e,
            );
        assert(r == v_signed_term(n as nat, h as nat, e));
        assert forall|d: nat| is_divisor(d, n as nat) implies #[trigger] v_signed_term(
            n as nat,
            h as nat,
            d,
        ) <= r by {
            assert(divisor_term(true, 0, n as nat, h as nat, d) <= r);
        }
    }
    r
}

} // verus!
