//! The mathematical model: a finite abelian group as a list of moduli, its
//! elements as coordinate tuples, its subsets as sets of such tuples.

use vstd::prelude::*;

verus! {

/// Every modulus is positive.
pub open spec fn valid_moduli(mods: Seq<nat>) -> bool {
    forall|i: int| 0 <= i < mods.len() ==> mods[i] >= 1
}

/// The number of elements of the group: the product of its moduli.
pub open spec fn group_size(mods: Seq<nat>) -> nat
    decreases mods.len(),
{
    if mods.len() == 0 {
        1
    } else {
        group_size(mods.drop_last()) * mods.last()
    }
}

/// `e` has one residue for each modulus.
pub open spec fn is_elem(e: Seq<nat>, mods: Seq<nat>) -> bool {
    e.len() == mods.len() && forall|i: int| 0 <= i < e.len() ==> e[i] < mods[i]
}

/// The elements of the group.
pub open spec fn group_elems(mods: Seq<nat>) -> Set<Seq<nat>> {
    Set::new(|e: Seq<nat>| is_elem(e, mods))
}

/// The identity: every coordinate is 0.
pub open spec fn zero_elem(mods: Seq<nat>) -> Seq<nat> {
    Seq::new(mods.len(), |i: int| 0nat)
}

/// The sum of two elements, coordinate by coordinate.
pub open spec fn elem_add(x: Seq<nat>, y: Seq<nat>, mods: Seq<nat>) -> Seq<nat> {
    Seq::new(mods.len(), |i: int| (((x[i] + y[i]) as int) % (mods[i] as int)) as nat)
}

/// The inverse of an element, coordinate by coordinate.
pub open spec fn elem_neg(x: Seq<nat>, mods: Seq<nat>) -> Seq<nat> {
    Seq::new(mods.len(), |i: int| ((mods[i] - x[i]) % (mods[i] as int)) as nat)
}

/// `a` is a finite set of elements of the group.
pub open spec fn is_subset(a: Set<Seq<nat>>, mods: Seq<nat>) -> bool {
    a.finite() && forall|e: Seq<nat>| a.contains(e) ==> is_elem(e, mods)
}

/// `a` is a set of `k` elements of the group.
pub open spec fn is_subset_with(a: Set<Seq<nat>>, mods: Seq<nat>, k: nat) -> bool {
    is_subset(a, mods) && a.len() == k
}

/// The element of a cyclic group that stands for the residue `x`.
pub open spec fn residue(x: nat) -> Seq<nat> {
    seq![x]
}

/// The subset of a cyclic group that stands for a set of residues.
pub open spec fn residues(s: Set<nat>) -> Set<Seq<nat>> {
    Set::new(|e: Seq<nat>| e.len() == 1 && s.contains(e[0]))
}

/// The moduli of the cyclic group of order `n`.
pub open spec fn cyclic(n: nat) -> Seq<nat> {
    seq![n]
}

/// What `elem_add`, `elem_neg` and `zero_elem` hold, coordinate by coordinate.
pub proof fn lemma_coordinates(x: Seq<nat>, y: Seq<nat>, mods: Seq<nat>)
    ensures
        elem_add(x, y, mods).len() == mods.len(),
        elem_neg(x, mods).len() == mods.len(),
        zero_elem(mods).len() == mods.len(),
        forall|i: int|
            0 <= i < mods.len() && mods[i] > 0 ==> #[trigger] elem_add(x, y, mods)[i] == ((x[i]
                + y[i]) as int) % (mods[i] as int),
        forall|i: int|
            0 <= i < mods.len() && mods[i] > 0 ==> #[trigger] elem_neg(x, mods)[i] == (mods[i]
                - x[i]) % (mods[i] as int),
        forall|i: int| 0 <= i < mods.len() ==> #[trigger] zero_elem(mods)[i] == 0,
{
}

/// The sum of two elements is an element.
pub proof fn lemma_add_is_elem(x: Seq<nat>, y: Seq<nat>, mods: Seq<nat>)
    requires
        valid_moduli(mods),
    ensures
        is_elem(elem_add(x, y, mods), mods),
{
    lemma_coordinates(x, y, mods);
    assert forall|i: int| 0 <= i < mods.len() implies elem_add(x, y, mods)[i] < mods[i] by {
        vstd::arithmetic::div_mod::lemma_mod_bound((x[i] + y[i]) as int, mods[i] as int);
    }
}

/// The inverse of an element is an element.
pub proof fn lemma_neg_is_elem(x: Seq<nat>, mods: Seq<nat>)
    requires
        valid_moduli(mods),
    ensures
        is_elem(elem_neg(x, mods), mods),
{
    lemma_coordinates(x, x, mods);
    assert forall|i: int| 0 <= i < mods.len() implies elem_neg(x, mods)[i] < mods[i] by {
        vstd::arithmetic::div_mod::lemma_mod_bound(mods[i] - x[i], mods[i] as int);
    }
}

/// The identity is an element.
pub proof fn lemma_zero_is_elem(mods: Seq<nat>)
    requires
        valid_moduli(mods),
    ensures
        is_elem(zero_elem(mods), mods),
{
    lemma_coordinates(mods, mods, mods);
}

/// Addition does not depend on the order of its arguments.
pub proof fn lemma_add_commutes(x: Seq<nat>, y: Seq<nat>, mods: Seq<nat>)
    requires
        valid_moduli(mods),
    ensures
        elem_add(x, y, mods) == elem_add(y, x, mods),
{
    lemma_coordinates(x, y, mods);
    lemma_coordinates(y, x, mods);
    assert(elem_add(x, y, mods) =~= elem_add(y, x, mods));
}

/// Addition does not depend on how its arguments are grouped.
pub proof fn lemma_add_associates(x: Seq<nat>, y: Seq<nat>, z: Seq<nat>, mods: Seq<nat>)
    requires
        valid_moduli(mods),
    ensures
        elem_add(elem_add(x, y, mods), z, mods) == elem_add(x, elem_add(y, z, mods), mods),
{
    let xy = elem_add(x, y, mods);
    let yz = elem_add(y, z, mods);
    let l = elem_add(xy, z, mods);
    let r = elem_add(x, yz, mods);
    lemma_coordinates(x, y, mods);
    lemma_coordinates(y, z, mods);
    lemma_coordinates(xy, z, mods);
    lemma_coordinates(x, yz, mods);
    assert forall|i: int| 0 <= i < mods.len() implies l[i] == r[i] by {
        let m = mods[i] as int;
        vstd::arithmetic::div_mod::lemma_add_mod_noop((x[i] + y[i]) as int, z[i] as int, m);
        vstd::arithmetic::div_mod::lemma_add_mod_noop(x[i] as int, (y[i] + z[i]) as int, m);
        vstd::arithmetic::div_mod::lemma_mod_twice((x[i] + y[i]) as int, m);
        vstd::arithmetic::div_mod::lemma_mod_twice((y[i] + z[i]) as int, m);
        vstd::arithmetic::div_mod::lemma_add_mod_noop(xy[i] as int, z[i] as int, m);
        vstd::arithmetic::div_mod::lemma_add_mod_noop(x[i] as int, yz[i] as int, m);
    }
    assert(l =~= r);
}

/// Adding the identity changes nothing.
pub proof fn lemma_add_zero(x: Seq<nat>, mods: Seq<nat>)
    requires
        valid_moduli(mods),
        is_elem(x, mods),
    ensures
        elem_add(x, zero_elem(mods), mods) == x,
        elem_add(zero_elem(mods), x, mods) == x,
{
    lemma_coordinates(x, zero_elem(mods), mods);
    lemma_coordinates(zero_elem(mods), x, mods);
    assert forall|i: int| 0 <= i < mods.len() implies (x[i] + 0) % mods[i] == x[i] by {
        vstd::arithmetic::div_mod::lemma_small_mod(x[i], mods[i]);
    }
    assert(elem_add(x, zero_elem(mods), mods) =~= x);
    assert(elem_add(zero_elem(mods), x, mods) =~= x);
}

/// The order of a cyclic group is its modulus.
pub proof fn lemma_cyclic_size(n: nat)
    ensures
        group_size(cyclic(n)) == n,
{
    assert(cyclic(n).len() == 1);
    assert(cyclic(n).last() == n);
    assert(cyclic(n).drop_last() =~= Seq::<nat>::empty());
    assert(group_size(Seq::<nat>::empty()) == 1);
    assert(group_size(cyclic(n)) == group_size(cyclic(n).drop_last()) * cyclic(n).last());
}

/// A set of residues and the subset that stands for it have the same size.
pub proof fn lemma_residues_len(s: Set<nat>)
    requires
        s.finite(),
    ensures
        residues(s).finite(),
        residues(s).len() == s.len(),
{
    let f = |x: nat| residue(x);
    assert forall|x: nat, y: nat| #[trigger] f(x) == #[trigger] f(y) implies x == y by {
        assert(residue(x)[0] == x);
        assert(residue(y)[0] == y);
    }
    assert(vstd::relations::injective_on(f, s));
    assert forall|e: Seq<nat>| residues(s).contains(e) == s.map(f).contains(e) by {
        if residues(s).contains(e) {
            assert(e =~= residue(e[0]));
            assert(s.contains(e[0]) && f(e[0]) == e);
        }
        if s.map(f).contains(e) {
            let x = choose|x: nat| s.contains(x) && f(x) == e;
            assert(e[0] == x);
        }
    }
    assert(residues(s) =~= s.map(f));
    vstd::set_lib::lemma_map_size(s, residues(s), f);
}

/// A set of residues below `n` stands for a subset of the cyclic group of
/// order `n`.
pub proof fn lemma_residues_subset(s: Set<nat>, n: nat)
    requires
        s.finite(),
        forall|x: nat| s.contains(x) ==> x < n,
    ensures
        is_subset(residues(s), cyclic(n)),
{
    lemma_residues_len(s);
}


/// The size of a group is positive.
pub proof fn lemma_group_size_positive(mods: Seq<nat>)
    requires
        valid_moduli(mods),
    ensures
        group_size(mods) >= 1,
    decreases mods.len(),
{
    if mods.len() > 0 {
        lemma_group_size_positive(mods.drop_last());
        vstd::arithmetic::mul::lemma_mul_strictly_positive(
            group_size(mods.drop_last()) as int,
            mods.last() as int,
        );
    }
}

/// The elements of the group whose last coordinate is below `j`.
pub open spec fn elems_below(mods: Seq<nat>, j: nat) -> Set<Seq<nat>> {
    Set::new(|e: Seq<nat>| is_elem(e, mods) && e.len() >= 1 && e.last() < j)
}

/// There are `j` times as many elements with a last coordinate below `j` as
/// the group without its last factor has elements.
proof fn lemma_elems_below(mods: Seq<nat>, j: nat)
    requires
        mods.len() >= 1,
        j <= mods.last(),
        group_elems(mods.drop_last()).finite(),
    ensures
        elems_below(mods, j).finite(),
        elems_below(mods, j).len() == j * group_elems(mods.drop_last()).len(),
    decreases j,
{
    let m0 = mods.drop_last();
    let g0 = group_elems(m0);
    if j == 0 {
        assert(elems_below(mods, 0) =~= Set::<Seq<nat>>::empty());
    } else {
        let d = (j - 1) as nat;
        lemma_elems_below(mods, d);
        let f = |e: Seq<nat>| e.push(d);
        let layer = g0.map(f);
        assert(vstd::relations::injective_on(f, g0)) by {
            assert forall|x: Seq<nat>, y: Seq<nat>|
                g0.contains(x) && g0.contains(y) && #[trigger] f(x) == #[trigger] f(y) implies x
                == y by {
                assert(x =~= x.push(d).drop_last());
                assert(y =~= y.push(d).drop_last());
            }
        }
        vstd::set_lib::lemma_map_size(g0, layer, f);
        let lower = elems_below(mods, d);
        assert forall|e: Seq<nat>| elems_below(mods, j).contains(e) == (lower.contains(e)
            || layer.contains(e)) by {
            if elems_below(mods, j).contains(e) && !lower.contains(e) {
                let e0 = e.drop_last();
                assert(e.last() == d);
                assert(e =~= e0.push(d));
                assert(is_elem(e0, m0)) by {
                    assert forall|i: int| 0 <= i < e0.len() implies e0[i] < m0[i] by {
                        assert(e0[i] == e[i]);
                    }
                }
                assert(g0.contains(e0) && f(e0) == e);
            }
            if layer.contains(e) {
                let e0 = choose|e0: Seq<nat>| g0.contains(e0) && f(e0) == e;
                assert(is_elem(e, mods)) by {
                    assert forall|i: int| 0 <= i < e.len() implies e[i] < mods[i] by {
                        if i < e0.len() {
                            assert(e[i] == e0[i]);
                            assert(m0[i] == mods[i]);
                        }
                    }
                }
            }
        }
        assert(elems_below(mods, j) =~= lower.union(layer));
        assert(lower.disjoint(layer)) by {
            assert forall|e: Seq<nat>| !(lower.contains(e) && layer.contains(e)) by {
                if layer.contains(e) {
                    let e0 = choose|e0: Seq<nat>| g0.contains(e0) && f(e0) == e;
                    assert(e.last() == d);
                }
            }
        }
        vstd::set_lib::lemma_set_disjoint_lens(lower, layer);
        assert(j * g0.len() == d * g0.len() + g0.len()) by (nonlinear_arith)
            requires
                j == d + 1,
        ;
    }
}

/// A group has finitely many elements: as many as the product of its moduli.
pub proof fn lemma_group_elems(mods: Seq<nat>)
    ensures
        group_elems(mods).finite(),
        group_elems(mods).len() == group_size(mods),
    decreases mods.len(),
{
    if mods.len() == 0 {
        let none = Seq::<nat>::empty();
        assert forall|e: Seq<nat>| group_elems(mods).contains(e) implies e == none by {
            assert(e =~= none);
        }
        assert(is_elem(none, mods));
        assert(group_elems(mods) =~= Set::<Seq<nat>>::empty().insert(none));
    } else {
        lemma_group_elems(mods.drop_last());
        lemma_elems_below(mods, mods.last());
        assert(group_elems(mods) =~= elems_below(mods, mods.last()));
        assert(group_size(mods.drop_last()) * mods.last() == mods.last() * group_size(
            mods.drop_last(),
        )) by (nonlinear_arith);
    }
}

/// A subset of a group has at most as many members as the group has elements.
pub proof fn lemma_subset_size(a: Set<Seq<nat>>, mods: Seq<nat>)
    requires
        forall|e: Seq<nat>| a.contains(e) ==> is_elem(e, mods),
    ensures
        is_subset(a, mods),
        a.len() <= group_size(mods),
{
    lemma_group_elems(mods);
    assert(a.subset_of(group_elems(mods)));
    vstd::set_lib::lemma_len_subset(a, group_elems(mods));
}

/// A subset of a group has as many members as the group has elements exactly
/// when it is the whole group.
pub proof fn lemma_full_is_whole(a: Set<Seq<nat>>, mods: Seq<nat>)
    requires
        is_subset(a, mods),
    ensures
        (a.len() == group_size(mods)) == (a == group_elems(mods)),
{
    lemma_group_elems(mods);
    assert(a.subset_of(group_elems(mods)));
    if a.len() == group_size(mods) {
        vstd::set_lib::lemma_subset_equality(a, group_elems(mods));
    }
}


/// The number that an element stands for when its coordinates are read as
/// digits, the first one the lowest, each to the base of its modulus.
pub open spec fn elem_code(e: Seq<nat>, mods: Seq<nat>) -> nat
    decreases mods.len(),
{
    if mods.len() == 0 {
        0
    } else {
        elem_code(e.drop_last(), mods.drop_last()) + e.last() * group_size(mods.drop_last())
    }
}

/// The code of an element is below the size of the group.
pub proof fn lemma_code_below(e: Seq<nat>, mods: Seq<nat>)
    requires
        is_elem(e, mods),
    ensures
        elem_code(e, mods) < group_size(mods),
    decreases mods.len(),
{
    if mods.len() > 0 {
        let e0 = e.drop_last();
        let m0 = mods.drop_last();
        lemma_code_below(e0, m0);
        let g = group_size(m0) as int;
        let d = e.last() as int;
        let m = mods.last() as int;
        assert(d + 1 <= m);
        assert(d * g + g <= m * g) by (nonlinear_arith)
            requires
                d + 1 <= m,
                g >= 0,
        ;
        assert(g * m == m * g) by (nonlinear_arith);
    }
}

/// Different elements have different codes.
pub proof fn lemma_code_injective(e: Seq<nat>, f: Seq<nat>, mods: Seq<nat>)
    requires
        is_elem(e, mods),
        is_elem(f, mods),
        elem_code(e, mods) == elem_code(f, mods),
    ensures
        e == f,
    decreases mods.len(),
{
    if mods.len() == 0 {
        assert(e =~= f);
    } else {
        let e0 = e.drop_last();
        let f0 = f.drop_last();
        let m0 = mods.drop_last();
        lemma_code_below(e0, m0);
        lemma_code_below(f0, m0);
        let g = group_size(m0) as int;
        let a = elem_code(e0, m0) as int;
        let b = elem_code(f0, m0) as int;
        let x = e.last() as int;
        let y = f.last() as int;
        assert(x == y) by (nonlinear_arith)
            requires
                a + x * g == b + y * g,
                0 <= a < g,
                0 <= b < g,
        ;
        lemma_code_injective(e0, f0, m0);
        assert(e =~= e0.push(e.last()));
        assert(f =~= f0.push(f.last()));
    }
}

/// The identity has the code 0.
pub proof fn lemma_code_zero(mods: Seq<nat>)
    ensures
        elem_code(zero_elem(mods), mods) == 0,
    decreases mods.len(),
{
    if mods.len() > 0 {
        lemma_code_zero(mods.drop_last());
        assert(zero_elem(mods).drop_last() =~= zero_elem(mods.drop_last()));
        assert(zero_elem(mods).last() == 0);
        assert(0 * group_size(mods.drop_last()) == 0) by (nonlinear_arith);
    }
}

/// The element whose every coordinate is as high as it can be has the
/// highest code.
pub proof fn lemma_code_top(e: Seq<nat>, mods: Seq<nat>)
    requires
        is_elem(e, mods),
        forall|i: int| 0 <= i < e.len() ==> #[trigger] e[i] + 1 == mods[i],
    ensures
        elem_code(e, mods) + 1 == group_size(mods),
    decreases mods.len(),
{
    if mods.len() > 0 {
        let e0 = e.drop_last();
        let m0 = mods.drop_last();
        assert forall|i: int| 0 <= i < e0.len() implies #[trigger] e0[i] + 1 == m0[i] by {
            assert(e0[i] == e[i]);
        }
        lemma_code_top(e0, m0);
        let g = group_size(m0) as int;
        let d = e.last() as int;
        let m = mods.last() as int;
        assert(e[e.len() - 1] + 1 == mods[e.len() - 1]);
        assert(g - 1 + d * g + 1 == g * m) by (nonlinear_arith)
            requires
                d + 1 == m,
        ;
    }
}

/// The element after `e`: every coordinate before position `i` back to 0,
/// the one at `i` one higher.
pub open spec fn elem_after(e: Seq<nat>, i: int) -> Seq<nat> {
    Seq::new(
        e.len(),
        |j: int|
            if j < i {
                0nat
            } else if j == i {
                e[j] + 1
            } else {
                e[j]
            },
    )
}

/// Where every coordinate before position `i` is as high as it can be and
/// the one at `i` is not, the element after has the next code.
pub proof fn lemma_code_after(e: Seq<nat>, mods: Seq<nat>, i: int)
    requires
        is_elem(e, mods),
        0 <= i < e.len(),
        forall|j: int| 0 <= j < i ==> #[trigger] e[j] + 1 == mods[j],
        e[i] + 1 < mods[i],
    ensures
        is_elem(elem_after(e, i), mods),
        elem_code(elem_after(e, i), mods) == elem_code(e, mods) + 1,
    decreases mods.len(),
{
    let next = elem_after(e, i);
    let e0 = e.drop_last();
    let m0 = mods.drop_last();
    let g = group_size(m0) as int;
    if i == e.len() - 1 {
        assert forall|j: int| 0 <= j < e0.len() implies #[trigger] e0[j] + 1 == m0[j] by {
            assert(e0[j] == e[j]);
        }
        lemma_code_top(e0, m0);
        lemma_code_zero(m0);
        assert(next.drop_last() =~= zero_elem(m0));
        let d = e.last() as int;
        assert((d + 1) * g == d * g + g) by (nonlinear_arith);
    } else {
        assert forall|j: int| 0 <= j < i implies #[trigger] e0[j] + 1 == m0[j] by {
            assert(e0[j] == e[j]);
        }
        lemma_code_after(e0, m0, i);
        assert(next.drop_last() =~= elem_after(e0, i));
        assert(next.last() == e.last());
    }
}

/// The element with the code `c`.
pub open spec fn elem_of_code(c: nat, mods: Seq<nat>) -> Seq<nat>
    decreases mods.len(),
{
    if mods.len() == 0 {
        Seq::<nat>::empty()
    } else {
        let g = group_size(mods.drop_last());
        elem_of_code(c % g, mods.drop_last()).push(c / g)
    }
}

/// An element is the element with its code.
pub proof fn lemma_elem_of_code(e: Seq<nat>, mods: Seq<nat>)
    requires
        is_elem(e, mods),
    ensures
        elem_of_code(elem_code(e, mods), mods) == e,
    decreases mods.len(),
{
    if mods.len() == 0 {
        assert(e =~= Seq::<nat>::empty());
    } else {
        let e0 = e.drop_last();
        let m0 = mods.drop_last();
        assert(valid_moduli(m0)) by {
            assert forall|i: int| 0 <= i < m0.len() implies m0[i] >= 1 by {
                assert(e[i] < mods[i]);
            }
        }
        lemma_group_size_positive(m0);
        lemma_code_below(e0, m0);
        lemma_elem_of_code(e0, m0);
        let g = group_size(m0) as int;
        let c = elem_code(e, mods) as int;
        let d = e.last() as int;
        let low = elem_code(e0, m0) as int;
        assert(c == d * g + low);
        vstd::arithmetic::div_mod::lemma_fundamental_div_mod_converse(c, g, d, low);
        assert(e =~= e0.push(e.last()));
    }
}

/// The size of a group with one more factor.
pub proof fn lemma_group_size_push(mods: Seq<nat>, m: nat)
    ensures
        group_size(mods.push(m)) == group_size(mods) * m,
{
    assert(mods.push(m).drop_last() =~= mods);
}

/// The size of the group of the first factors is at most the size of the
/// group.
pub proof fn lemma_group_size_prefix(mods: Seq<nat>, k: int)
    requires
        valid_moduli(mods),
        0 <= k <= mods.len(),
    ensures
        1 <= group_size(mods.take(k)) <= group_size(mods),
    decreases mods.len() - k,
{
    lemma_group_size_positive(mods.take(k));
    if k < mods.len() {
        lemma_group_size_prefix(mods, k + 1);
        assert(mods.take(k + 1) =~= mods.take(k).push(mods[k]));
        lemma_group_size_push(mods.take(k), mods[k]);
        let g = group_size(mods.take(k)) as int;
        let m = mods[k] as int;
        assert(g <= g * m) by (nonlinear_arith)
            requires
                g >= 0,
                m >= 1,
        ;
    } else {
        assert(mods.take(k) =~= mods);
    }
}

} // verus!
