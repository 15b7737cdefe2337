use addcomb_comp::exactset::{
    all_elements, combinations_with_replacement, each_set_exact, each_set_exact_no_zero,
    each_set_exact_zero, elem_sub, empty_set, holds, merge, mod_sum, put, EachElement, GElem,
};
use addcomb_comp::fastset::FastSet;
use addcomb_comp::setlike::{Group, HFolds, SetLike};

use std::rc::Rc;

fn binom(n: u64, k: u64) -> u64 {
    if k > n {
        return 0;
    }
    let mut r: u64 = 1;
    for i in 0..k {
        r = r * (n - i) / (i + 1);
    }
    r
}

#[test]
fn sum_by_coordinates() {
    let g = Rc::new(vec![5, 7]);
    assert_eq!(mod_sum(&GElem(vec![4, 3]), &GElem(vec![3, 6]), &g), GElem(vec![2, 2]));
    assert_eq!(mod_sum(&GElem(vec![0, 0]), &GElem(vec![4, 6]), &g), GElem(vec![4, 6]));
    // the sum of two large residues does not wrap around the machine word
    let big = Rc::new(vec![4000000000]);
    assert_eq!(
        mod_sum(&GElem(vec![3999999999]), &GElem(vec![3999999999]), &big),
        GElem(vec![3999999998])
    );
}

#[test]
fn difference_by_coordinates() {
    assert_eq!(elem_sub(&GElem(vec![5, 7]), &GElem(vec![1, 7])), GElem(vec![4, 0]));
    assert_eq!(elem_sub(&GElem(vec![]), &GElem(vec![])), GElem(vec![]));
}

#[test]
fn same_and_copy() {
    let e = GElem(vec![1, 2, 3]);
    assert!(e.same(&GElem(vec![1, 2, 3])));
    assert!(!e.same(&GElem(vec![1, 2])));
    assert!(!e.same(&GElem(vec![1, 2, 4])));
    assert_eq!(e.copy(), e);
}

#[test]
fn picks_with_repeats_in_their_order() {
    let mut walk = combinations_with_replacement(3, 2);
    let mut seen: Vec<Vec<u32>> = Vec::new();
    loop {
        match walk.next() {
            None => break,
            Some(t) => seen.push(t),
        }
    }
    assert_eq!(
        seen,
        vec![vec![0, 0], vec![0, 1], vec![0, 2], vec![1, 1], vec![1, 2], vec![2, 2]]
    );
    assert!(walk.next().is_none());
}

#[test]
fn picks_with_repeats_are_counted() {
    for n in 1..=6u32 {
        for r in 0..=5u32 {
            let mut walk = combinations_with_replacement(n, r);
            let mut count = 0;
            loop {
                match walk.next() {
                    None => break,
                    Some(t) => {
                        assert_eq!(t.len(), r as usize);
                        for i in 1..t.len() {
                            assert!(t[i - 1] <= t[i]);
                        }
                        assert!(t.iter().all(|x| *x < n));
                        count += 1;
                    }
                }
            }
            assert_eq!(count, binom((n + r - 1) as u64, r as u64));
        }
    }
    // no pick of nothing is one pick
    let mut walk = combinations_with_replacement(0, 0);
    assert_eq!(walk.next(), Some(vec![]));
    assert_eq!(walk.next(), None);
}

#[test]
fn elements_first_coordinate_fastest() {
    let mut walk = EachElement { curr: vec![0, 0], mod_v: Rc::new(vec![2, 3]), first: true };
    let mut seen: Vec<Vec<u32>> = Vec::new();
    loop {
        match walk.next() {
            None => break,
            Some(e) => seen.push(e),
        }
    }
    assert_eq!(
        seen,
        vec![vec![0, 0], vec![1, 0], vec![0, 1], vec![1, 1], vec![0, 2], vec![1, 2]]
    );
}

#[test]
fn all_elements_of_a_group() {
    let g = Rc::new(vec![3, 1, 4]);
    let all = all_elements(&g, false);
    assert_eq!(all.len(), 12);
    assert_eq!(all[0], GElem(vec![0, 0, 0]));
    assert_eq!(all[11], GElem(vec![2, 0, 3]));
    let rest = all_elements(&g, true);
    assert_eq!(rest.len(), 11);
    assert_eq!(rest[0], GElem(vec![1, 0, 0]));
    // the group of one element
    assert_eq!(all_elements(&Rc::new(vec![1]), false), vec![GElem(vec![0])]);
    assert_eq!(all_elements(&Rc::new(vec![1]), true), Vec::<GElem>::new());
}

fn sets_of(mut walk: addcomb_comp::exactset::EachSetExact) -> Vec<Vec<Vec<u32>>> {
    let mut seen = Vec::new();
    loop {
        match walk.next() {
            None => break,
            Some(set) => {
                let mut s: Vec<Vec<u32>> = set.into_iter().map(|e| e.0).collect();
                s.sort();
                seen.push(s);
            }
        }
    }
    seen
}

#[test]
fn subsets_of_a_group_each_once() {
    let g = Rc::new(vec![2, 3]);
    for k in 0..=7u32 {
        let seen = sets_of(each_set_exact(k, &g));
        assert_eq!(seen.len() as u64, binom(6, k as u64));
        for s in &seen {
            assert_eq!(s.len(), k as usize);
        }
        let mut sorted = seen.clone();
        sorted.sort();
        sorted.dedup();
        assert_eq!(sorted.len(), seen.len());
    }
}

#[test]
fn subsets_in_their_order() {
    let g = Rc::new(vec![3]);
    assert_eq!(
        sets_of(each_set_exact(2, &g)),
        vec![vec![vec![0], vec![1]], vec![vec![0], vec![2]], vec![vec![1], vec![2]]]
    );
}

#[test]
fn subsets_with_and_without_the_identity() {
    let g = Rc::new(vec![2, 2]);
    let zero = vec![0, 0];
    let with = sets_of(each_set_exact_zero(2, &g));
    assert_eq!(with.len(), 3);
    assert!(with.iter().all(|s| s.contains(&zero) && s.len() == 2));
    let without = sets_of(each_set_exact_no_zero(2, &g));
    assert_eq!(without.len(), 3);
    assert!(without.iter().all(|s| !s.contains(&zero) && s.len() == 2));
    let mut all = with.clone();
    all.extend(without);
    all.sort();
    let mut plain = sets_of(each_set_exact(2, &g));
    plain.sort();
    assert_eq!(all, plain);
    // the identity alone
    assert_eq!(sets_of(each_set_exact_zero(1, &g)), vec![vec![zero]]);
}

#[test]
fn sets_as_lists() {
    let mut s = empty_set();
    put(&mut s, GElem(vec![1, 2]));
    put(&mut s, GElem(vec![0, 0]));
    put(&mut s, GElem(vec![1, 2]));
    assert_eq!(s.len(), 2);
    assert!(holds(&s, &GElem(vec![0, 0])));
    assert!(!holds(&s, &GElem(vec![2, 1])));
    let more = vec![GElem(vec![2, 1]), GElem(vec![0, 0])];
    merge(&mut s, &more);
    assert_eq!(s, vec![GElem(vec![1, 2]), GElem(vec![0, 0]), GElem(vec![2, 1])]);
}

#[test]
fn the_capabilities_of_lists() {
    let g = Rc::new(vec![2, 2]);
    let mut s: Vec<GElem> = SetLike::empty();
    assert!(SetLike::is_empty(&s));
    SetLike::add(&mut s, GElem(vec![1, 0]));
    SetLike::add(&mut s, GElem(vec![0, 1]));
    assert_eq!(SetLike::size(&s), 2);
    assert!(s.has(&GElem(vec![0, 1])));
    assert!(!s.has(&GElem(vec![1, 1])));
    assert!(s.zero_free(&g));
    assert!(!s.is_full(&g));
    let one: Vec<GElem> = SetLike::singleton(GElem(vec![0, 0]));
    assert!(!one.zero_free(&g));
    let whole = all_elements(&g, false);
    assert!(whole.is_full(&g));
}

#[test]
fn common_members_of_lists() {
    let mut s = vec![GElem(vec![1]), GElem(vec![4]), GElem(vec![2])];
    SetLike::intersect(&mut s, vec![GElem(vec![2]), GElem(vec![1]), GElem(vec![7])]);
    assert_eq!(s, vec![GElem(vec![1]), GElem(vec![2])]);
    let mut t = vec![GElem(vec![1, 1])];
    SetLike::intersect(&mut t, vec![GElem(vec![0, 1])]);
    assert!(t.is_empty());
}

#[test]
fn groups() {
    assert_eq!(15u32.gsize(), 15);
    assert_eq!(15u32.zero(), 0);
    assert!(15u32.is_valid());
    assert!(!0u32.is_valid());
    assert_eq!(15u32.cyclic_order(), Some(15));
    let g = Rc::new(vec![50, 30, 20]);
    assert_eq!(g.gsize(), 30000);
    assert_eq!(g.zero(), GElem(vec![0, 0, 0]));
    assert!(g.is_valid());
    assert_eq!(g.cyclic_order(), None);
    assert!(!Rc::new(vec![]).is_valid());
    assert!(!Rc::new(vec![3, 0]).is_valid());
    assert!(!Rc::new(vec![65536, 65536]).is_valid());
    assert!(Rc::new(vec![65535, 65537]).is_valid());
    assert!(!Rc::new(vec![4000000000, 2, 0]).is_valid());
}

#[test]
fn subsets_are_told_from_other_lists() {
    let g = Rc::new(vec![2, 3]);
    assert!(vec![GElem(vec![1, 2]), GElem(vec![0, 0])].is_subset_of(&g));
    assert!(Vec::<GElem>::new().is_subset_of(&g));
    // a residue beyond its modulus, a coordinate too few, an element twice
    assert!(!vec![GElem(vec![1, 3])].is_subset_of(&g));
    assert!(!vec![GElem(vec![1])].is_subset_of(&g));
    assert!(!vec![GElem(vec![1, 2]), GElem(vec![0, 0]), GElem(vec![1, 2])].is_subset_of(&g));
    let packed: FastSet<u64> = FastSet::from_slice(&[0, 6]);
    assert!(packed.is_subset_of(&7));
    assert!(!packed.is_subset_of(&6));
    assert!(<FastSet<u64> as HFolds>::can_hold(&63));
    assert!(!<FastSet<u64> as HFolds>::can_hold(&64));
    assert!(<FastSet<u128> as HFolds>::can_hold(&127));
    assert!(!<FastSet<u128> as HFolds>::can_hold(&128));
    assert!(<Vec<GElem> as HFolds>::can_hold(&Rc::new(vec![1000])));
}
