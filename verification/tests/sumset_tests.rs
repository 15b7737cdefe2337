use addcomb_comp::exactset::GElem;
use addcomb_comp::fastset::FastSet;
use addcomb_comp::setlike::{HFolds, SetLike};

use std::collections::BTreeSet;
use std::rc::Rc;

// The sums of `h` terms by their definition: a whole number for each member,
// whose absolute values add up to `h`; none below zero unless signed, none
// beyond one unless restricted.
fn sums_from(
    members: &[u32],
    at: usize,
    left: u32,
    total: i64,
    n: i64,
    restricted: bool,
    signed: bool,
    out: &mut BTreeSet<u32>,
) {
    if at == members.len() {
        if left == 0 {
            out.insert((((total % n) + n) % n) as u32);
        }
        return;
    }
    let most = if restricted { left.min(1) } else { left };
    for c in 0..=most {
        let step = (c as i64) * (members[at] as i64);
        sums_from(members, at + 1, left - c, total + step, n, restricted, signed, out);
        if signed && c > 0 {
            sums_from(members, at + 1, left - c, total - step, n, restricted, signed, out);
        }
    }
}

fn expected(members: &[u32], lo: u32, hi: u32, n: u32, restricted: bool, signed: bool) -> Vec<u32> {
    let mut out = BTreeSet::new();
    let mut h = lo;
    while h <= hi {
        sums_from(members, 0, h, 0, n as i64, restricted, signed, &mut out);
        h += 1;
    }
    out.into_iter().collect()
}

fn listed(members: &[u32]) -> Vec<GElem> {
    members.iter().map(|x| GElem(vec![*x])).collect()
}

fn residues(set: &Vec<GElem>) -> Vec<u32> {
    let mut out: Vec<u32> = set.iter().map(|e| e.0[0]).collect();
    out.sort();
    out
}

fn members_of(bits: u32) -> Vec<u32> {
    (0..32).filter(|i| bits & (1 << i) != 0).collect()
}

#[test]
fn plain_sumsets_by_hand() {
    let a: FastSet<u64> = FastSet::from_slice(&[1, 2]);
    assert_eq!(a.hfold_sumset(2, &7).as_vec(), vec![2, 3, 4]);
    assert_eq!(a.hfold_sumset(3, &7).as_vec(), vec![3, 4, 5, 6]);
    assert_eq!(a.hfold_sumset(1, &7).as_vec(), vec![1, 2]);
    assert_eq!(a.hfold_interval_sumset((0, 2), &7).as_vec(), vec![0, 1, 2, 3, 4]);
    // sums wrap around the modulus
    let b: FastSet<u64> = FastSet::from_slice(&[3, 4]);
    assert_eq!(b.hfold_sumset(2, &5).as_vec(), vec![1, 2, 3]);
}

#[test]
fn restricted_and_signed_sumsets_by_hand() {
    let a: FastSet<u64> = FastSet::from_slice(&[1, 2, 4]);
    assert_eq!(a.hfold_restricted_sumset(2, &10).as_vec(), vec![3, 5, 6]);
    assert_eq!(a.hfold_restricted_sumset(3, &10).as_vec(), vec![7]);
    // 1 and 2, each added or subtracted; a member is never both
    let b: FastSet<u64> = FastSet::from_slice(&[1, 2]);
    assert_eq!(b.hfold_signed_sumset(1, &10).as_vec(), vec![1, 2, 8, 9]);
    assert_eq!(b.hfold_signed_sumset(2, &10).as_vec(), vec![1, 2, 3, 4, 6, 7, 8, 9]);
    assert_eq!(b.hfold_restricted_signed_sumset(2, &10).as_vec(), vec![1, 3, 7, 9]);
}

#[test]
fn no_term_gives_the_identity() {
    let a: FastSet<u64> = FastSet::from_slice(&[1, 3]);
    let none: FastSet<u64> = FastSet::from_slice(&[]);
    for set in [a, none] {
        assert_eq!(set.hfold_sumset(0, &8).as_vec(), vec![0]);
        assert_eq!(set.hfold_signed_sumset(0, &8).as_vec(), vec![0]);
        assert_eq!(set.hfold_restricted_sumset(0, &8).as_vec(), vec![0]);
        assert_eq!(set.hfold_restricted_signed_sumset(0, &8).as_vec(), vec![0]);
    }
    let g = Rc::new(vec![8]);
    for set in [listed(&[1, 3]), listed(&[])] {
        assert_eq!(residues(&set.hfold_sumset(0, &g)), vec![0]);
        assert_eq!(residues(&set.hfold_signed_sumset(0, &g)), vec![0]);
        assert_eq!(residues(&set.hfold_restricted_sumset(0, &g)), vec![0]);
        assert_eq!(residues(&set.hfold_restricted_signed_sumset(0, &g)), vec![0]);
    }
}

#[test]
fn more_distinct_terms_than_members_give_nothing() {
    let a: FastSet<u64> = FastSet::from_slice(&[1, 3]);
    assert!(a.hfold_restricted_sumset(3, &8).isempty());
    assert!(a.hfold_restricted_signed_sumset(3, &8).isempty());
    let g = Rc::new(vec![8]);
    assert!(listed(&[1, 3]).hfold_restricted_sumset(3, &g).is_empty());
    assert!(listed(&[1, 3]).hfold_restricted_signed_sumset(3, &g).is_empty());
}

#[test]
fn the_empty_set_has_no_sum_of_terms() {
    let none: FastSet<u64> = FastSet::from_slice(&[]);
    assert!(none.hfold_sumset(2, &8).isempty());
    assert!(none.hfold_signed_sumset(2, &8).isempty());
    assert_eq!(none.hfold_interval_sumset((0, 3), &8).as_vec(), vec![0]);
    assert!(none.hfold_interval_sumset((1, 3), &8).isempty());
    let g = Rc::new(vec![8]);
    assert!(listed(&[]).hfold_sumset(2, &g).is_empty());
    assert!(listed(&[]).hfold_signed_sumset(2, &g).is_empty());
    assert_eq!(residues(&listed(&[]).hfold_interval_signed_sumset((0, 3), &g)), vec![0]);
    assert!(listed(&[]).hfold_interval_signed_sumset((1, 3), &g).is_empty());
}

#[test]
fn an_empty_interval_gives_nothing() {
    let a: FastSet<u64> = FastSet::from_slice(&[1, 3]);
    assert!(a.hfold_interval_sumset((3, 2), &8).isempty());
    assert!(a.hfold_interval_restricted_sumset((3, 2), &8).isempty());
    assert!(a.hfold_interval_signed_sumset((1, 0), &8).isempty());
    assert!(a.hfold_interval_restricted_signed_sumset((2, 1), &8).isempty());
    let g = Rc::new(vec![8]);
    assert!(listed(&[1, 3]).hfold_interval_sumset((3, 2), &g).is_empty());
    assert!(listed(&[1, 3]).hfold_interval_restricted_signed_sumset((2, 1), &g).is_empty());
}

#[test]
fn both_representations_meet_the_definition() {
    for n in 1..=9u32 {
        let g = Rc::new(vec![n]);
        for bits in 0..(1u32 << n) {
            let members = members_of(bits);
            if members.len() > 3 {
                continue;
            }
            let packed: FastSet<u64> = FastSet::from_slice(&members);
            let list = listed(&members);
            for h in 0..=3u32 {
                let want = expected(&members, h, h, n, false, false);
                assert_eq!(packed.hfold_sumset(h, &n).as_vec(), want);
                assert_eq!(residues(&list.hfold_sumset(h, &g)), want);

                let want = expected(&members, h, h, n, true, false);
                assert_eq!(packed.hfold_restricted_sumset(h, &n).as_vec(), want);
                assert_eq!(residues(&list.hfold_restricted_sumset(h, &g)), want);

                let want = expected(&members, h, h, n, false, true);
                assert_eq!(packed.hfold_signed_sumset(h, &n).as_vec(), want);
                assert_eq!(residues(&list.hfold_signed_sumset(h, &g)), want);

                let want = expected(&members, h, h, n, true, true);
                assert_eq!(packed.hfold_restricted_signed_sumset(h, &n).as_vec(), want);
                assert_eq!(residues(&list.hfold_restricted_signed_sumset(h, &g)), want);
            }
        }
    }
}

#[test]
fn both_representations_meet_the_definition_on_intervals() {
    for n in [1u32, 4, 7] {
        let g = Rc::new(vec![n]);
        for bits in 0..(1u32 << n) {
            let members = members_of(bits);
            if members.len() > 3 {
                continue;
            }
            let packed: FastSet<u64> = FastSet::from_slice(&members);
            let list = listed(&members);
            for lo in 0..=2u32 {
                for hi in lo..=3u32 {
                    let hs = (lo, hi);
                    let want = expected(&members, lo, hi, n, false, false);
                    assert_eq!(packed.hfold_interval_sumset(hs, &n).as_vec(), want);
                    assert_eq!(residues(&list.hfold_interval_sumset(hs, &g)), want);

                    let want = expected(&members, lo, hi, n, true, false);
                    assert_eq!(packed.hfold_interval_restricted_sumset(hs, &n).as_vec(), want);
                    assert_eq!(residues(&list.hfold_interval_restricted_sumset(hs, &g)), want);

                    let want = expected(&members, lo, hi, n, false, true);
                    assert_eq!(packed.hfold_interval_signed_sumset(hs, &n).as_vec(), want);
                    assert_eq!(residues(&list.hfold_interval_signed_sumset(hs, &g)), want);

                    let want = expected(&members, lo, hi, n, true, true);
                    assert_eq!(
                        packed.hfold_interval_restricted_signed_sumset(hs, &n).as_vec(),
                        want
                    );
                    assert_eq!(
                        residues(&list.hfold_interval_restricted_signed_sumset(hs, &g)),
                        want
                    );
                }
            }
        }
    }
}

#[test]
fn wide_words_give_the_same_sumsets() {
    let narrow: FastSet<u64> = FastSet::from_slice(&[1, 5, 20]);
    let wide: FastSet<u128> = FastSet::from_slice(&[1, 5, 20]);
    for h in 0..=4u32 {
        assert_eq!(narrow.hfold_sumset(h, &61).as_vec(), wide.hfold_sumset(h, &61).as_vec());
        assert_eq!(
            narrow.hfold_signed_sumset(h, &61).as_vec(),
            wide.hfold_signed_sumset(h, &61).as_vec()
        );
        assert_eq!(
            narrow.hfold_restricted_signed_sumset(h, &61).as_vec(),
            wide.hfold_restricted_signed_sumset(h, &61).as_vec()
        );
    }
    // a group that only the wide word takes
    let big: FastSet<u128> = FastSet::from_slice(&[1, 100]);
    assert_eq!(big.hfold_sumset(2, &120).as_vec(), vec![2, 80, 101]);
    assert_eq!(big.hfold_signed_sumset(1, &120).as_vec(), vec![1, 20, 100, 119]);
}

#[test]
fn sumsets_in_a_product_of_groups() {
    // Z_2 x Z_3
    let g = Rc::new(vec![2, 3]);
    let a = vec![GElem(vec![1, 0]), GElem(vec![0, 1])];
    let mut twice: Vec<Vec<u32>> = a.hfold_sumset(2, &g).into_iter().map(|e| e.0).collect();
    twice.sort();
    assert_eq!(twice, vec![vec![0, 0], vec![0, 2], vec![1, 1]]);
    let mut signed: Vec<Vec<u32>> =
        a.hfold_signed_sumset(1, &g).into_iter().map(|e| e.0).collect();
    signed.sort();
    assert_eq!(signed, vec![vec![0, 1], vec![0, 2], vec![1, 0]]);
    let mut pair: Vec<Vec<u32>> =
        a.hfold_restricted_signed_sumset(2, &g).into_iter().map(|e| e.0).collect();
    pair.sort();
    assert_eq!(pair, vec![vec![1, 1], vec![1, 2]]);
    let all = a.hfold_interval_sumset((0, 4), &g);
    assert!(all.is_full(&g));
    assert_eq!(SetLike::size(&all), 6);
}

// The same definition in a product of cyclic groups.
fn vector_sums_from(
    members: &[Vec<u32>],
    mods: &[u32],
    at: usize,
    left: u32,
    total: Vec<i64>,
    restricted: bool,
    signed: bool,
    out: &mut BTreeSet<Vec<u32>>,
) {
    if at == members.len() {
        if left == 0 {
            let e: Vec<u32> = total
                .iter()
                .zip(mods.iter())
                .map(|(t, m)| (((t % (*m as i64)) + (*m as i64)) % (*m as i64)) as u32)
                .collect();
            out.insert(e);
        }
        return;
    }
    let most = if restricted { left.min(1) } else { left };
    for c in 0..=most {
        let up: Vec<i64> =
            total.iter().zip(members[at].iter()).map(|(t, x)| t + (c as i64) * (*x as i64)).collect();
        vector_sums_from(members, mods, at + 1, left - c, up, restricted, signed, out);
        if signed && c > 0 {
            let down: Vec<i64> = total
                .iter()
                .zip(members[at].iter())
                .map(|(t, x)| t - (c as i64) * (*x as i64))
                .collect();
            vector_sums_from(members, mods, at + 1, left - c, down, restricted, signed, out);
        }
    }
}

fn expected_vectors(
    members: &[Vec<u32>],
    mods: &[u32],
    lo: u32,
    hi: u32,
    restricted: bool,
    signed: bool,
) -> Vec<Vec<u32>> {
    let mut out = BTreeSet::new();
    let mut h = lo;
    while h <= hi {
        let zero = vec![0i64; mods.len()];
        vector_sums_from(members, mods, 0, h, zero, restricted, signed, &mut out);
        h += 1;
    }
    out.into_iter().collect()
}

fn sorted(set: Vec<GElem>) -> Vec<Vec<u32>> {
    let mut out: Vec<Vec<u32>> = set.into_iter().map(|e| e.0).collect();
    out.sort();
    out
}

#[test]
fn lists_meet_the_definition_in_products() {
    let mods = vec![2u32, 3, 2];
    let g = Rc::new(mods.clone());
    let all = addcomb_comp::exactset::all_elements(&g, false);
    for first in 0..all.len() {
        for second in first..all.len() {
            let mut members = vec![all[first].0.clone()];
            if second != first {
                members.push(all[second].0.clone());
            }
            let list: Vec<GElem> = members.iter().map(|m| GElem(m.clone())).collect();
            for h in 0..=3u32 {
                assert_eq!(
                    sorted(list.hfold_sumset(h, &g)),
                    expected_vectors(&members, &mods, h, h, false, false)
                );
                assert_eq!(
                    sorted(list.hfold_signed_sumset(h, &g)),
                    expected_vectors(&members, &mods, h, h, false, true)
                );
                assert_eq!(
                    sorted(list.hfold_restricted_sumset(h, &g)),
                    expected_vectors(&members, &mods, h, h, true, false)
                );
                assert_eq!(
                    sorted(list.hfold_restricted_signed_sumset(h, &g)),
                    expected_vectors(&members, &mods, h, h, true, true)
                );
            }
            assert_eq!(
                sorted(list.hfold_interval_signed_sumset((1, 3), &g)),
                expected_vectors(&members, &mods, 1, 3, false, true)
            );
            assert_eq!(
                sorted(list.hfold_interval_restricted_signed_sumset((0, 2), &g)),
                expected_vectors(&members, &mods, 0, 2, true, true)
            );
        }
    }
}

#[test]
fn wide_words_and_lists_agree_beyond_64() {
    let n = 100u32;
    let g = Rc::new(vec![n]);
    for members in [vec![1u32, 99], vec![0, 50, 77], vec![64, 65, 66], vec![3]] {
        let packed: FastSet<u128> = FastSet::from_slice(&members);
        let list = listed(&members);
        for h in 0..=3u32 {
            assert_eq!(packed.hfold_sumset(h, &n).as_vec(), residues(&list.hfold_sumset(h, &g)));
            assert_eq!(
                packed.hfold_signed_sumset(h, &n).as_vec(),
                residues(&list.hfold_signed_sumset(h, &g))
            );
            assert_eq!(
                packed.hfold_restricted_sumset(h, &n).as_vec(),
                residues(&list.hfold_restricted_sumset(h, &g))
            );
            assert_eq!(
                packed.hfold_restricted_signed_sumset(h, &n).as_vec(),
                residues(&list.hfold_restricted_signed_sumset(h, &g))
            );
            assert_eq!(packed.hfold_sumset(h, &n).as_vec(), expected(&members, h, h, n, false, false));
        }
    }
}
