use addcomb_comp::bitword::BitSetContents;
use addcomb_comp::fastset::{
    cycle, cycle_rev, each_set_exact, each_set_exact_no_zero, each_set_exact_zero, empty_set,
    singleton, FastSet,
};

fn binom(n: u64, k: u64) -> u64 {
    if k > n {
        return 0;
    }
    let mut r: u64 = 1;
    for i in 0..k {
        r = r * (n - i) / (i + 1);
    }
    r
}

#[test]
fn cycle_adds_modulo() {
    // {0, 2, 6} + 3 modulo 7 = {3, 5, 2}
    let s: u64 = 0b1000101;
    assert_eq!(cycle(s, 3, 7), 0b0101100);
    assert_eq!(cycle_rev(cycle(s, 3, 7), 3, 7), s);
    // {0, 2, 6} - 3 modulo 7 = {4, 6, 3}
    assert_eq!(cycle_rev(s, 3, 7), 0b1011000);
}

#[test]
fn cycle_by_nothing_and_by_the_modulus() {
    let s: u64 = 0b10110;
    assert_eq!(cycle(s, 0, 5), s);
    assert_eq!(cycle(s, 5, 5), s);
    assert_eq!(cycle_rev(s, 0, 5), s);
    assert_eq!(cycle(0u64, 0, 0), 0);
}

#[test]
fn cycle_on_wide_words() {
    // {0, 99} + 1 modulo 100 = {1, 0}
    let s: u128 = 1 | (1u128 << 99);
    assert_eq!(cycle(s, 1, 100), 0b11);
    // {63} + 1 modulo 127 = {64}
    assert_eq!(cycle(1u128 << 63, 1, 127), 1u128 << 64);
    // the highest modulus that a 64-bit word takes
    assert_eq!(cycle(1u64 << 62, 1, 63), 1);
}

#[test]
fn singleton_and_empty() {
    let s: FastSet<u64> = singleton(5);
    assert_eq!(s.contents, 32);
    assert!(s.access(5));
    assert!(!s.access(4));
    let e: FastSet<u128> = empty_set();
    assert!(e.isempty());
    assert_eq!(e.size(), 0);
}

#[test]
fn members_come_and_are_counted() {
    let mut s: FastSet<u128> = empty_set();
    s.add(3);
    s.add(100);
    s.add(3);
    assert_eq!(s.size(), 2);
    assert!(s.access(100));
    assert!(!s.access(99));
    assert_eq!(s.as_vec(), vec![3, 100]);
    assert!(!s.isempty());
}

#[test]
fn from_slice_and_as_vec() {
    let s: FastSet<u64> = FastSet::from_slice(&[5, 1, 5, 63, 0]);
    assert_eq!(s.as_vec(), vec![0, 1, 5, 63]);
    assert_eq!(s.size(), 4);
    let e: FastSet<u64> = FastSet::from_slice(&[]);
    assert!(e.isempty());
}

#[test]
fn full_means_every_residue_below() {
    let s: FastSet<u64> = FastSet::from_slice(&[0, 1, 2, 3]);
    assert!(s.isfull(4));
    assert!(s.isfull(3));
    assert!(s.isfull(0));
    assert!(!s.isfull(5));
    let t: FastSet<u64> = FastSet::from_slice(&[0, 1, 3]);
    assert!(!t.isfull(4));
    assert!(t.isfull(2));
    let all: FastSet<u64> = FastSet { contents: u64::MAX };
    assert!(all.isfull(64));
}

#[test]
fn full_agrees_with_size() {
    for bits in 0u64..64 {
        let s: FastSet<u64> = FastSet { contents: bits };
        assert_eq!(s.isfull(6), s.size() == 6);
    }
}

#[test]
fn intersect_keeps_common_members() {
    let mut s: FastSet<u64> = FastSet::from_slice(&[1, 2, 3]);
    let t: FastSet<u64> = FastSet::from_slice(&[2, 3, 4]);
    s.intersect(&t);
    assert_eq!(s.as_vec(), vec![2, 3]);
}

#[test]
fn words_as_sets() {
    assert_eq!(<u64 as BitSetContents>::bit_size(), 64);
    assert_eq!(<u128 as BitSetContents>::bit_size(), 128);
    assert_eq!(<u64 as BitSetContents>::one(), 1);
    assert_eq!(<u128 as BitSetContents>::zero(), 0);
    assert_eq!(<u64 as BitSetContents>::max(), u64::MAX);
    assert_eq!(BitSetContents::num_ones(&0b1011u64), 3);
    assert_eq!(BitSetContents::num_ones(&(u128::MAX)), 128);
    assert_eq!(BitSetContents::num_ones(&(1u128 << 100 | 1)), 2);
    assert_eq!(BitSetContents::bit_scan_low(&0b1000u64), 3);
    assert_eq!(BitSetContents::bit_scan_low(&0u64), 64);
    assert_eq!(BitSetContents::bit_scan_low(&(1u128 << 77)), 77);
    assert_eq!(BitSetContents::bit_scan_low(&0u128), 128);
    assert_eq!(BitSetContents::bit_scan_high(&0b1000u64), 60);
    assert_eq!(BitSetContents::bit_scan_high(&0u64), 64);
    assert_eq!(BitSetContents::bit_scan_high(&(1u128 << 77)), 50);
    assert_eq!(BitSetContents::bit_scan_high(&0u128), 128);
    assert_eq!(<u64 as BitSetContents>::low_mask(0), 0);
    assert_eq!(<u64 as BitSetContents>::low_mask(3), 0b111);
    assert_eq!(<u64 as BitSetContents>::low_mask(64), u64::MAX);
    assert_eq!(<u128 as BitSetContents>::low_mask(128), u128::MAX);
    assert_eq!(<u128 as BitSetContents>::low_mask(65), (1u128 << 65) - 1);
    assert_eq!(BitSetContents::clear_lowest(0b10110u64), 0b10100);
    assert_eq!(BitSetContents::clear_lowest(0u64), 0);
    assert_eq!(BitSetContents::clear_lowest(1u128 << 90), 0);
    assert_eq!(BitSetContents::shl(0b11u64, 62), 0b11 << 62);
    assert_eq!(BitSetContents::shl(u64::MAX, 63), 1 << 63);
    assert_eq!(BitSetContents::shr(1u128 << 100, 100), 1);
    assert_eq!(BitSetContents::and(0b110u64, 0b011), 0b010);
    assert_eq!(BitSetContents::or(0b110u64, 0b011), 0b111);
    assert_eq!(BitSetContents::not(0u128), u128::MAX);
    assert!(BitSetContents::same(5u64, 5u64));
    assert!(!BitSetContents::same(5u128, 4u128));
}

#[test]
fn walk_goes_in_its_order() {
    let mut walk = each_set_exact::<u64>(4, 2);
    let mut seen: Vec<Vec<u32>> = Vec::new();
    loop {
        match walk.next() {
            None => break,
            Some(s) => seen.push(s.as_vec()),
        }
    }
    assert_eq!(
        seen,
        vec![vec![0, 1], vec![0, 2], vec![0, 3], vec![1, 2], vec![1, 3], vec![2, 3]]
    );
    // and stays at its end
    assert!(walk.next().is_none());
}

#[test]
fn walk_visits_each_subset_once() {
    for n in 0..=10u32 {
        for k in 0..=11u32 {
            let mut walk = each_set_exact::<u64>(n, k);
            let mut seen: Vec<u64> = Vec::new();
            loop {
                match walk.next() {
                    None => break,
                    Some(s) => {
                        assert_eq!(s.size(), k);
                        assert_eq!(s.contents >> n, 0);
                        seen.push(s.contents);
                    }
                }
            }
            assert_eq!(seen.len() as u64, binom(n as u64, k as u64));
            if k <= n {
                assert_eq!(seen[0], (1u64 << k) - 1);
            }
            let mut sorted = seen.clone();
            sorted.sort();
            sorted.dedup();
            assert_eq!(sorted.len(), seen.len());
        }
    }
}

#[test]
fn walk_of_more_than_there_is_is_empty() {
    let mut walk = each_set_exact::<u64>(3, 4);
    assert!(walk.next().is_none());
    // none of nothing
    let mut walk = each_set_exact::<u64>(0, 0);
    let first = walk.next();
    assert!(first.is_some());
    assert_eq!(first.unwrap().contents, 0);
    assert!(walk.next().is_none());
}

#[test]
fn walk_on_wide_words() {
    let mut walk = each_set_exact::<u128>(70, 2);
    let mut count = 0;
    let mut last = 0u128;
    loop {
        match walk.next() {
            None => break,
            Some(s) => {
                count += 1;
                last = s.contents;
            }
        }
    }
    assert_eq!(count, 2415);
    assert_eq!(last, (1u128 << 69) | (1u128 << 68));
}

#[test]
fn walk_with_zero() {
    let mut walk = each_set_exact_zero::<u64>(5, 3);
    let mut seen: Vec<Vec<u32>> = Vec::new();
    loop {
        match walk.next() {
            None => break,
            Some(s) => seen.push(s.as_vec()),
        }
    }
    assert_eq!(
        seen,
        vec![
            vec![0, 1, 2],
            vec![0, 1, 3],
            vec![0, 1, 4],
            vec![0, 2, 3],
            vec![0, 2, 4],
            vec![0, 3, 4]
        ]
    );
}

#[test]
fn walk_without_zero() {
    let mut walk = each_set_exact_no_zero::<u64>(5, 3);
    let mut seen: Vec<Vec<u32>> = Vec::new();
    loop {
        match walk.next() {
            None => break,
            Some(s) => seen.push(s.as_vec()),
        }
    }
    assert_eq!(seen, vec![vec![1, 2, 3], vec![1, 2, 4], vec![1, 3, 4], vec![2, 3, 4]]);
    // with and without zero together are all
    let mut with = each_set_exact_zero::<u64>(9, 4);
    let mut without = each_set_exact_no_zero::<u64>(9, 4);
    let mut count = 0;
    while with.next().is_some() {
        count += 1;
    }
    while without.next().is_some() {
        count += 1;
    }
    assert_eq!(count, binom(9, 4));
}
