use addcomb_comp::comb::{
    checked_a, checked_c, checked_choose, checked_factorial, divisors, factorial, gcd,
    is_invariant, n_choose_k, v, v_signed,
};

#[test]
fn choose_values() {
    assert_eq!(n_choose_k(5, 2), 10);
    assert_eq!(n_choose_k(10, 5), 252);
    assert_eq!(n_choose_k(7, 0), 1);
    assert_eq!(n_choose_k(7, 7), 1);
    assert_eq!(n_choose_k(30, 15), 155117520);
    // more picks than things: none, but one from nothing
    assert_eq!(n_choose_k(3, 5), 0);
    assert_eq!(n_choose_k(0, 5), 1);
    assert_eq!(n_choose_k(0, 0), 1);
}

#[test]
fn choose_that_does_not_fit() {
    assert_eq!(checked_choose(34, 17), Some(2333606220));
    assert_eq!(checked_choose(35, 17), None);
    assert_eq!(checked_choose(40, 20), None);
    assert_eq!(checked_choose(u32::MAX, 1), Some(u32::MAX));
    assert_eq!(checked_choose(u32::MAX, 2), None);
}

#[test]
fn factorial_values() {
    assert_eq!(factorial(0), 1);
    assert_eq!(factorial(1), 1);
    assert_eq!(factorial(5), 120);
    assert_eq!(factorial(12), 479001600);
    assert_eq!(checked_factorial(12), Some(479001600));
    assert_eq!(checked_factorial(13), None);
}

#[test]
fn c_and_a_that_do_not_fit() {
    assert_eq!(checked_c(3, 3), Some(38));
    assert_eq!(checked_a(3, 3), Some(63));
    assert_eq!(checked_c(0, 5), Some(0));
    assert_eq!(checked_c(5, 0), Some(1));
    assert_eq!(checked_a(0, 5), Some(1));
    assert_eq!(checked_a(40, 40), None);
    assert_eq!(checked_c(40, 40), None);
}

#[test]
fn gcd_values() {
    assert_eq!(gcd(12, 18), 6);
    assert_eq!(gcd(18, 12), 6);
    assert_eq!(gcd(17, 5), 1);
    assert_eq!(gcd(0, 5), 5);
    assert_eq!(gcd(5, 0), 5);
    assert_eq!(gcd(0, 0), 0);
    assert_eq!(gcd(7, 7), 7);
}

#[test]
fn divisors_in_order() {
    assert_eq!(divisors(12), vec![1, 2, 3, 4, 6, 12]);
    assert_eq!(divisors(1), vec![1]);
    assert_eq!(divisors(13), vec![1, 13]);
    assert_eq!(divisors(0), Vec::<u32>::new());
}

#[test]
fn invariant_form() {
    assert!(is_invariant(&vec![12, 6, 2]));
    assert!(!is_invariant(&vec![12, 5]));
    assert!(is_invariant(&vec![7]));
    assert!(is_invariant(&vec![]));
}

// Table 4.3
#[test]
fn test_v() {
    let correct_table = vec![
        1, 1, 1, 0, 0, 1, 1, 1, 1, 0, 1, 1, 1, 1, 0, 1, 2, 2, 2, 1, 0, 2, 2, 2, 2, 2, 1, 1, 1, 1,
        1, 0, 3, 3, 3, 2, 2, 3, 3, 3, 2, 2, 2, 2, 2, 2, 2, 2, 4, 4, 4, 2, 1, 4, 4, 4, 3, 2, 3, 3,
        3, 3, 2, 3, 5, 5, 5, 2, 2, 5, 5, 5, 4, 4, 3, 3, 3, 2, 2, 2, 6, 6, 6, 4, 4, 6, 6, 6, 4, 4,
        3, 3, 3, 3, 3, 3, 7, 7, 7, 4, 4, 7, 7, 7, 6, 6, 5, 5, 5, 5, 3, 5, 8, 8, 8, 4, 3, 8, 8, 8,
        6, 6, 4, 4, 4, 4, 4, 4, 9, 9, 9, 6, 6, 9, 9, 9, 6, 6, 5, 5, 5, 4, 4, 4, 10, 10, 10, 5, 4,
        10, 10, 10, 7, 6, 7, 7, 7, 7, 6, 7, 11, 11, 11, 6, 6, 11, 11, 11, 8, 8, 6, 6, 6, 5, 5, 5,
        12, 12, 12, 8, 8, 12, 12, 12, 10, 10, 6, 6, 6, 5, 5, 4, 13, 13, 13, 6, 6, 13, 13, 13, 9,
        8, 9, 9, 9, 9, 6, 9, 14, 14, 14, 8, 8, 14, 14, 14, 10, 10, 7, 7, 7, 6, 6, 6, 15, 15, 15,
        10, 10, 15, 15, 15, 10, 10, 8, 8, 8, 6, 6, 6, 16, 16, 16, 8, 7, 16, 16, 16, 12, 12, 11,
        11, 11, 11, 6, 11, 17, 17, 17, 8, 8, 17, 17, 17, 14, 14, 10, 10, 10, 10, 10, 10, 18, 18,
        18, 12, 12, 18, 18, 18, 12, 12, 9, 9, 9, 8, 8, 8, 19, 19, 19, 10, 10, 19, 19, 19, 13, 12,
        13, 13, 13, 13, 9, 13, 20, 20, 20, 10, 9, 20, 20, 20,
    ];

    let mut indx = 0;
    for n in 2..=40 {
        for (g, h) in &[(1, 3), (3, 3), (1, 4), (2, 4), (4, 4), (1, 5), (3, 5), (5, 5)] {
            assert_eq!(v(*g, n, *h), correct_table[indx], "v{:?}", (*g, n, *h));
            indx += 1;
        }
    }

    // Right before problem 4.6
    assert_eq!(v(5, 437, 5), 95);
}

// Proposition 4.9
#[test]
fn test_v_signed() {
    assert_eq!(v_signed(2, 1), 1);
    assert_eq!(v_signed(3, 1), 1);
    assert_eq!(v_signed(10, 1), 9);
    assert_eq!(v_signed(15, 1), 13);

    assert_eq!(v_signed(10, 2), 5);
    assert_eq!(v_signed(8, 2), 4);
    assert_eq!(v_signed(9, 2), 3);
    assert_eq!(v_signed(11, 2), 5);

    assert_eq!(v_signed(10, 3), 5);
    assert_eq!(v_signed(8, 3), 4);
    assert_eq!(v_signed(15, 3), 5);
    assert_eq!(v_signed(35, 3), 11);
    assert_eq!(v_signed(37, 3), 11);
}

#[test]
fn v_of_one() {
    assert_eq!(v(1, 1, 1), 0);
    assert_eq!(v_signed(1, 1), 0);
    // a prime has the two divisors 1 and itself
    assert_eq!(v(1, 7, 2), 3);
}
