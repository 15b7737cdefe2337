use addcomb_comp::comb::chapter_c::sigma;
use addcomb_comp::comb::chapter_f::tau_restricted;
use addcomb_comp::comb::chapter_g::mu_restricted;
use addcomb_comp::comb::{a, c};
use addcomb_comp::fastset::FastSet;

// The table on page 153 (details page 154)
#[test]
fn chapter_c_test_sigma() {
    for n in 5..10u32 {
        let expected = (((4.0 * (n as f64) - 3.0).sqrt() + 1.0) / 2.0).floor() as u32;

        assert!(sigma::<FastSet>(&n, 2) == expected);
    }
}

// Page 297
#[test]
fn chapter_f_test_tau_restricted() {
    let correct_table: Vec<u32> = vec![1, 2, 2, 3, 4, 4, 4, 5, 6, 6, 6, 6, 6, 7, 8, 8, 8, 9];
    let actual_table: Vec<u32> = (1..=18u32)
        .map(|n| tau_restricted::<FastSet>(&n, 3))
        .collect();
    assert_eq!(correct_table, actual_table);
}

// Pages 358, 359
#[test]
fn chapter_g_test_mu_res() {
    assert_eq!(mu_restricted::<FastSet>(&9, 3, 1), 4);
    assert_eq!(mu_restricted::<FastSet>(&14, 3, 1), 5);
    assert_eq!(mu_restricted::<FastSet>(&19, 3, 1), 6);
    assert_eq!(mu_restricted::<FastSet>(&15, 4, 2), 5);
    assert_eq!(mu_restricted::<FastSet>(&12, 4, 3), 6);

    assert_eq!(mu_restricted::<FastSet>(&6, 8, 1), 6);
    assert_eq!(mu_restricted::<FastSet>(&11, 6, 1), 6);
}

// The tables of section 2.4
#[test]
fn mod_test_c_a() {
    let correct_table = vec![
        1, 1, 1, 1, 1, 1, 1, //
        1, 3, 5, 7, 9, 11, 13, //
        1, 5, 13, 25, 41, 61, 85, //
        1, 7, 25, 63, 129, 231, 377, //
        1, 9, 41, 129, 321, 681, 1289, //
        1, 11, 61, 231, 681, 1683, 3653, //
        1, 13, 85, 377, 1289, 3653, 8989,
    ];
    let mut i = 0;
    for k in 0..=6 {
        for j in 0..=6 {
            assert_eq!(a(j, k), correct_table[i]);
            i += 1;
        }
    }

    let correct_table = vec![
        1, 1, 1, 1, 1, 1, 1, //
        0, 2, 2, 2, 2, 2, 2, //
        0, 4, 8, 12, 16, 20, 24, //
        0, 6, 18, 38, 66, 102, 146, //
        0, 8, 32, 88, 192, 360, 608, //
        0, 10, 50, 170, 450, 1002, 1970, //
        0, 12, 72, 292, 912, 2364, 5336,
    ];
    i = 0;
    for k in 0..=6 {
        for j in 0..=6 {
            assert_eq!(c(j, k), correct_table[i]);
            i += 1;
        }
    }
}

// The same tables through the entry points that take the default word.

#[test]
fn test_sigma() {
    for n in 5..10u32 {
        let expected = (((4.0 * (n as f64) - 3.0).sqrt() + 1.0) / 2.0).floor() as u32;

        assert!(sigma::<FastSet>(&n, 2) == expected);
    }
}

#[test]
fn test_tau_restricted() {
    let correct_table: Vec<u32> = vec![1, 2, 2, 3, 4, 4, 4, 5, 6, 6, 6, 6, 6, 7, 8, 8, 8, 9];
    let actual_table: Vec<u32> = (1..=18u32)
        .map(|n| tau_restricted::<FastSet>(&n, 3))
        .collect();
    assert_eq!(correct_table, actual_table);
}

#[test]
fn test_mu_res() {
    assert_eq!(mu_restricted::<FastSet>(&9, 3, 1), 4);
    assert_eq!(mu_restricted::<FastSet>(&14, 3, 1), 5);
    assert_eq!(mu_restricted::<FastSet>(&19, 3, 1), 6);
    assert_eq!(mu_restricted::<FastSet>(&15, 4, 2), 5);
    assert_eq!(mu_restricted::<FastSet>(&12, 4, 3), 6);

    assert_eq!(mu_restricted::<FastSet>(&6, 8, 1), 6);
    assert_eq!(mu_restricted::<FastSet>(&11, 6, 1), 6);
}

// Prints the two tables
#[test]
fn test_c_a() {
    println!("a(j, k): \n");
    for k in 0..=6 {
        let mut line = String::new();
        for j in 0..=6 {
            line.push_str(&format!("{} ", a(j, k)));
        }
        println!("{}", line);
    }

    println!("\nc(j, k): \n");
    for k in 0..=6 {
        let mut line = String::new();
        for j in 0..=6 {
            line.push_str(&format!("{} ", c(j, k)));
        }
        println!("{}", line);
    }
}
