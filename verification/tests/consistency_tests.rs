use addcomb_comp::comb::chapter_a::{nu, nu_restricted, nu_signed, nu_signed_restricted};
use addcomb_comp::comb::chapter_b::{phi, phi_restricted, phi_signed, phi_signed_restricted};
use addcomb_comp::comb::chapter_c::{
    sigma, sigma_restricted, sigma_signed, sigma_signed_restricted,
};
use addcomb_comp::comb::chapter_d::{rho, rho_restricted, rho_signed, rho_signed_restricted};
use addcomb_comp::comb::chapter_e::{chi, chi_restricted, chi_signed, chi_signed_restricted};
use addcomb_comp::comb::chapter_f::{tau, tau_restricted, tau_signed, tau_signed_restricted};
use addcomb_comp::comb::chapter_g::{mu, mu_restricted, mu_signed, mu_signed_restricted};
use addcomb_comp::exactset::GElem;
use addcomb_comp::fastset::FastSet;
use addcomb_comp::setlike::SetLike;

use rand::{thread_rng, Rng};

use std::rc::Rc;

type Packed = FastSet;
type Listed = Vec<GElem>;

fn group(n: u32) -> Rc<Vec<u32>> {
    Rc::new(vec![n])
}

#[test]
fn test_fuzz_consistency() {
    let mut rng = thread_rng();

    for _ in 0..30 {
        let (x, y, z) = (rng.gen_range(1, 13), rng.gen_range(1, 4), rng.gen_range(1, 6));
        println!("Running test on: nu {:?}", (x, y, z));
        assert_eq!(nu::<Packed>(&x, y, z), nu::<Listed>(&group(x), y, z));
        assert_eq!(nu_signed::<Packed>(&x, y, z), nu_signed::<Listed>(&group(x), y, z));
        assert_eq!(nu_restricted::<Packed>(&x, y, z), nu_restricted::<Listed>(&group(x), y, z));
        assert_eq!(
            nu_signed_restricted::<Packed>(&x, y, z),
            nu_signed_restricted::<Listed>(&group(x), y, z)
        );
    }

    for _ in 0..30 {
        let (x, y) = (rng.gen_range(1, 13), rng.gen_range(1, 4));
        println!("Running test on: phi {:?}", (x, y));
        assert_eq!(phi::<Packed>(&x, y), phi::<Listed>(&group(x), y));
        assert_eq!(phi_signed::<Packed>(&x, y), phi_signed::<Listed>(&group(x), y));
        assert_eq!(phi_restricted::<Packed>(&x, y), phi_restricted::<Listed>(&group(x), y));
        assert_eq!(
            phi_signed_restricted::<Packed>(&x, y),
            phi_signed_restricted::<Listed>(&group(x), y)
        );
    }

    for _ in 0..7 {
        let (x, y) = (rng.gen_range(1, 13), rng.gen_range(1, 4));
        println!("Running test on: sigma {:?}", (x, y));
        assert_eq!(sigma::<Packed>(&x, y), sigma::<Listed>(&group(x), y));
        assert_eq!(sigma_signed::<Packed>(&x, y), sigma_signed::<Listed>(&group(x), y));
        assert_eq!(sigma_restricted::<Packed>(&x, y), sigma_restricted::<Listed>(&group(x), y));
        assert_eq!(
            sigma_signed_restricted::<Packed>(&x, y),
            sigma_signed_restricted::<Listed>(&group(x), y)
        );
    }

    for _ in 0..20 {
        let (x, y, z) = (rng.gen_range(1, 13), rng.gen_range(1, 4), rng.gen_range(1, 6));
        println!("Running test on: rho {:?}", (x, y, z));
        assert_eq!(rho::<Packed>(&x, y, z), rho::<Listed>(&group(x), y, z));
        assert_eq!(rho_signed::<Packed>(&x, y, z), rho_signed::<Listed>(&group(x), y, z));
        assert_eq!(rho_restricted::<Packed>(&x, y, z), rho_restricted::<Listed>(&group(x), y, z));
        assert_eq!(
            rho_signed_restricted::<Packed>(&x, y, z),
            rho_signed_restricted::<Listed>(&group(x), y, z)
        );
    }

    for _ in 0..30 {
        let (x, y) = (rng.gen_range(1, 13), rng.gen_range(1, 4));
        println!("Running test on: chi {:?}", (x, y));
        assert_eq!(chi::<Packed>(&x, y), chi::<Listed>(&group(x), y));
        assert_eq!(chi_signed::<Packed>(&x, y), chi_signed::<Listed>(&group(x), y));
        assert_eq!(chi_restricted::<Packed>(&x, y), chi_restricted::<Listed>(&group(x), y));
        assert_eq!(
            chi_signed_restricted::<Packed>(&x, y),
            chi_signed_restricted::<Listed>(&group(x), y)
        );
    }

    for _ in 0..20 {
        let (x, y) = (rng.gen_range(1, 13), rng.gen_range(1, 4));
        println!("Running test on: tau {:?}", (x, y));
        assert_eq!(tau::<Packed>(&x, y), tau::<Listed>(&group(x), y));
        assert_eq!(tau_signed::<Packed>(&x, y), tau_signed::<Listed>(&group(x), y));
        assert_eq!(tau_restricted::<Packed>(&x, y), tau_restricted::<Listed>(&group(x), y));
        assert_eq!(
            tau_signed_restricted::<Packed>(&x, y),
            tau_signed_restricted::<Listed>(&group(x), y)
        );
    }

    for _ in 0..15 {
        let (x, y, z) = (rng.gen_range(1, 13), rng.gen_range(1, 4), rng.gen_range(1, 6));
        println!("Running test on: mu {:?}", (x, y, z));
        assert_eq!(mu::<Packed>(&x, y, z), mu::<Listed>(&group(x), y, z));
        assert_eq!(mu_signed::<Packed>(&x, y, z), mu_signed::<Listed>(&group(x), y, z));
        assert_eq!(mu_restricted::<Packed>(&x, y, z), mu_restricted::<Listed>(&group(x), y, z));
        assert_eq!(
            mu_signed_restricted::<Packed>(&x, y, z),
            mu_signed_restricted::<Listed>(&group(x), y, z)
        );
    }
}

// The random comparison on the first three families, every draw through all
// of them.
#[test]
fn lib_test_fuzz_consistency() {
    let mut rng = thread_rng();

    for _ in 0..30 {
        let (x, y, z) = (rng.gen_range(1, 13), rng.gen_range(1, 4), rng.gen_range(1, 6));
        assert_eq!(nu::<Packed>(&x, y, z), nu::<Listed>(&group(x), y, z));
        assert_eq!(nu_signed::<Packed>(&x, y, z), nu_signed::<Listed>(&group(x), y, z));
        assert_eq!(nu_restricted::<Packed>(&x, y, z), nu_restricted::<Listed>(&group(x), y, z));
        assert_eq!(
            nu_signed_restricted::<Packed>(&x, y, z),
            nu_signed_restricted::<Listed>(&group(x), y, z)
        );
    }

    for _ in 0..30 {
        let (x, y) = (rng.gen_range(1, 13), rng.gen_range(1, 4));
        assert_eq!(phi::<Packed>(&x, y), phi::<Listed>(&group(x), y));
        assert_eq!(phi_signed::<Packed>(&x, y), phi_signed::<Listed>(&group(x), y));
        assert_eq!(phi_restricted::<Packed>(&x, y), phi_restricted::<Listed>(&group(x), y));
        assert_eq!(
            phi_signed_restricted::<Packed>(&x, y),
            phi_signed_restricted::<Listed>(&group(x), y)
        );
        assert_eq!(sigma::<Packed>(&x, y), sigma::<Listed>(&group(x), y));
        assert_eq!(sigma_signed::<Packed>(&x, y), sigma_signed::<Listed>(&group(x), y));
        assert_eq!(sigma_restricted::<Packed>(&x, y), sigma_restricted::<Listed>(&group(x), y));
        assert_eq!(
            sigma_signed_restricted::<Packed>(&x, y),
            sigma_signed_restricted::<Listed>(&group(x), y)
        );
    }
}

// Inputs on which the two representations once gave different values
#[test]
fn test_tricky_consistency() {
    assert_eq!(sigma_signed::<Packed>(&10, 3), sigma_signed::<Listed>(&group(10), 3));
    assert_eq!(sigma_signed::<Packed>(&11, 2), sigma_signed::<Listed>(&group(11), 2));

    let s = vec![GElem(vec![1]), GElem(vec![0])];
    assert!(!s.zero_free(&Rc::new(vec![7])));
    assert_eq!(tau::<Packed>(&7, 3), tau::<Listed>(&group(7), 3));
}

#[test]
fn lib_test_tricky_consistency() {
    assert_eq!(sigma_signed::<Packed>(&10, 3), sigma_signed::<Listed>(&group(10), 3));
    assert_eq!(sigma_signed::<Packed>(&11, 2), sigma_signed::<Listed>(&group(11), 2));
}
