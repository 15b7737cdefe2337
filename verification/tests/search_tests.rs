use addcomb_comp::comb::chapter_a::{nu, nu_interval, nu_signed};
use addcomb_comp::comb::chapter_b::{
    phi, phi_interval, phi_restricted, phi_restricted_interval, phi_signed_restricted,
};
use addcomb_comp::comb::chapter_c::{sigma, sigma_restricted};
use addcomb_comp::comb::chapter_d::{rho, rho_restricted};
use addcomb_comp::comb::chapter_e::{chi, chi_restricted};
use addcomb_comp::comb::chapter_f::{tau, tau_restricted, tau_signed_interval};
use addcomb_comp::comb::chapter_g::{mu, mu_restricted, mu_signed_restricted};
use addcomb_comp::comb::exacts::{
    chi_exact, mu_exact, nu_exact, nu_interval_exact, phi_exact, phi_interval_exact, rho_exact,
    sigma_exact, tau_exact,
};
use addcomb_comp::comb::search::{find, first_with, largest, smallest, Fold, Probe};
use addcomb_comp::exactset::GElem;
use addcomb_comp::fastset::FastSet;
use addcomb_comp::setlike::HFolds;

use std::rc::Rc;

#[test]
fn nu_of_an_interval_from_zero() {
    for n in [6u32, 10, 17] {
        for m in [3u32, 4] {
            for s in [1u32, 2] {
                assert_eq!(nu_interval::<FastSet>(&n, m, (0, s)), nu::<FastSet>(&n, m + 1, s));
            }
        }
    }
}

#[test]
fn nu_values() {
    // a set of two residues has at most three sums of two
    assert_eq!(nu::<FastSet>(&10, 2, 2), 3);
    // a spanning set ends the scan
    assert_eq!(nu::<FastSet>(&5, 3, 2), 5);
    // no subset of more members than the group has
    assert_eq!(nu::<FastSet>(&5, 6, 2), 0);
    // the empty set has the one sum of no term, and none of one term
    assert_eq!(nu::<FastSet>(&5, 0, 0), 1);
    assert_eq!(nu::<FastSet>(&5, 0, 1), 0);
    assert_eq!(nu::<Vec<GElem>>(&Rc::new(vec![5]), 0, 1), 0);
    assert_eq!(nu_signed::<FastSet>(&10, 1, 1), 2);
    assert_eq!(nu::<FastSet<u128>>(&100, 2, 2), 3);
}

#[test]
fn rho_values() {
    // a subgroup is as small as a sumset gets
    assert_eq!(rho::<FastSet>(&10, 5, 2), 5);
    assert_eq!(rho::<FastSet>(&7, 2, 2), 3);
    // without a subset of that size the size of the group stands
    assert_eq!(rho::<FastSet>(&7, 8, 2), 7);
    assert_eq!(rho_restricted::<FastSet>(&7, 2, 3), 0);
    assert_eq!(rho::<Vec<GElem>>(&Rc::new(vec![2, 2]), 2, 2), 2);
}

#[test]
fn phi_values() {
    assert_eq!(phi::<FastSet>(&1, 5), Some(1));
    assert_eq!(phi::<FastSet>(&9, 1), Some(9));
    // two residues whose sums of up to two terms are all of Z_5
    assert_eq!(phi_interval::<FastSet>(&5, (0, 2)), Some(2));
    assert_eq!(phi::<FastSet>(&5, 2), Some(3));
    // sums of no term never span a group of more than one element
    assert_eq!(phi_interval::<FastSet>(&5, (0, 0)), None);
    assert_eq!(phi::<FastSet>(&5, 0), None);
    assert_eq!(phi_interval::<FastSet>(&1, (0, 0)), Some(1));
    assert_eq!(phi_restricted::<FastSet>(&4, 7), Some(4));
    assert_eq!(phi_signed_restricted::<FastSet>(&4, 4), Some(4));
    assert_eq!(phi_interval_exact(&[2], 2, 2), Some(2));
    // two distinct residues of Z_2 have the one sum 1
    assert_eq!(phi_restricted_interval::<FastSet>(&2, (2, 2)), None);
}

#[test]
fn sigma_values() {
    assert_eq!(sigma::<FastSet>(&1, 2), 0);
    assert_eq!(sigma::<FastSet>(&7, 2), 3);
    assert_eq!(sigma_restricted::<FastSet>(&7, 2), 4);
    // an expected size beyond every sumset
    assert_eq!(sigma::<FastSet>(&7, 40), 1);
}

#[test]
fn chi_values() {
    assert_eq!(chi::<FastSet>(&1, 1), 1);
    // only the whole group is all that its one-term sums are
    assert_eq!(chi::<FastSet>(&6, 1), 6);
    assert_eq!(chi::<FastSet>(&5, 2), 3);
    // sums of no term span nothing but the group of one element
    assert_eq!(chi::<FastSet>(&5, 0), 6);
    assert_eq!(chi_restricted::<FastSet>(&3, 5), 4);
    assert_eq!(chi_exact(&[5], 2), 3);
}

#[test]
fn tau_values() {
    assert_eq!(tau::<FastSet>(&1, 2), 0);
    assert_eq!(tau::<FastSet>(&7, 3), tau::<Vec<GElem>>(&Rc::new(vec![7]), 3));
    // the odd residues of Z_10 have no sum of three that is 0
    assert_eq!(tau::<FastSet>(&10, 3), 5);
    assert_eq!(tau_signed_interval::<FastSet>(&5, (1, 1)), 4);
    // known without a search
    assert_eq!(tau_restricted::<FastSet>(&12, 3), 6);
    assert_eq!(tau_restricted::<FastSet>(&12, 5), 7);
    assert_eq!(tau_restricted::<FastSet>(&12, 7), 8);
    assert_eq!(tau_restricted::<FastSet>(&12, 11), 11);
    assert_eq!(tau_restricted::<FastSet>(&14, 3), 7);
    assert_eq!(tau_restricted::<FastSet>(&1, 3), 1);
    assert_eq!(tau_exact(&[10], 3), 5);
}

#[test]
fn mu_values() {
    assert_eq!(mu::<FastSet>(&9, 2, 2), 0);
    assert_eq!(mu_restricted::<FastSet>(&9, 3, 3), 0);
    assert_eq!(mu_restricted::<FastSet>(&6, 8, 1), 6);
    assert_eq!(mu_signed_restricted::<FastSet>(&6, 1, 8), 6);
    assert_eq!(mu::<FastSet>(&1, 2, 1), 0);
    // the odd residues of Z_10: sums of two are even
    assert_eq!(mu::<FastSet>(&10, 2, 1), 5);
    assert_eq!(mu_exact(&[10], 2, 1), 5);
    // the start that is known for the group of order 2 * (2 * 2 - 1)
    assert_eq!(mu_restricted::<FastSet>(&6, 2, 1), mu_restricted::<Vec<GElem>>(&Rc::new(vec![6]), 2, 1));
}

#[test]
fn groups_as_lists_of_moduli() {
    assert_eq!(nu_exact(&[2, 2], 2, 1), 2);
    // twice an element of Z_2 x Z_2 is the identity
    assert_eq!(nu_exact(&[2, 2], 2, 2), 2);
    assert_eq!(nu_interval_exact(&[2, 2], 2, 0, 2), 4);
    assert_eq!(rho_exact(&[2, 2], 2, 2), 2);
    assert_eq!(phi_exact(&[2, 2], 2), Some(3));
    assert_eq!(sigma_exact(&[7], 2), 3);
    assert_eq!(nu_exact(&[3, 3], 2, 2), 3);
    assert_eq!(nu_exact(&[9], 3, 2), nu::<FastSet>(&9, 3, 2));
}

#[test]
fn the_first_witness_is_found() {
    let probe = Probe::Spans(Fold::Plain(2));
    let hit = find::<FastSet>(&5, 3, probe, false);
    assert_eq!(hit.map(|s| s.as_vec()), Some(vec![0, 1, 2]));
    let miss = find::<FastSet>(&5, 1, probe, false);
    assert!(miss.is_none());
    let free = find::<FastSet>(&7, 2, Probe::ZeroFree(Fold::Plain(2)), true);
    assert_eq!(free.map(|s| s.as_vec()), Some(vec![1, 2]));
    let found = first_with::<FastSet>(&5, 1, 5, probe, false);
    assert_eq!(found.map(|f| (f.size, f.set.as_vec())), Some((3, vec![0, 1, 2])));
    let sized = find::<FastSet>(&7, 2, Probe::HasSize(Fold::Plain(2), 3), false);
    assert_eq!(sized.map(|s| s.as_vec()), Some(vec![0, 1]));
    let disjoint = find::<FastSet>(&6, 3, Probe::SumFree(Fold::Plain(2), Fold::Plain(1)), false);
    assert_eq!(disjoint.map(|s| s.as_vec()), Some(vec![1, 3, 5]));
    let short = find::<FastSet>(&5, 4, Probe::FallsShort(Fold::Plain(2)), false);
    assert!(short.is_none());
}

#[test]
fn the_extremes_come_with_a_witness() {
    let (most, by) = largest::<FastSet>(&10, 2, Fold::Plain(2));
    assert_eq!(most, 3);
    let by = by.unwrap();
    assert_eq!(by.hfold_sumset(2, &10).size(), 3);
    assert_eq!(by.as_vec(), vec![0, 1]);
    let (least, by) = smallest::<FastSet>(&10, 5, Fold::Plain(2));
    assert_eq!(least, 5);
    assert_eq!(by.unwrap().as_vec(), vec![0, 2, 4, 6, 8]);
    let (none, by) = largest::<FastSet>(&3, 4, Fold::Plain(2));
    assert_eq!(none, 0);
    assert!(by.is_none());
}

#[test]
fn each_operator_by_its_name() {
    let a: FastSet<u64> = FastSet::from_slice(&[1, 2]);
    assert_eq!(Fold::Plain(2).apply(&a, &7).as_vec(), vec![2, 3, 4]);
    assert_eq!(Fold::PlainInterval(1, 2).apply(&a, &7).as_vec(), vec![1, 2, 3, 4]);
    assert_eq!(Fold::Signed(1).apply(&a, &7).as_vec(), vec![1, 2, 5, 6]);
    assert_eq!(Fold::SignedInterval(0, 1).apply(&a, &7).as_vec(), vec![0, 1, 2, 5, 6]);
    assert_eq!(Fold::Restricted(2).apply(&a, &7).as_vec(), vec![3]);
    assert_eq!(Fold::RestrictedInterval(1, 2).apply(&a, &7).as_vec(), vec![1, 2, 3]);
    assert_eq!(Fold::SignedRestricted(2).apply(&a, &7).as_vec(), vec![1, 3, 4, 6]);
    assert_eq!(
        Fold::SignedRestrictedInterval(2, 3).apply(&a, &7).as_vec(),
        vec![1, 3, 4, 6]
    );
}

#[test]
fn the_first_of_equals_is_reported() {
    // many pairs have three sums of two; the one that is walked through first is named
    let (most, by) = largest::<Vec<GElem>>(&Rc::new(vec![10]), 2, Fold::Plain(2));
    assert_eq!(most, 3);
    assert_eq!(by.unwrap(), vec![GElem(vec![0]), GElem(vec![1])]);
    let (least, by) = smallest::<Vec<GElem>>(&Rc::new(vec![2, 2]), 2, Fold::Plain(2));
    assert_eq!(least, 2);
    assert_eq!(by.unwrap(), vec![GElem(vec![0, 0]), GElem(vec![1, 0])]);
    let hit = find::<Vec<GElem>>(&Rc::new(vec![2, 2]), 2, Probe::ZeroFree(Fold::Plain(1)), true);
    assert_eq!(hit.unwrap(), vec![GElem(vec![1, 0]), GElem(vec![0, 1])]);
}
