use addcomb_comp::public::{compute, Call, Failure, GroupName, Kind, Terms};

#[test]
fn a_group_that_is_none() {
    let call = Call::Nu(2, Terms::Exactly(2));
    assert_eq!(compute(&GroupName::Cyclic(0), Kind::Plain, call), Err(Failure::BadGroup));
    assert_eq!(compute(&GroupName::Product(vec![]), Kind::Plain, call), Err(Failure::BadGroup));
    assert_eq!(
        compute(&GroupName::Product(vec![3, 0]), Kind::Plain, call),
        Err(Failure::BadGroup)
    );
    assert_eq!(
        compute(&GroupName::Product(vec![65536, 65536]), Kind::Plain, call),
        Err(Failure::BadGroup)
    );
}

#[test]
fn small_cyclic_groups() {
    assert_eq!(compute(&GroupName::Cyclic(9), Kind::Restricted, Call::Mu(3, 1)), Ok(4));
    assert_eq!(
        compute(&GroupName::Cyclic(10), Kind::Plain, Call::Nu(2, Terms::Exactly(2))),
        Ok(3)
    );
    assert_eq!(
        compute(&GroupName::Cyclic(12), Kind::Restricted, Call::Tau(Terms::Exactly(3))),
        Ok(6)
    );
    assert_eq!(compute(&GroupName::Cyclic(7), Kind::Plain, Call::Sigma(Terms::Exactly(2))), Ok(3));
    assert_eq!(
        compute(&GroupName::Cyclic(7), Kind::Plain, Call::Sigma(Terms::Between(0, 2))),
        Ok(2)
    );
    assert_eq!(compute(&GroupName::Cyclic(5), Kind::Plain, Call::Chi(Terms::Exactly(2))), Ok(3));
    assert_eq!(
        compute(&GroupName::Cyclic(10), Kind::Plain, Call::Rho(5, Terms::Exactly(2))),
        Ok(5)
    );
    assert_eq!(compute(&GroupName::Cyclic(5), Kind::Plain, Call::Phi(Terms::Exactly(2))), Ok(3));
}

#[test]
fn a_cyclic_group_beyond_the_word() {
    // 130 residues do not fit the word: the lists take over
    assert_eq!(
        compute(&GroupName::Cyclic(130), Kind::Plain, Call::Nu(2, Terms::Exactly(2))),
        Ok(3)
    );
    assert_eq!(
        compute(&GroupName::Cyclic(127), Kind::Plain, Call::Nu(2, Terms::Exactly(2))),
        Ok(3)
    );
    assert_eq!(
        compute(&GroupName::Cyclic(128), Kind::Signed, Call::Nu(1, Terms::Exactly(1))),
        Ok(2)
    );
}

#[test]
fn a_product_of_groups() {
    let g = GroupName::Product(vec![2, 2]);
    assert_eq!(compute(&g, Kind::Plain, Call::Phi(Terms::Exactly(2))), Ok(3));
    assert_eq!(compute(&g, Kind::Plain, Call::Nu(2, Terms::Exactly(2))), Ok(2));
    assert_eq!(compute(&g, Kind::Plain, Call::Nu(2, Terms::Between(0, 2))), Ok(4));
    assert_eq!(compute(&g, Kind::Plain, Call::Mu(2, 2)), Ok(0));
    // a list of one modulus is the cyclic group
    assert_eq!(
        compute(&GroupName::Product(vec![9]), Kind::Restricted, Call::Mu(3, 1)),
        compute(&GroupName::Cyclic(9), Kind::Restricted, Call::Mu(3, 1))
    );
}

#[test]
fn calls_without_a_value() {
    assert_eq!(
        compute(&GroupName::Cyclic(5), Kind::Plain, Call::Phi(Terms::Exactly(0))),
        Err(Failure::NotFound)
    );
    assert_eq!(
        compute(&GroupName::Cyclic(5), Kind::Plain, Call::Phi(Terms::Between(0, 0))),
        Err(Failure::NotFound)
    );
    assert_eq!(
        compute(&GroupName::Cyclic(7), Kind::Plain, Call::Sigma(Terms::Between(1, 2))),
        Err(Failure::BadInterval)
    );
    // a group with as many elements as the greatest number
    let huge = GroupName::Product(vec![65535, 65537]);
    assert_eq!(compute(&huge, Kind::Plain, Call::Chi(Terms::Exactly(1))), Err(Failure::TooLarge));
    assert_eq!(compute(&huge, Kind::Plain, Call::Phi(Terms::Exactly(2))), Err(Failure::TooLarge));
}
