use enigma::math::Permutation;
use enigma::math::PermutationBuilder;
use enigma::reflector::Reflector;
use enigma::utils::Rune;
use enigma::utils::RUNE_SET_SIZE;

fn create_test_perm_builder() -> PermutationBuilder {
    PermutationBuilder::new(RUNE_SET_SIZE)
        .swap(0, 1)
        .swap(2, 3)
        .swap(4, 5)
        .swap(6, 7)
        .swap(8, 9)
        .swap(10, 11)
        .swap(12, 13)
        .swap(14, 15)
        .swap(16, 17)
        .swap(18, 19)
        .swap(20, 21)
        .swap(22, 23)
        .swap(24, 25)
}

#[test]
fn reflector_test_from_perm_valid() {
    let perm = create_test_perm_builder().build();
    assert!(Reflector::from_perm(perm).is_ok());
}

#[test]
fn reflector_test_from_perm_invalid_size() {
    let perm = Permutation::from_perm(vec![0u8, 1u8, 2u8, 3u8]).unwrap();
    assert!(Reflector::from_perm(perm).is_err());
}

#[test]
fn test_from_perm_invalid_fixed_point() {
    // The permutation should not have any fixed points.
    let perm = PermutationBuilder::new(RUNE_SET_SIZE).build();
    assert!(Reflector::from_perm(perm).is_err());
}

#[test]
fn reflector_test_from_perm_invalid_cycle() {
    // The length of the longest cycle within the permutation should be 2.
    let perm = create_test_perm_builder().swap(0, 2).build();
    assert!(Reflector::from_perm(perm).is_err());
}

#[test]
fn reflector_test_map() {
    let reflector = Reflector::from_perm(create_test_perm_builder().build()).unwrap();
    assert_eq!(reflector.map(Rune::from_char('a').unwrap()), 'b');
    assert_eq!(reflector.map(Rune::from_char('b').unwrap()), 'a');
    assert_eq!(reflector.map(Rune::from_char('c').unwrap()), 'd');
    assert_eq!(reflector.map(Rune::from_char('d').unwrap()), 'c');
}

#[test]
fn reflector_rejects_mixed_cycles() {
    // A 4-cycle (0 1 2 3) among the pair swaps: fixed-point-free, but not
    // an involution.
    let mut values: Vec<u8> = Vec::new();
    values.push(1);
    values.push(2);
    values.push(3);
    values.push(0);
    for i in 2..(RUNE_SET_SIZE / 2) {
        values.push(2 * i + 1);
        values.push(2 * i);
    }
    let perm = Permutation::from_perm(values).unwrap();
    assert!(Reflector::from_perm(perm).is_err());
}
