use enigma::math::Permutation;
use enigma::math::PermutationBuilder;
use enigma::rotator::Rotator;
use enigma::rotator::RotatorGroup;
use enigma::utils::Rune;
use enigma::utils::RUNE_SET_SIZE;
use enigma::utils::RUNE_VALUE_MAX;

fn create_test_perm_builder() -> PermutationBuilder {
    PermutationBuilder::new(RUNE_SET_SIZE)
        .swap(0, 1)
        .swap(2, 3)
        .swap(4, 5)
        .swap(6, 7)
        .swap(8, 9)
        .swap(10, 11)
        .swap(12, 13)
        .swap(14, 15)
        .swap(16, 17)
        .swap(18, 19)
        .swap(20, 21)
        .swap(22, 23)
        .swap(24, 25)
}

fn create_test_perm_builder_shift() -> PermutationBuilder {
    let mut builder = PermutationBuilder::new(RUNE_SET_SIZE);
    for i in 0..RUNE_VALUE_MAX {
        builder = builder.swap(i, i + 1);
    }
    builder
}

fn create_test_group() -> RotatorGroup {
    let perm = create_test_perm_builder_shift().build();
    RotatorGroup::new(
        Rotator::new(perm.clone(), 0).unwrap(),
        Rotator::new(perm.clone(), 0).unwrap(),
        Rotator::new(perm.clone(), 0).unwrap(),
    )
}

#[test]
fn rotator_test_from_perm_valid() {
    let perm = create_test_perm_builder_shift().build();
    assert!(Rotator::new(perm, 0).is_ok());
}

#[test]
fn rotator_test_from_perm_invalid_size() {
    let perm = Permutation::from_perm(vec![0u8, 1u8, 2u8, 3u8]).unwrap();
    assert!(Rotator::new(perm, 0).is_err());
}

#[test]
fn rotator_test_map_forward() {
    let perm = create_test_perm_builder_shift().build();
    let rotator = Rotator::new(perm, 0).unwrap();
    assert_eq!(rotator.map_forward(Rune::from_char('a').unwrap()), 'b');
    assert_eq!(rotator.map_forward(Rune::from_char('b').unwrap()), 'c');
    assert_eq!(rotator.map_forward(Rune::from_char('c').unwrap()), 'd');
}

#[test]
fn rotator_test_map_backward() {
    let perm = create_test_perm_builder_shift().build();
    let rotator = Rotator::new(perm, 0).unwrap();
    assert_eq!(rotator.map_backward(Rune::from_char('a').unwrap()), 'z');
    assert_eq!(rotator.map_backward(Rune::from_char('b').unwrap()), 'a');
    assert_eq!(rotator.map_backward(Rune::from_char('c').unwrap()), 'b');
}

#[test]
fn test_advance_once() {
    let perm = create_test_perm_builder().build();
    let mut rotator = Rotator::new(perm, 0).unwrap();

    rotator.advance();
    assert_eq!(rotator.offset(), 1);

    assert_eq!(rotator.map_forward(Rune::from_char('a').unwrap()), 'z');
    assert_eq!(rotator.map_forward(Rune::from_char('b').unwrap()), 'c');

    assert_eq!(rotator.map_backward(Rune::from_char('a').unwrap()), 'z');
    assert_eq!(rotator.map_backward(Rune::from_char('b').unwrap()), 'c');
}

#[test]
fn test_advance_scroll_back() {
    let perm = create_test_perm_builder_shift().build();
    let mut rotator = Rotator::new(perm, 0).unwrap();

    for _ in 0..RUNE_VALUE_MAX {
        assert!(rotator.advance());
    }

    assert!(!rotator.advance());
    assert_eq!(rotator.offset(), 0);
}

#[test]
fn rotator_group_test_map_forward() {
    let group = create_test_group();
    assert_eq!(group.map_forward(Rune::from_char('a').unwrap()), 'd');
    assert_eq!(group.map_forward(Rune::from_char('b').unwrap()), 'e');
}

#[test]
fn rotator_group_test_map_backward() {
    let group = create_test_group();
    assert_eq!(group.map_backward(Rune::from_char('a').unwrap()), 'x');
    assert_eq!(group.map_backward(Rune::from_char('b').unwrap()), 'y');
}

#[test]
fn test_advance() {
    let mut group = create_test_group();

    group.advance();
    assert_eq!(group.offsets(), (1, 0, 0));

    while group.offsets().0 != RUNE_VALUE_MAX {
        group.advance();
    }
    group.advance();
    assert_eq!(group.offsets(), (0, 1, 0));

    while group.offsets().1 != RUNE_VALUE_MAX || group.offsets().0 != RUNE_VALUE_MAX {
        group.advance();
    }
    group.advance();
    assert_eq!(group.offsets(), (0, 0, 1));
}

#[test]
fn rotator_round_trip_at_any_offset() {
    let perm = create_test_perm_builder_shift().build();
    for offset in 0..RUNE_SET_SIZE {
        let rotator = Rotator::new(perm.clone(), offset).unwrap();
        for value in 0..RUNE_SET_SIZE {
            let rune = Rune::from_value(value).unwrap();
            assert_eq!(rotator.map_backward(rotator.map_forward(rune)), rune);
            assert_eq!(rotator.map_forward(rotator.map_backward(rune)), rune);
        }
    }
}

#[test]
fn group_carry_propagation() {
    let perm = create_test_perm_builder_shift().build();
    let mut group = RotatorGroup::new(
        Rotator::new(perm.clone(), 7).unwrap(),
        Rotator::new(perm.clone(), 3).unwrap(),
        Rotator::new(perm.clone(), 11).unwrap(),
    );

    for _ in 0..RUNE_SET_SIZE {
        group.advance();
    }
    assert_eq!(group.offsets(), (7, 4, 11));

    let mut group2 = RotatorGroup::new(
        Rotator::new(perm.clone(), 7).unwrap(),
        Rotator::new(perm.clone(), 3).unwrap(),
        Rotator::new(perm.clone(), 11).unwrap(),
    );
    for _ in 0..(RUNE_SET_SIZE as usize * RUNE_SET_SIZE as usize) {
        group2.advance();
    }
    assert_eq!(group2.offsets(), (7, 3, 12));
}

#[test]
fn rotator_offset_reduced_modulo_alphabet() {
    let perm = create_test_perm_builder_shift().build();
    let rotator = Rotator::new(perm, 27).unwrap();
    assert_eq!(rotator.offset(), 1);
}
