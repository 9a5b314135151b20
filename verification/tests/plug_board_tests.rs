use enigma::math::Permutation;
use enigma::math::PermutationBuilder;
use enigma::plug_board::PlugBoard;
use enigma::utils::Rune;
use enigma::utils::RUNE_SET_SIZE;

fn create_test_perm_builder() -> PermutationBuilder {
    PermutationBuilder::new(RUNE_SET_SIZE)
        .swap(0, 1)
        .swap(2, 3)
        .swap(4, 5)
        .swap(6, 7)
        .swap(8, 9)
        .swap(10, 11)
        .swap(12, 13)
        .swap(14, 15)
        .swap(16, 17)
        .swap(18, 19)
        .swap(20, 21)
        .swap(22, 23)
        .swap(24, 25)
}

#[test]
fn plug_board_test_from_perm_valid() {
    let perm = create_test_perm_builder().build();
    assert!(PlugBoard::from_perm(perm).is_ok());
}

#[test]
fn plug_board_test_from_perm_invalid_size() {
    let perm = Permutation::from_perm(vec![0u8, 1u8, 2u8, 3u8]).unwrap();
    assert!(PlugBoard::from_perm(perm).is_err());
}

#[test]
fn plug_board_test_from_perm_invalid_cycle() {
    let perm = create_test_perm_builder().swap(0, 2).build();
    assert!(PlugBoard::from_perm(perm).is_err());
}

#[test]
fn plug_board_test_map() {
    let board = PlugBoard::from_perm(create_test_perm_builder().build()).unwrap();
    assert_eq!(board.map(Rune::from_char('a').unwrap()), 'b');
    assert_eq!(board.map(Rune::from_char('c').unwrap()), 'd');
}

#[test]
fn plug_board_accepts_identity() {
    let perm = PermutationBuilder::new(RUNE_SET_SIZE).build();
    assert!(PlugBoard::from_perm(perm).is_ok());
}

#[test]
fn plug_board_rejects_three_cycle() {
    // 0 -> 1 -> 2 -> 0 is a 3-cycle; the rest of the alphabet is fixed.
    let mut values: Vec<u8> = (0..RUNE_SET_SIZE).collect();
    values[0] = 1;
    values[1] = 2;
    values[2] = 0;
    let perm = Permutation::from_perm(values).unwrap();
    assert!(PlugBoard::from_perm(perm).is_err());
}
