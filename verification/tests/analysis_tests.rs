use enigma::analysis::crack;
use enigma::analysis::get_secret_permutations;
use enigma::analysis::is_cycle_decomposition_eq;
use enigma::analysis::CrackError;
use enigma::analysis::Indicator;
use enigma::machine::Enigma;
use enigma::math::PermutationBuilder;
use enigma::plug_board::PlugBoard;
use enigma::reflector::Reflector;
use enigma::rotator::Rotator;
use enigma::rotator::RotatorGroup;
use enigma::utils::RUNE_SET_SIZE;
use enigma::utils::RUNE_VALUE_MAX;

fn pairing_builder() -> PermutationBuilder {
    PermutationBuilder::new(RUNE_SET_SIZE)
        .swap(0, 1)
        .swap(2, 3)
        .swap(4, 5)
        .swap(6, 7)
        .swap(8, 9)
        .swap(10, 11)
        .swap(12, 13)
        .swap(14, 15)
        .swap(16, 17)
        .swap(18, 19)
        .swap(20, 21)
        .swap(22, 23)
        .swap(24, 25)
}

fn shift_builder() -> PermutationBuilder {
    let mut builder = PermutationBuilder::new(RUNE_SET_SIZE);
    for i in 0..RUNE_VALUE_MAX {
        builder = builder.swap(i, i + 1);
    }
    builder
}

/// The machine configuration under attack: identity plug board, three
/// equal rotors at offset 0, pair-swapping reflector.
fn attack_machine() -> Enigma {
    let plug = PlugBoard::from_perm(PermutationBuilder::new(RUNE_SET_SIZE).build()).unwrap();
    let wiring = shift_builder().build();
    let rotators = RotatorGroup::new(
        Rotator::new(wiring.clone(), 0).unwrap(),
        Rotator::new(wiring.clone(), 0).unwrap(),
        Rotator::new(wiring.clone(), 0).unwrap(),
    );
    let reflector = Reflector::from_perm(pairing_builder().build()).unwrap();
    Enigma::new(plug, rotators, reflector)
}

fn letter(x: u8) -> char {
    (b'a' + x) as char
}

#[test]
fn indicator_rejects_wrong_length() {
    assert_eq!(Indicator::from_str("abcde").unwrap_err(), CrackError::MalformedIndicator);
    assert_eq!(Indicator::from_str("abcdefg").unwrap_err(), CrackError::MalformedIndicator);
    assert_eq!(Indicator::from_str("").unwrap_err(), CrackError::MalformedIndicator);
}

#[test]
fn indicator_rejects_non_alphabetic() {
    assert_eq!(Indicator::from_str("abc1ef").unwrap_err(), CrackError::MalformedIndicator);
    assert_eq!(Indicator::from_str("a cdef").unwrap_err(), CrackError::MalformedIndicator);
}

#[test]
fn indicator_accepts_mixed_case() {
    assert!(Indicator::from_str("AbCdEf").is_ok());
}

#[test]
fn secret_permutations_conflicting() {
    let inds = vec![
        Indicator::from_str("aaabbb").unwrap(),
        Indicator::from_str("aaaccc").unwrap(),
    ];
    assert_eq!(get_secret_permutations(&inds).unwrap_err(), CrackError::ConflictingIndicator);
}

#[test]
fn secret_permutations_insufficient() {
    // Only 25 of the 26 input letters appear: the table cannot be filled.
    let mut inds = Vec::new();
    for x in 0..25u8 {
        let c = letter(x);
        let s: String = [c, c, c, c, c, c].iter().collect();
        inds.push(Indicator::from_str(&s).unwrap());
    }
    assert_eq!(get_secret_permutations(&inds).unwrap_err(), CrackError::InsufficientIndicators);
}

#[test]
fn secret_permutations_empty_set_is_insufficient() {
    let inds: Vec<Indicator> = Vec::new();
    assert_eq!(get_secret_permutations(&inds).unwrap_err(), CrackError::InsufficientIndicators);
}

#[test]
fn secret_permutations_non_injective_table() {
    // Every input letter appears exactly once, so there is no conflict
    // and the table is fully determined; but inputs a and b both map to
    // a in the first slot, so the table is not a permutation.
    let mut inds = Vec::new();
    for x in 0..26u8 {
        let c = letter(x);
        let first_out = if x <= 1 { letter(0) } else { c };
        let s: String = [c, c, c, first_out, c, c].iter().collect();
        inds.push(Indicator::from_str(&s).unwrap());
    }
    assert_eq!(get_secret_permutations(&inds).unwrap_err(), CrackError::InvalidPermutation);
}

#[test]
fn secret_permutations_complete_identity() {
    let mut inds = Vec::new();
    for x in 0..26u8 {
        let c = letter(x);
        let s: String = [c, c, c, c, c, c].iter().collect();
        inds.push(Indicator::from_str(&s).unwrap());
    }
    let perms = get_secret_permutations(&inds).unwrap();
    assert_eq!(perms.len(), 3);
    for p in &perms {
        for v in 0..26u8 {
            assert_eq!(p.map(v), v);
        }
    }
}

#[test]
fn cycle_decomposition_eq_compares_contents() {
    assert!(is_cycle_decomposition_eq(&vec![1, 3, 3], &vec![1, 3, 3]));
    assert!(!is_cycle_decomposition_eq(&vec![1, 3, 3], &vec![1, 3]));
    assert!(!is_cycle_decomposition_eq(&vec![1, 3, 3], &vec![1, 2, 3]));
}

#[test]
fn crack_recovers_true_starting_position() {
    // Generate one doubled indicator for each of 26 message keys by
    // running the known machine forward from its starting state, then
    // check that the search reports that starting state (position 0)
    // among its candidates.
    let mut inds = Vec::new();
    for x in 0..26u8 {
        let c = letter(x);
        let doubled: String = [c, c, c, c, c, c].iter().collect();
        let mut machine = attack_machine();
        let indicator = machine.map_str(&doubled);
        inds.push(Indicator::from_str(&indicator).unwrap());
    }

    let mut machine = attack_machine();
    let candidates = crack(&mut machine, &inds).unwrap();
    assert!(candidates.contains(&0));
}

#[test]
fn crack_reports_insufficiency() {
    let mut inds = Vec::new();
    for x in 0..5u8 {
        let c = letter(x);
        let doubled: String = [c, c, c, c, c, c].iter().collect();
        let mut machine = attack_machine();
        let indicator = machine.map_str(&doubled);
        inds.push(Indicator::from_str(&indicator).unwrap());
    }
    let mut machine = attack_machine();
    assert_eq!(crack(&mut machine, &inds).unwrap_err(), CrackError::InsufficientIndicators);
}
