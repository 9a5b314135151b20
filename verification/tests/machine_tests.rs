use enigma::machine::Enigma;
use enigma::math::PermutationBuilder;
use enigma::plug_board::PlugBoard;
use enigma::reflector::Reflector;
use enigma::rotator::Rotator;
use enigma::rotator::RotatorGroup;
use enigma::utils::Rune;
use enigma::utils::RUNE_SET_SIZE;
use enigma::utils::RUNE_VALUE_MAX;

fn pairing_builder() -> PermutationBuilder {
    PermutationBuilder::new(RUNE_SET_SIZE)
        .swap(0, 1)
        .swap(2, 3)
        .swap(4, 5)
        .swap(6, 7)
        .swap(8, 9)
        .swap(10, 11)
        .swap(12, 13)
        .swap(14, 15)
        .swap(16, 17)
        .swap(18, 19)
        .swap(20, 21)
        .swap(22, 23)
        .swap(24, 25)
}

fn shift_builder() -> PermutationBuilder {
    let mut builder = PermutationBuilder::new(RUNE_SET_SIZE);
    for i in 0..RUNE_VALUE_MAX {
        builder = builder.swap(i, i + 1);
    }
    builder
}

fn identity_machine() -> Enigma {
    let plug = PlugBoard::from_perm(PermutationBuilder::new(RUNE_SET_SIZE).build()).unwrap();
    let identity = PermutationBuilder::new(RUNE_SET_SIZE).build();
    let rotators = RotatorGroup::new(
        Rotator::new(identity.clone(), 0).unwrap(),
        Rotator::new(identity.clone(), 0).unwrap(),
        Rotator::new(identity.clone(), 0).unwrap(),
    );
    let reflector = Reflector::from_perm(pairing_builder().build()).unwrap();
    Enigma::new(plug, rotators, reflector)
}

fn shifted_machine() -> Enigma {
    let plug = PlugBoard::from_perm(pairing_builder().build()).unwrap();
    let wiring = shift_builder().build();
    let rotators = RotatorGroup::new(
        Rotator::new(wiring.clone(), 5).unwrap(),
        Rotator::new(wiring.clone(), 17).unwrap(),
        Rotator::new(wiring.clone(), 23).unwrap(),
    );
    let reflector = Reflector::from_perm(pairing_builder().build()).unwrap();
    Enigma::new(plug, rotators, reflector)
}

#[test]
fn end_to_end_identity_rotors() {
    // With an identity plug board, identity rotors at offset 0 and the
    // reflector that swaps adjacent pairs, encrypting "A" yields "B" and
    // encrypting "B" yields "A".
    let mut machine = identity_machine();
    assert_eq!(machine.map_str("A"), String::from("B"));

    let mut machine = identity_machine();
    assert_eq!(machine.map_str("B"), String::from("A"));
}

#[test]
fn static_map_is_involution() {
    let machine = shifted_machine();
    for value in 0..RUNE_SET_SIZE {
        let rune = Rune::from_value(value).unwrap();
        let once = machine.map_rune_static(rune);
        let twice = machine.map_rune_static(once);
        assert_eq!(twice, rune);
        // A reflector in the middle means no letter maps to itself.
        assert_ne!(once, rune);
    }
}

#[test]
fn map_str_drops_non_letters() {
    let mut machine = identity_machine();
    let output = machine.map_str("a b!c\nd");
    assert_eq!(output, String::from("BADC"));
}

#[test]
fn map_str_advances_rotators() {
    // Encrypting letter by letter matches encrypting the whole string.
    let mut machine_a = shifted_machine();
    let all = machine_a.map_str("hello");

    let mut machine_b = shifted_machine();
    let mut piecewise = String::new();
    for ch in "hello".chars() {
        piecewise.push(machine_b.map_rune(Rune::from_char(ch).unwrap()).into_char());
    }
    assert_eq!(all, piecewise);
}

#[test]
fn decryption_with_same_settings_restores_text() {
    let mut encryptor = shifted_machine();
    let ciphertext = encryptor.map_str("attackatdawn");

    let mut decryptor = shifted_machine();
    let plaintext = decryptor.map_str(&ciphertext);
    assert_eq!(plaintext, String::from("ATTACKATDAWN"));
}
