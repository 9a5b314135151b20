use enigma::utils::Rune;

#[test]
fn test_from_value_valid() {
    let rune = Rune::from_value(2).unwrap();
    assert!(rune == 'c');
}

#[test]
fn test_from_value_invalid() {
    assert!(Rune::from_value(26).is_err());
    assert!(Rune::from_value(b'c').is_err());
}

#[test]
fn test_value() {
    let rune = Rune::from_value(2).unwrap();
    assert_eq!(rune.value(), 2);
}

#[test]
fn test_from_char_valid() {
    let rune = Rune::from_char('c').unwrap();
    assert_eq!(rune, 'c');

    let rune = Rune::from_char('B').unwrap();
    assert_eq!(rune, 'b');
}

#[test]
fn test_from_char_invalid() {
    assert!(Rune::from_char('2').is_err());
}

#[test]
fn test_into_char() {
    let rune = Rune::from_value(3).unwrap();
    assert_eq!(rune.into_char(), 'D');
}

#[test]
fn test_into_string() {
    let rune = Rune::from_value(2).unwrap();
    assert_eq!(rune.into_string(), String::from("C"));
}

#[test]
fn test_from_ascii_valid() {
    let rune = Rune::from_ascii(b'c').unwrap();
    assert_eq!(rune, 'c');

    let rune = Rune::from_ascii(b'B').unwrap();
    assert_eq!(rune, 'b');
}

#[test]
fn test_from_ascii_invalid() {
    assert!(Rune::from_ascii(b'0').is_err());
}

#[test]
fn test_into_ascii() {
    let rune = Rune::from_value(2).unwrap();
    assert_eq!(rune.into_ascii(), b'C');
}

#[test]
fn test_eq_to_char() {
    let rune = Rune::from_value(2).unwrap();
    assert_eq!(rune, 'C');
    assert_eq!(rune, 'c');
}
