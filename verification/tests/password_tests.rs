#![allow(non_snake_case)]

use grp::bignat::BigNat;
use grp::shuffle::shuffle_bytes;
use grp::PasswordError;
use grp::RandomPassword;

fn is_letter(c: char) -> bool {
    c.is_ascii_uppercase() || c.is_ascii_lowercase()
}

fn is_symbol(c: char) -> bool {
    let n = c as u32;
    (33..=47).contains(&n) || (58..=64).contains(&n) || (91..=96).contains(&n)
        || (123..=126).contains(&n)
}

fn is_digit(c: char) -> bool {
    c.is_ascii_digit()
}

#[test]
fn _GEN_works() {
    assert_eq!(
        RandomPassword::_GEN(vec![(48, 57)]),
        vec!["0", "1", "2", "3", "4", "5", "6", "7", "8", "9"]
    );
    assert_eq!(
        RandomPassword::_GEN(vec![(33, 47), (58, 64), (91, 96), (123, 126)]),
        vec![
            "!", "\"", "#", "$", "%", "&", "\'", "(", ")", "*", "+", ",", "-", ".", "/", ":", ";",
            "<", "=", ">", "?", "@", "[", "\\", "]", "^", "_", "`", "{", "|", "}", "~"
        ]
    );
    assert_eq!(
        RandomPassword::_GEN(vec![(65, 90), (97, 122)]),
        vec![
            "A", "B", "C", "D", "E", "F", "G", "H", "I", "J", "K", "L", "M", "N", "O", "P", "Q",
            "R", "S", "T", "U", "V", "W", "X", "Y", "Z", "a", "b", "c", "d", "e", "f", "g", "h",
            "i", "j", "k", "l", "m", "n", "o", "p", "q", "r", "s", "t", "u", "v", "w", "x", "y",
            "z"
        ]
    );
}

#[test]
fn _RAND_IDX_works() {
    assert!(RandomPassword::_RAND_IDX(10_000, 100_0000)
        .into_iter()
        .filter(|x| *x > 100_0000)
        .collect::<Vec<_>>()
        .is_empty());
}

#[test]
fn constructor_works() {
    let rp0 = RandomPassword::new(0, 0, 0);
    assert!(rp0.is_ok());

    let rp1 = RandomPassword::new(12, 1, 1);
    assert!(rp1.is_ok());

    let rp2 = RandomPassword::new(-1, 1, 1);
    assert!(rp2.is_err());

    let rp3 = RandomPassword::new(2, 2, 2);
    assert!(rp3.is_err());
}

#[test]
fn _DIV_UNIT_works() {
    assert_eq!(
        0,
        RandomPassword::_DIV_UNIT(&BigNat::from_u64(0)).iter().sum::<usize>()
    );
    assert_eq!(
        42,
        RandomPassword::_DIV_UNIT(&BigNat::from_u64(42)).iter().sum::<usize>()
    );
    assert_eq!(
        4200,
        RandomPassword::_DIV_UNIT(&BigNat::from_u64(4200)).iter().sum::<usize>()
    );
    assert_eq!(
        420_000_000,
        RandomPassword::_DIV_UNIT(&BigNat::from_u64(420_000_000)).iter().sum::<usize>()
    );
}

#[test]
fn generated_length_matches_spec() {
    let mut rp = RandomPassword::new(64, 10, 7).unwrap();
    let pwd = rp.show();
    assert_eq!(pwd.chars().count(), 64);
}

#[test]
fn generated_counts_are_exact() {
    let mut rp = RandomPassword::new(11, 4, 2).unwrap();
    let pwd = rp.show();
    assert_eq!(pwd.chars().count(), 11);
    assert_eq!(pwd.chars().filter(|c| is_symbol(*c)).count(), 4);
    assert_eq!(pwd.chars().filter(|c| is_digit(*c)).count(), 2);
    assert_eq!(pwd.chars().filter(|c| is_letter(*c)).count(), 5);
}

#[test]
fn negative_arguments_are_invalid_input() {
    assert!(matches!(
        RandomPassword::new(-1, 1, 1),
        Err(PasswordError::InvalidInput)
    ));
    assert!(matches!(
        RandomPassword::new(1, -1, 1),
        Err(PasswordError::InvalidInput)
    ));
    assert!(matches!(
        RandomPassword::new(1, 1, -1),
        Err(PasswordError::InvalidInput)
    ));
}

#[test]
fn short_length_is_insufficient() {
    assert!(matches!(
        RandomPassword::new(3, 3, 3),
        Err(PasswordError::InsufficientLength)
    ));
    assert!(matches!(
        RandomPassword::new(2, 2, 2),
        Err(PasswordError::InsufficientLength)
    ));
}

#[test]
fn zero_spec_generates_empty_password() {
    let mut rp = RandomPassword::new(0, 0, 0).unwrap();
    assert_eq!(rp.show(), "");
}

#[test]
fn twelve_one_one_is_valid() {
    let mut rp = RandomPassword::new(12, 1, 1).unwrap();
    let pwd = rp.show();
    assert_eq!(pwd.chars().count(), 12);
    assert_eq!(pwd.chars().filter(|c| is_symbol(*c)).count(), 1);
    assert_eq!(pwd.chars().filter(|c| is_digit(*c)).count(), 1);
}

#[test]
fn chunks_are_bounded_and_unit_shaped() {
    let chunks = RandomPassword::_DIV_UNIT(&BigNat::from_u64(300));
    assert_eq!(chunks, vec![127, 127, 46]);

    let zero_chunks = RandomPassword::_DIV_UNIT(&BigNat::from_u64(0));
    assert_eq!(zero_chunks, vec![0]);

    let chunks = RandomPassword::_DIV_UNIT(&BigNat::from_u64(12345));
    assert!(!chunks.is_empty());
    assert!(chunks.iter().all(|c| *c <= 127));
    assert_eq!(chunks.iter().sum::<usize>(), 12345);
}

#[test]
fn sampler_returns_exactly_k_indices_in_range() {
    assert!(RandomPassword::_RAND_IDX(0, 5).is_empty());

    let idx = RandomPassword::_RAND_IDX(7, 1);
    assert_eq!(idx, vec![0, 0, 0, 0, 0, 0, 0]);

    let idx = RandomPassword::_RAND_IDX(500, 52);
    assert_eq!(idx.len(), 500);
    assert!(idx.iter().all(|i| *i < 52));
}

#[test]
fn shuffle_keeps_the_multiset_of_bytes() {
    let mut buf: Vec<u8> = b"aabbccddeeff0123!?".to_vec();
    let mut sorted_before = buf.clone();
    sorted_before.sort_unstable();
    shuffle_bytes(&mut buf);
    let mut sorted_after = buf.clone();
    sorted_after.sort_unstable();
    assert_eq!(sorted_before, sorted_after);
}

#[test]
fn from_counts_checks_the_size_relation() {
    let ok = RandomPassword::from_counts(
        BigNat::from_u64(5),
        BigNat::from_u64(2),
        BigNat::from_u64(2),
    );
    assert!(ok.is_ok());

    let err = RandomPassword::from_counts(
        BigNat::from_u64(3),
        BigNat::from_u64(3),
        BigNat::from_u64(3),
    );
    assert!(matches!(err, Err(PasswordError::InsufficientLength)));
}

#[test]
fn string_constructor_parses_decimals() {
    let mut rp = RandomPassword::new_from_str("12", "1", "1").unwrap();
    let pwd = rp.show();
    assert_eq!(pwd.chars().count(), 12);

    assert!(matches!(
        RandomPassword::new_from_str("-1", "1", "1"),
        Err(PasswordError::InvalidInput)
    ));
    assert!(matches!(
        RandomPassword::new_from_str("", "0", "0"),
        Err(PasswordError::InvalidInput)
    ));
    assert!(matches!(
        RandomPassword::new_from_str("12a", "0", "0"),
        Err(PasswordError::InvalidInput)
    ));
    assert!(matches!(
        RandomPassword::new_from_str("2", "2", "2"),
        Err(PasswordError::InsufficientLength)
    ));
    // A length far beyond any machine integer still validates.
    let big = RandomPassword::new_from_str("340282366920938463463374607431768211456", "1", "1");
    assert!(big.is_ok());
}

#[test]
fn parsed_values_drive_decomposition() {
    let n = BigNat::from_decimal_str("300").unwrap();
    assert_eq!(RandomPassword::_DIV_UNIT(&n), vec![127, 127, 46]);

    let with_leading_zeros = BigNat::from_decimal_str("0042").unwrap();
    assert_eq!(
        RandomPassword::_DIV_UNIT(&with_leading_zeros).iter().sum::<usize>(),
        42
    );

    assert!(BigNat::from_decimal_str("12 3").is_none());
    assert!(BigNat::from_decimal_str("4.2").is_none());
    assert!(BigNat::from_decimal_str("+7").is_none());
}

#[test]
fn character_sets_have_fixed_sizes() {
    let (letters, symbols, digits) = RandomPassword::_DATA();
    assert_eq!(letters.len(), 52);
    assert_eq!(symbols.len(), 32);
    assert_eq!(digits.len(), 10);
    for s in letters.iter().chain(symbols.iter()).chain(digits.iter()) {
        assert_eq!(s.chars().count(), 1);
    }
}
