//! End-to-end tests of the codec against the real dictionary.

use mnemonic_16bit::{binary_to_phrase, phrase_to_binary, DecodeErrorKind};
use rand_core::RngCore;
use userspace_rng::Csprng;

#[test]
// Try a bunch of binary arrays and see that they all correctly convert into phrases and then
// back into the same binary.
fn check_seed_phrases() {
    // Try empty array.
    let basic = [0u8; 0];
    let phrase = binary_to_phrase(&basic);
    let result = phrase_to_binary(&phrase).unwrap();
    assert!(basic[..] == result[..]);

    // Try all possible 1 byte values.
    for i in 0..=255 {
        let basic = [i as u8; 1];
        let phrase = binary_to_phrase(&basic);
        let result = phrase_to_binary(&phrase).unwrap();
        assert!(basic[..] == result[..]);
    }

    // Try zero values for all possible array sizes 0-255.
    for i in 0..=255 {
        let basic = vec![0u8; i];
        let phrase = binary_to_phrase(&basic);
        let result = phrase_to_binary(&phrase).unwrap();
        assert!(basic[..] == result[..]);
    }

    // Try random data for all array sizes 0-255, 8 variations each size.
    let mut rng = Csprng {};
    for _ in 0..8 {
        for i in 0..=255 {
            let mut basic = vec![0u8; i];
            rng.fill_bytes(&mut basic);
            let phrase = binary_to_phrase(&basic);
            let result = phrase_to_binary(&phrase).unwrap();
            assert!(basic[..] == result[..]);
        }
    }

    // Try all possible 2 byte values.
    for i in 0..=255 {
        for j in 0..=255 {
            let mut basic = [0u8; 2];
            basic[0] = i;
            basic[1] = j;
            let phrase = binary_to_phrase(&basic);
            let result = phrase_to_binary(&phrase).unwrap();
            assert!(basic[..] == result[..]);
        }
    }
}

#[test]
// Check a variety of invalid phrases.
fn check_bad_phrases() {
    phrase_to_binary("a").unwrap_err();
    phrase_to_binary("a64").unwrap_err();
    phrase_to_binary("abbey").unwrap_err();
    phrase_to_binary("abbey65").unwrap_err();
    phrase_to_binary("yacht64").unwrap_err();
    phrase_to_binary("sugar21 ab55 mob32").unwrap_err();
    phrase_to_binary("sugar21 toffee mob32").unwrap_err();

    // This one should work even though we trucated the words.
    phrase_to_binary("sug21 tof21 mob32").unwrap();
}

#[test]
// The empty byte sequence and the empty phrase map to each other.
fn empty_round_trip() {
    assert_eq!(binary_to_phrase(&[]), "");
    assert_eq!(phrase_to_binary("").unwrap(), Vec::<u8>::new());
}

#[test]
// Exact phrases: "abbey" is dictionary entry 0, "sugar" entry 847.
fn exact_phrases() {
    assert_eq!(binary_to_phrase(&[0, 0]), "abbey0");
    assert_eq!(binary_to_phrase(&[0]), "abbey64");
    assert_eq!(binary_to_phrase(&[211, 213]), "sugar21");
    assert_eq!(binary_to_phrase(&[0, 0, 0]), "abbey0 abbey64");
    assert_eq!(phrase_to_binary("abbey0").unwrap(), vec![0, 0]);
    assert_eq!(phrase_to_binary("abbey64").unwrap(), vec![0]);
    assert_eq!(phrase_to_binary("sugar21").unwrap(), vec![211, 213]);
}

#[test]
// Words may be abbreviated down to their first three characters.
fn prefix_tolerance() {
    let expected = vec![211, 213, 222, 213, 142, 224];
    assert_eq!(
        phrase_to_binary("sugar21 toffee21 mob32").unwrap(),
        expected
    );
    assert_eq!(phrase_to_binary("sug21 tof21 mob32").unwrap(), expected);
}

#[test]
// A phrase has one token per byte pair plus one for a leftover byte, and
// only an odd byte count puts the suffix 64 on the last token.
fn phrase_shape() {
    let phrase = binary_to_phrase(&[1, 2, 3, 4, 5]);
    let tokens: Vec<&str> = phrase.split(' ').collect();
    assert_eq!(tokens.len(), 3);
    assert!(tokens[0..2].iter().all(|t| !t.ends_with("64")));
    assert!(tokens[2].ends_with("64"));

    let phrase = binary_to_phrase(&[1, 2, 3, 4]);
    let tokens: Vec<&str> = phrase.split(' ').collect();
    assert_eq!(tokens.len(), 2);
    assert!(tokens.iter().all(|t| !t.ends_with("64")));
}

#[test]
// Every decode error comes with its kind and the offending token.
fn error_kinds() {
    let e = phrase_to_binary("a").unwrap_err();
    assert!(matches!(e.kind, DecodeErrorKind::MalformedWord));
    assert_eq!(e.token, "a");

    let e = phrase_to_binary("abbey").unwrap_err();
    assert!(matches!(e.kind, DecodeErrorKind::MalformedWord));

    let e = phrase_to_binary("abbey123").unwrap_err();
    assert!(matches!(e.kind, DecodeErrorKind::MalformedWord));

    let e = phrase_to_binary("ab1c2").unwrap_err();
    assert!(matches!(e.kind, DecodeErrorKind::MalformedWord));

    let e = phrase_to_binary("a64").unwrap_err();
    assert!(matches!(e.kind, DecodeErrorKind::MalformedWord));

    let e = phrase_to_binary("qqq1").unwrap_err();
    assert!(matches!(e.kind, DecodeErrorKind::WordNotFound));
    assert_eq!(e.token, "qqq1");

    let e = phrase_to_binary("yacht64").unwrap_err();
    assert!(matches!(e.kind, DecodeErrorKind::TerminalWordOutOfRange));
    assert_eq!(e.token, "yacht64");

    let e = phrase_to_binary("abbey65").unwrap_err();
    assert!(matches!(e.kind, DecodeErrorKind::SuffixOutOfRange));

    let e = phrase_to_binary("abbey64 abbey0").unwrap_err();
    assert!(matches!(e.kind, DecodeErrorKind::MisplacedTerminal));
    assert_eq!(e.token, "abbey64");

    // A double space makes an empty token, which has no suffix.
    let e = phrase_to_binary("abbey0  abbey0").unwrap_err();
    assert!(matches!(e.kind, DecodeErrorKind::MalformedWord));
    assert_eq!(e.token, "");
}
