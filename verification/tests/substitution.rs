use scytale::substitution::SubstitutionCipher;
use scytale::text_cipher::{CipherError, TextCipher};
use std::collections::HashMap;

#[test]
fn test_decrypt() {
    let mut key: HashMap<char, String> = HashMap::new();
    key.insert('a', "12".to_string());
    key.insert('z', "3".to_string());
    let cipher = &SubstitutionCipher::new(key).unwrap();
    assert_eq!("aabz", cipher.decrypt("12b3"));
}

#[test]
fn test_encrypt() {
    let mut key: HashMap<char, String> = HashMap::new();
    key.insert('a', "12".to_string());
    key.insert('z', "3".to_string());
    let cipher = SubstitutionCipher::new(key).unwrap();
    assert_eq!("12b3", cipher.encrypt("aabz"));
}

#[test]
fn substitution_rotates_by_the_place_in_the_text() {
    let mut key: HashMap<char, String> = HashMap::new();
    key.insert('a', "hey!".to_string());
    key.insert('b', "world".to_string());
    let cipher = SubstitutionCipher::new(key).unwrap();
    assert_eq!("hey! world", cipher.encrypt("aaaa bbbbb"));
    assert_eq!("aaaa bbbbb", cipher.decrypt("hey! world"));
    assert_eq!("xex!x", cipher.encrypt("xaxax"));
    assert_eq!("hey!he", cipher.encrypt("aaaaaa"));
}

#[test]
fn substitution_refuses_an_entry_without_alternatives() {
    let mut key: HashMap<char, String> = HashMap::new();
    key.insert('a', "12".to_string());
    key.insert('b', String::new());
    assert!(matches!(SubstitutionCipher::new(key), Err(CipherError::InvalidKey)));
}

#[test]
fn substitution_with_an_empty_key_changes_nothing() {
    let cipher = SubstitutionCipher::new(HashMap::new()).unwrap();
    assert_eq!("Hello, World!", cipher.encrypt("Hello, World!"));
    assert_eq!("Hello, World!", cipher.decrypt("Hello, World!"));
    assert_eq!("", cipher.encrypt(""));
}

#[test]
fn substitution_restores_a_shared_character_to_the_greatest_letter() {
    let mut key: HashMap<char, String> = HashMap::new();
    key.insert('m', "x1".to_string());
    key.insert('a', "x2".to_string());
    key.insert('q', "3x".to_string());
    key.insert('c', "4".to_string());
    let cipher = SubstitutionCipher::new(key).unwrap();
    assert_eq!("qmaqc", cipher.decrypt("x1234"));
    for _ in 0..20 {
        let mut again: HashMap<char, String> = HashMap::new();
        again.insert('q', "3x".to_string());
        again.insert('a', "x2".to_string());
        again.insert('c', "4".to_string());
        again.insert('m', "x1".to_string());
        let other = SubstitutionCipher::new(again).unwrap();
        assert_eq!("qmaqc", other.decrypt("x1234"));
    }
}

#[test]
fn substitution_counts_alternatives_by_character() {
    let mut key: HashMap<char, String> = HashMap::new();
    key.insert('a', "\u{e9}\u{4e16}".to_string());
    let cipher = SubstitutionCipher::new(key).unwrap();
    assert_eq!("\u{e9}\u{4e16}\u{e9}\u{4e16}", cipher.encrypt("aaaa"));
    assert_eq!("aaaa", cipher.decrypt("\u{e9}\u{4e16}\u{e9}\u{4e16}"));
}

#[test]
fn substitution_may_change_the_case() {
    let mut key: HashMap<char, String> = HashMap::new();
    key.insert('A', "1b".to_string());
    let cipher = SubstitutionCipher::new(key).unwrap();
    assert_eq!("1bC", cipher.encrypt("AAC"));
}

#[test]
fn substitution_clone_has_the_same_key() {
    let mut key: HashMap<char, String> = HashMap::new();
    key.insert('a', "12".to_string());
    key.insert('z', "3".to_string());
    let cipher = SubstitutionCipher::new(key).unwrap();
    let copy = cipher.clone();
    assert_eq!("12b3", copy.encrypt("aabz"));
    assert_eq!("aabz", copy.decrypt("12b3"));
}

#[test]
fn substitution_round_trip_without_shared_alternatives() {
    let mut key: HashMap<char, String> = HashMap::new();
    key.insert('a', "12".to_string());
    key.insert('z', "3".to_string());
    let cipher = SubstitutionCipher::new(key).unwrap();
    let text = "aabz zebra";
    assert_eq!("12b3 3ebr2", cipher.encrypt(text));
    assert_eq!(text, cipher.decrypt(&cipher.encrypt(text)));
}
