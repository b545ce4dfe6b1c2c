use scytale::text_cipher::{CipherError, TextCipher};
use scytale::vigenere::{shift_char, VigenereCipher};

fn cipher_for(key: &str) -> VigenereCipher {
    VigenereCipher::new(key).unwrap()
}

#[test]
fn vigenere_test_encrypt_lowercase() {
    let cipher = cipher_for("aaaa");
    assert_eq!("abyz", cipher.encrypt("abyz"));

    let cipher = cipher_for("AAAA");
    assert_eq!("abyz", cipher.encrypt("abyz"));

    let cipher = cipher_for("abcd");
    assert_eq!("acac", cipher.encrypt("abyz"));

    let cipher = cipher_for("ABCD");
    assert_eq!("acac", cipher.encrypt("abyz"));

    let cipher = cipher_for("abyz");
    assert_eq!("abyz", cipher.encrypt("aaaa"));

    let cipher = cipher_for("ABYZ");
    assert_eq!("abyz", cipher.encrypt("aaaa"));

    let cipher = cipher_for("abyz");
    assert_eq!("acac", cipher.encrypt("abcd"));

    let cipher = cipher_for("ABYZ");
    assert_eq!("acac", cipher.encrypt("abcd"));
}

#[test]
fn vigenere_test_encrypt_uppercase() {
    let cipher = cipher_for("aaaa");
    assert_eq!("ABYZ", cipher.encrypt("ABYZ"));

    let cipher = cipher_for("AAAA");
    assert_eq!("ABYZ", cipher.encrypt("ABYZ"));

    let cipher = cipher_for("abcd");
    assert_eq!("ACAC", cipher.encrypt("ABYZ"));

    let cipher = cipher_for("ABCD");
    assert_eq!("ACAC", cipher.encrypt("ABYZ"));

    let cipher = cipher_for("abyz");
    assert_eq!("ABYZ", cipher.encrypt("AAAA"));

    let cipher = cipher_for("ABYZ");
    assert_eq!("ABYZ", cipher.encrypt("AAAA"));

    let cipher = cipher_for("abyz");
    assert_eq!("ACAC", cipher.encrypt("ABCD"));

    let cipher = cipher_for("ABYZ");
    assert_eq!("ACAC", cipher.encrypt("ABCD"));
}

#[test]
fn vigenere_test_key_wraps_around() {
    let cipher = cipher_for("a");
    assert_eq!("abcdefgh", cipher.encrypt("abcdefgh"));

    let cipher = cipher_for("az");
    assert_eq!("aacceegg", cipher.encrypt("abcdefgh"));
}

#[test]
fn vigenere_test_decrypt_lowercase() {
    let cipher = cipher_for("aaaa");
    assert_eq!("abyz", cipher.decrypt("abyz"));

    let cipher = cipher_for("AAAA");
    assert_eq!("abyz", cipher.decrypt("abyz"));

    let cipher = cipher_for("abcd");
    assert_eq!("abyz", cipher.decrypt("acac"));

    let cipher = cipher_for("ABCD");
    assert_eq!("abyz", cipher.decrypt("acac"));

    let cipher = cipher_for("abyz");
    assert_eq!("aaaa", cipher.decrypt("abyz"));

    let cipher = cipher_for("ABYZ");
    assert_eq!("aaaa", cipher.decrypt("abyz"));

    let cipher = cipher_for("abyz");
    assert_eq!("abcd", cipher.decrypt("acac"));

    let cipher = cipher_for("ABYZ");
    assert_eq!("abcd", cipher.decrypt("acac"));
}

#[test]
fn vigenere_test_decrypt_uppercase() {
    let cipher = cipher_for("aaaa");
    assert_eq!("ABYZ", cipher.decrypt("ABYZ"));

    let cipher = cipher_for("AAAA");
    assert_eq!("ABYZ", cipher.decrypt("ABYZ"));

    let cipher = cipher_for("abcd");
    assert_eq!("ABYZ", cipher.decrypt("ACAC"));

    let cipher = cipher_for("ABCD");
    assert_eq!("ABYZ", cipher.decrypt("ACAC"));

    let cipher = cipher_for("abyz");
    assert_eq!("AAAA", cipher.decrypt("ABYZ"));

    let cipher = cipher_for("ABYZ");
    assert_eq!("AAAA", cipher.decrypt("ABYZ"));

    let cipher = cipher_for("abyz");
    assert_eq!("ABCD", cipher.decrypt("ACAC"));

    let cipher = cipher_for("ABYZ");
    assert_eq!("ABCD", cipher.decrypt("ACAC"));
}

#[test]
fn vigenere_decrypt_key_wraps_around() {
    let cipher = cipher_for("a");
    assert_eq!("abcdefgh", cipher.decrypt("abcdefgh"));

    let cipher = cipher_for("az");
    assert_eq!("abcdefgh", cipher.decrypt("aacceegg"));
}

#[test]
fn vigenere_refuses_an_empty_key() {
    assert!(matches!(VigenereCipher::new(""), Err(CipherError::InvalidKey)));
}

#[test]
fn vigenere_refuses_a_key_with_other_characters() {
    assert!(matches!(VigenereCipher::new("ab1"), Err(CipherError::InvalidKey)));
    assert!(matches!(VigenereCipher::new("a b"), Err(CipherError::InvalidKey)));
    assert!(matches!(VigenereCipher::new("-"), Err(CipherError::InvalidKey)));
    assert!(matches!(VigenereCipher::new("cl\u{e9}"), Err(CipherError::InvalidKey)));
    assert!(VigenereCipher::new("Lemon").is_ok());
}

#[test]
fn vigenere_known_ciphertext() {
    let cipher = cipher_for("LEMON");
    assert_eq!("LXFOPVEFRNHR", cipher.encrypt("ATTACKATDAWN"));
    assert_eq!("ATTACKATDAWN", cipher.decrypt("LXFOPVEFRNHR"));
}

#[test]
fn vigenere_other_characters_use_up_key_letters() {
    let cipher = cipher_for("ab");
    assert_eq!("a c", cipher.encrypt("a c"));
    assert_eq!("a bd", cipher.encrypt("a bc"));
    assert_eq!("a bc", cipher.decrypt("a bd"));
    assert_eq!("1!2?", cipher.encrypt("1!2?"));
}

#[test]
fn vigenere_round_trip() {
    let text = "Meet me at the Old Bridge, 11 pm. Bring \u{20ac}5!";
    for key in ["a", "z", "Key", "LONGERKEYTHANUSUAL", "zzzzzzzzzzzzzzzzzzzzzzzzzzzzzzzzzzzzzzzzzzzzzzzzzzzzzzzzzzzz"] {
        let cipher = cipher_for(key);
        assert_eq!(text, cipher.decrypt(&cipher.encrypt(text)));
        assert_eq!(text, cipher.encrypt(&cipher.decrypt(text)));
    }
}

#[test]
fn vigenere_keeps_case_and_length() {
    let cipher = cipher_for("bcd");
    assert_eq!("BdG fHf", cipher.encrypt("AbD dEe"));
    assert_eq!("", cipher.encrypt(""));
}

#[test]
fn vigenere_clone_encrypts_alike() {
    let cipher = cipher_for("Key");
    let copy = cipher.clone();
    assert_eq!(cipher.encrypt("Hello, World"), copy.encrypt("Hello, World"));
}

#[test]
fn shift_char_dispatches_on_the_class() {
    assert_eq!('b', shift_char('a', 1));
    assert_eq!('B', shift_char('A', 1));
    assert_eq!('a', shift_char('z', 1));
    assert_eq!('A', shift_char('Z', 27));
    assert_eq!('!', shift_char('!', 5));
    assert_eq!('\u{e9}', shift_char('\u{e9}', 5));
    assert_eq!('@', shift_char('@', 1));
    assert_eq!('[', shift_char('[', 1));
    assert_eq!('`', shift_char('`', 1));
    assert_eq!('{', shift_char('{', 1));
}
