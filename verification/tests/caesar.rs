use scytale::caesar_shift::{caesar_shift, lower_caesar_shift, upper_caesar_shift, CaesarCipher};
use scytale::text_cipher::TextCipher;

#[test]
fn test_caesar_shift_lowercase() {
    assert_eq!("abyz", caesar_shift("abyz", 0));
    assert_eq!("bcza", caesar_shift("abyz", 1));
    assert_eq!("nolm", caesar_shift("abyz", 13));
    assert_eq!("zaxy", caesar_shift("abyz", 25));
    assert_eq!("abyz", caesar_shift("abyz", 26));
}

#[test]
fn test_caesar_shift_uppercase() {
    assert_eq!("ABYZ", caesar_shift("ABYZ", 0));
    assert_eq!("BCZA", caesar_shift("ABYZ", 1));
    assert_eq!("NOLM", caesar_shift("ABYZ", 13));
    assert_eq!("ZAXY", caesar_shift("ABYZ", 25));
    assert_eq!("ABYZ", caesar_shift("ABYZ", 26));
}

#[test]
fn caesar_shift_test_encrypt_lowercase() {
    let cipher = CaesarCipher::new(0);
    assert_eq!("abyz", cipher.encrypt("abyz"));

    let cipher = CaesarCipher::new(1);
    assert_eq!("bcza", cipher.encrypt("abyz"));

    let cipher = CaesarCipher::new(13);
    assert_eq!("nolm", cipher.encrypt("abyz"));

    let cipher = CaesarCipher::new(25);
    assert_eq!("zaxy", cipher.encrypt("abyz"));

    let cipher = CaesarCipher::new(26);
    assert_eq!("abyz", cipher.encrypt("abyz"));
}

#[test]
fn caesar_shift_test_encrypt_uppercase() {
    let cipher = CaesarCipher::new(0);
    assert_eq!("ABYZ", cipher.encrypt("ABYZ"));

    let cipher = CaesarCipher::new(1);
    assert_eq!("BCZA", cipher.encrypt("ABYZ"));

    let cipher = CaesarCipher::new(13);
    assert_eq!("NOLM", cipher.encrypt("ABYZ"));

    let cipher = CaesarCipher::new(25);
    assert_eq!("ZAXY", cipher.encrypt("ABYZ"));

    let cipher = CaesarCipher::new(26);
    assert_eq!("ABYZ", cipher.encrypt("ABYZ"));
}

#[test]
fn caesar_shift_test_decrypt_lowercase() {
    let cipher = CaesarCipher::new(0);
    assert_eq!("abyz", cipher.decrypt("abyz"));

    let cipher = CaesarCipher::new(1);
    assert_eq!("abyz", cipher.decrypt("bcza"));

    let cipher = CaesarCipher::new(13);
    assert_eq!("abyz", cipher.decrypt("nolm"));

    let cipher = CaesarCipher::new(25);
    assert_eq!("abyz", cipher.decrypt("zaxy"));

    let cipher = CaesarCipher::new(26);
    assert_eq!("abyz", cipher.decrypt("abyz"));
}

#[test]
fn caesar_shift_test_decrypt_uppercase() {
    let cipher = CaesarCipher::new(0);
    assert_eq!("ABYZ", cipher.decrypt("ABYZ"));

    let cipher = CaesarCipher::new(1);
    assert_eq!("ABYZ", cipher.decrypt("BCZA"));

    let cipher = CaesarCipher::new(13);
    assert_eq!("ABYZ", cipher.decrypt("NOLM"));

    let cipher = CaesarCipher::new(25);
    assert_eq!("ABYZ", cipher.decrypt("ZAXY"));

    let cipher = CaesarCipher::new(26);
    assert_eq!("ABYZ", cipher.decrypt("ABYZ"));
}

#[test]
fn single_letters_wrap_within_their_case() {
    assert_eq!('A', upper_caesar_shift('Z', 1));
    assert_eq!('D', upper_caesar_shift('A', 3));
    assert_eq!('a', lower_caesar_shift('z', 1));
    assert_eq!('y', lower_caesar_shift('a', 24));
}

#[test]
fn single_letter_shift_reduces_large_amounts() {
    assert_eq!('B', upper_caesar_shift('A', 27));
    assert_eq!('z', lower_caesar_shift('z', 26));
    assert_eq!('u', lower_caesar_shift('z', 255));
    assert_eq!('V', upper_caesar_shift('A', 255));
}

#[test]
fn caesar_round_trip_for_every_reduced_key() {
    let text = "The quick brown fox jumps over the lazy dog, 42 times!";
    for key in 0..26u32 {
        let cipher = CaesarCipher::new(key);
        assert_eq!(text, cipher.decrypt(&cipher.encrypt(text)));
    }
}

#[test]
fn caesar_round_trip_for_large_keys() {
    let text = "Zebra crossing";
    for key in [26u32, 27, 51, 52, 1000, u32::MAX - 1, u32::MAX] {
        let cipher = CaesarCipher::new(key);
        assert_eq!(text, cipher.decrypt(&cipher.encrypt(text)));
    }
}

#[test]
fn caesar_key_is_periodic() {
    let text = "Attack at Dawn";
    for key in [0u32, 1, 13, 25, 100] {
        let low = CaesarCipher::new(key);
        let high = CaesarCipher::new(key + 26);
        assert_eq!(low.encrypt(text), high.encrypt(text));
        assert_eq!(low.decrypt(text), high.decrypt(text));
    }
    assert_eq!(caesar_shift(text, 3), caesar_shift(text, 29));
}

#[test]
fn caesar_leaves_other_characters_alone() {
    let cipher = CaesarCipher::new(3);
    assert_eq!("1, 2; 3! @[`{", cipher.encrypt("1, 2; 3! @[`{"));
    assert_eq!("d-e f\u{e9}\u{4e16}", cipher.encrypt("a-b c\u{e9}\u{4e16}"));
    assert_eq!("", cipher.encrypt(""));
    assert_eq!("", cipher.decrypt(""));
}

#[test]
fn caesar_keeps_case() {
    let cipher = CaesarCipher::new(7);
    assert_eq!("OlSsV", cipher.encrypt("HeLlO"));
    assert_eq!("HeLlO", cipher.decrypt("OlSsV"));
}

#[test]
fn caesar_clone_encrypts_alike() {
    let cipher = CaesarCipher::new(5);
    let copy = cipher.clone();
    assert_eq!(cipher.encrypt("abc"), copy.encrypt("abc"));
    assert_eq!("fgh", copy.encrypt("abc"));
}
