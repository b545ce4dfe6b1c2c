use scytale::rot13::{rot13, Rot13Cipher};
use scytale::text_cipher::TextCipher;

#[test]
fn test_rot13_with_simple_lowercase() {
    assert_eq!("nolm", rot13("abyz"));
}

#[test]
fn test_rot13_with_simple_uppercase() {
    assert_eq!("NOLM", rot13("ABYZ"));
}

#[test]
fn test_rot13_with_punctuation() {
    assert_eq!("Url! Jung gvzr vf vg?", rot13("Hey! What time is it?"));
}

#[test]
fn test_rot13_is_reveresed_by_applying_twice() {
    let word = "abcde";
    assert_eq!(word, rot13(&rot13(word)));
}

#[test]
fn rot13_twice_gives_mixed_text_back() {
    let text = "Mixed CASE, digits 0-9 and \u{fc}ml\u{e4}uts.";
    assert_eq!(text, rot13(&rot13(text)));
    assert_eq!("", rot13(""));
}

#[test]
fn rot13_cipher_is_its_own_inverse() {
    let cipher = Rot13Cipher;
    assert_eq!("Uryyb", cipher.encrypt("Hello"));
    assert_eq!("Hello", cipher.decrypt("Uryyb"));
    assert_eq!(cipher.encrypt("Hello"), cipher.decrypt("Hello"));
}
