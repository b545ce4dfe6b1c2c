//! ROT13: the Caesar shift by half the alphabet, which is its own inverse.

use crate::caesar_shift::{
    caesar_shift, is_letter, is_lower, is_upper, lemma_shifted_text_keeps_shape,
    lemma_shifted_text_undone, shifted_text,
};
use crate::text_cipher::TextCipher;
use vstd::prelude::*;

verus! {

/// `text` with every letter moved 13 places.
pub open spec fn rot13_text(text: Seq<char>) -> Seq<char> {
    shifted_text(text, 13)
}

/// Moves every letter of `text` 13 places, keeping its case; all other
/// characters stay as they are.
pub fn rot13(text: &str) -> (out: String)
    ensures
        out@ == rot13_text(text@),
{
    caesar_shift(text, 13)
}

/// Applying ROT13 twice gives the text back.
pub proof fn lemma_rot13_twice(text: Seq<char>)
    ensures
        rot13_text(rot13_text(text)) == text,
{
    lemma_shifted_text_undone(text, 13, 13);
}

/// ROT13 keeps the length of a text and the class of each of its
/// characters: upper case stays upper case, lower case stays lower case,
/// and what is no letter is unchanged.
pub proof fn lemma_rot13_keeps_shape(text: Seq<char>)
    ensures
        rot13_text(text).len() == text.len(),
        forall|i: int|
            0 <= i < text.len() ==> {
                &&& is_upper(text[i]) ==> is_upper(#[trigger] rot13_text(text)[i])
                &&& is_lower(text[i]) ==> is_lower(rot13_text(text)[i])
                &&& !is_letter(text[i]) ==> rot13_text(text)[i] == text[i]
            },
{
    lemma_shifted_text_keeps_shape(text, 13);
}

/// ROT13 as a cipher: it has no key, and decrypting is encrypting.
#[derive(Debug, Clone, Copy)]
pub struct Rot13Cipher;

impl TextCipher for Rot13Cipher {
    open spec fn encrypted(&self, text: Seq<char>) -> Seq<char> {
        rot13_text(text)
    }

    open spec fn decrypted(&self, text: Seq<char>) -> Seq<char> {
        rot13_text(text)
    }

    fn encrypt(&self, text: &str) -> (out: String) {
        rot13(text)
    }

    fn decrypt(&self, text: &str) -> (out: String) {
        rot13(text)
    }
}

} // verus!
