//! The Vigenère cipher: a Caesar shift whose amount changes from one
//! position to the next, as the letters of a repeating key say.

use crate::caesar_shift::{
    is_letter, is_lower, is_upper, lemma_shift_keeps_class, lemma_shift_undone,
    lower_caesar_shift, shifted, upper_caesar_shift,
};
use crate::text::{chars_of, text_of};
use crate::text_cipher::{CipherError, TextCipher};
use vstd::prelude::*;

verus! {

/// A key that a Vigenère cipher accepts: at least one character, all of
/// them letters.
pub open spec fn valid_key(key: Seq<char>) -> bool {
    &&& key.len() > 0
    &&& forall|i: int| 0 <= i < key.len() ==> is_letter(#[trigger] key[i])
}

/// `c` in lower case if it is an upper-case letter, else `c` itself.
pub open spec fn folded(c: char) -> char {
    if is_upper(c) {
        (c as int + 32) as char
    } else {
        c
    }
}

/// `key` with its upper-case letters folded to lower case.
pub open spec fn folded_key(key: Seq<char>) -> Seq<char> {
    Seq::new(key.len(), |i: int| folded(key[i]))
}

/// The shift that a folded key gives at position `i` of a text: the place
/// in the alphabet of the key letter at `i` modulo the key's length.
pub open spec fn key_shift(key: Seq<char>, i: int) -> int {
    key[i % (key.len() as int)] as int - 97
}

/// The amount that undoes a shift by `amount`.
pub open spec fn inverse_shift(amount: int) -> int {
    (26 - amount) % 26
}

/// `text` encrypted under the folded key `key`: the character at each
/// position is shifted by the key's amount for that position, whether or not
/// it is a letter, so that a character that is no letter still uses up one
/// key letter.
pub open spec fn vigenere_encrypted(text: Seq<char>, key: Seq<char>) -> Seq<char> {
    Seq::new(text.len(), |i: int| shifted(text[i], key_shift(key, i)))
}

/// `text` decrypted under the folded key `key`.
pub open spec fn vigenere_decrypted(text: Seq<char>, key: Seq<char>) -> Seq<char> {
    Seq::new(text.len(), |i: int| shifted(text[i], inverse_shift(key_shift(key, i))))
}

/// Shifts `c` by `shift` places if it is a letter, keeping its case; any
/// other character comes back unchanged.
pub fn shift_char(c: char, shift: u8) -> (out: char)
    ensures
        out == shifted(c, shift as int),
{
    if 'A' <= c && c <= 'Z' {
        upper_caesar_shift(c, shift)
    } else if 'a' <= c && c <= 'z' {
        lower_caesar_shift(c, shift)
    } else {
        c
    }
}

/// A Vigenère cipher with its key.
#[derive(Debug)]
pub struct VigenereCipher {
    key: Vec<char>,
}

impl View for VigenereCipher {
    type V = Seq<char>;

    /// The key, folded to lower case.
    closed spec fn view(&self) -> Seq<char> {
        self.key@
    }
}

impl VigenereCipher {
    #[verifier::type_invariant]
    spec fn well_formed(&self) -> bool {
        &&& self.key@.len() > 0
        &&& forall|i: int| 0 <= i < self.key@.len() ==> is_lower(#[trigger] self.key@[i])
    }

    /// A cipher with the key `key`, whose case is ignored. The key is
    /// refused unless it is a non-empty string of letters.
    pub fn new(key: &str) -> (made: Result<VigenereCipher, CipherError>)
        ensures
            made is Ok <==> valid_key(key@),
            made is Ok ==> made->Ok_0@ == folded_key(key@),
            made is Err ==> made->Err_0 == CipherError::InvalidKey,
    {
        let letters: Vec<char> = chars_of(key);
        if letters.len() == 0 {
            return Err(CipherError::InvalidKey);
        }
        let mut lowered: Vec<char> = Vec::new();
        let mut i: usize = 0;
        while i < letters.len()
            invariant
                i <= letters.len(),
                letters@ == key@,
                lowered@ == folded_key(letters@.subrange(0, i as int)),
                forall|j: int| 0 <= j < i ==> is_letter(#[trigger] letters@[j]),
                forall|j: int| 0 <= j < i ==> is_lower(#[trigger] lowered@[j]),
            decreases letters.len() - i,
        {
            let c: char = letters[i];
            if 'A' <= c && c <= 'Z' {
                let low: u8 = (c as u8) + 32;
                lowered.push(low as char);
            } else if 'a' <= c && c <= 'z' {
                lowered.push(c);
            } else {
                return Err(CipherError::InvalidKey);
            }
            i += 1;
            assert(lowered@ =~= folded_key(letters@.subrange(0, i as int)));
        }
        assert(letters@.subrange(0, i as int) =~= letters@);
        Ok(VigenereCipher { key: lowered })
    }

    /// The amount by which this cipher shifts the character at position `i`.
    fn shift_at(&self, i: usize) -> (shift: u8)
        ensures
            shift < 26,
            shift == key_shift(self@, i as int),
    {
        proof {
            use_type_invariant(self);
        }
        let k: char = self.key[i % self.key.len()];
        (k as u8) - 97
    }
}

impl Clone for VigenereCipher {
    fn clone(&self) -> (copy: Self)
        ensures
            copy@ == self@,
    {
        proof {
            use_type_invariant(self);
        }
        let key: Vec<char> = self.key.clone();
        assert(key@ =~= self.key@);
        VigenereCipher { key }
    }
}

impl TextCipher for VigenereCipher {
    open spec fn encrypted(&self, text: Seq<char>) -> Seq<char> {
        vigenere_encrypted(text, self@)
    }

    open spec fn decrypted(&self, text: Seq<char>) -> Seq<char> {
        vigenere_decrypted(text, self@)
    }

    fn encrypt(&self, text: &str) -> (out: String) {
        let chars: Vec<char> = chars_of(text);
        let mut moved: Vec<char> = Vec::new();
        let mut i: usize = 0;
        while i < chars.len()
            invariant
                i <= chars.len(),
                moved@ == vigenere_encrypted(chars@.subrange(0, i as int), self@),
            decreases chars.len() - i,
        {
            let shift: u8 = self.shift_at(i);
            moved.push(shift_char(chars[i], shift));
            i += 1;
            assert(moved@ =~= vigenere_encrypted(chars@.subrange(0, i as int), self@));
        }
        assert(chars@.subrange(0, i as int) =~= chars@);
        text_of(&moved)
    }

    fn decrypt(&self, text: &str) -> (out: String) {
        let chars: Vec<char> = chars_of(text);
        let mut moved: Vec<char> = Vec::new();
        let mut i: usize = 0;
        while i < chars.len()
            invariant
                i <= chars.len(),
                moved@ == vigenere_decrypted(chars@.subrange(0, i as int), self@),
            decreases chars.len() - i,
        {
            let shift: u8 = (26 - self.shift_at(i)) % 26;
            moved.push(shift_char(chars[i], shift));
            i += 1;
            assert(moved@ =~= vigenere_decrypted(chars@.subrange(0, i as int), self@));
        }
        assert(chars@.subrange(0, i as int) =~= chars@);
        text_of(&moved)
    }
}

/// Under any key, decrypting what was encrypted gives the text back, and so
/// does encrypting what was decrypted.
pub proof fn lemma_vigenere_round_trip(text: Seq<char>, key: Seq<char>)
    ensures
        vigenere_decrypted(vigenere_encrypted(text, key), key) == text,
        vigenere_encrypted(vigenere_decrypted(text, key), key) == text,
{
    assert forall|i: int| 0 <= i < text.len() implies {
        &&& shifted(shifted(text[i], key_shift(key, i)), inverse_shift(key_shift(key, i)))
            == text[i]
        &&& shifted(shifted(text[i], inverse_shift(key_shift(key, i))), key_shift(key, i))
            == text[i]
    } by {
        let there = key_shift(key, i);
        lemma_shift_undone(text[i], there, inverse_shift(there));
        lemma_shift_undone(text[i], inverse_shift(there), there);
    }
    assert(vigenere_decrypted(vigenere_encrypted(text, key), key) =~= text);
    assert(vigenere_encrypted(vigenere_decrypted(text, key), key) =~= text);
}

/// A Vigenère cipher undoes its own work, in both directions.
pub proof fn lemma_vigenere_cipher_round_trip(cipher: VigenereCipher, text: Seq<char>)
    ensures
        cipher.decrypted(cipher.encrypted(text)) == text,
        cipher.encrypted(cipher.decrypted(text)) == text,
{
    lemma_vigenere_round_trip(text, cipher@);
}

/// Encrypting and decrypting keep the length of the text and the class of
/// each character: upper case stays upper case, lower case stays lower case,
/// and a character that is no letter is unchanged.
pub proof fn lemma_vigenere_keeps_shape(text: Seq<char>, key: Seq<char>)
    ensures
        vigenere_encrypted(text, key).len() == text.len(),
        vigenere_decrypted(text, key).len() == text.len(),
        forall|i: int|
            #![trigger vigenere_encrypted(text, key)[i]]
            #![trigger vigenere_decrypted(text, key)[i]]
            0 <= i < text.len() ==> {
                &&& is_upper(text[i]) ==> is_upper(vigenere_encrypted(text, key)[i]) && is_upper(
                    vigenere_decrypted(text, key)[i],
                )
                &&& is_lower(text[i]) ==> is_lower(vigenere_encrypted(text, key)[i]) && is_lower(
                    vigenere_decrypted(text, key)[i],
                )
                &&& !is_letter(text[i]) ==> vigenere_encrypted(text, key)[i] == text[i]
                    && vigenere_decrypted(text, key)[i] == text[i]
            },
{
    assert forall|i: int|
        #![trigger vigenere_encrypted(text, key)[i]]
        #![trigger vigenere_decrypted(text, key)[i]]
        0 <= i < text.len() implies {
        &&& is_upper(text[i]) ==> is_upper(vigenere_encrypted(text, key)[i]) && is_upper(
            vigenere_decrypted(text, key)[i],
        )
        &&& is_lower(text[i]) ==> is_lower(vigenere_encrypted(text, key)[i]) && is_lower(
            vigenere_decrypted(text, key)[i],
        )
        &&& !is_letter(text[i]) ==> vigenere_encrypted(text, key)[i] == text[i]
            && vigenere_decrypted(text, key)[i] == text[i]
    } by {
        lemma_shift_keeps_class(text[i], key_shift(key, i));
        lemma_shift_keeps_class(text[i], inverse_shift(key_shift(key, i)));
    }
}

} // verus!
