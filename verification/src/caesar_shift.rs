//! The alphabet shift shared by the shift ciphers, and the Caesar cipher.

use crate::text::{chars_of, text_of};
use crate::text_cipher::TextCipher;
use vstd::prelude::*;

verus! {

/// `c` is one of `A` to `Z`.
pub open spec fn is_upper(c: char) -> bool {
    'A' <= c <= 'Z'
}

/// `c` is one of `a` to `z`.
pub open spec fn is_lower(c: char) -> bool {
    'a' <= c <= 'z'
}

/// `c` is a letter of the Latin alphabet, in either case.
pub open spec fn is_letter(c: char) -> bool {
    is_upper(c) || is_lower(c)
}

/// The letter `amount` places after `c` in its own case, wrapping from the
/// last letter to the first; any other character is left as it is.
pub open spec fn shifted(c: char, amount: int) -> char {
    if is_upper(c) {
        (((c as int - 'A' as int + amount) % 26) + 'A' as int) as char
    } else if is_lower(c) {
        (((c as int - 'a' as int + amount) % 26) + 'a' as int) as char
    } else {
        c
    }
}

/// Shifts an upper-case letter by `shift` places, wrapping after `Z`.
pub fn upper_caesar_shift(c: char, shift: u8) -> (out: char)
    requires
        is_upper(c),
    ensures
        out == shifted(c, shift as int),
        is_upper(out),
{
    let offset: u8 = (c as u8) - 65;
    let moved: u8 = (offset + shift % 26) % 26 + 65;
    moved as char
}

/// Shifts a lower-case letter by `shift` places, wrapping after `z`.
pub fn lower_caesar_shift(c: char, shift: u8) -> (out: char)
    requires
        is_lower(c),
    ensures
        out == shifted(c, shift as int),
        is_lower(out),
{
    let offset: u8 = (c as u8) - 97;
    let moved: u8 = (offset + shift % 26) % 26 + 97;
    moved as char
}

/// `text` with every letter shifted by `amount` places and every other
/// character in its place.
pub open spec fn shifted_text(text: Seq<char>, amount: int) -> Seq<char> {
    Seq::new(text.len(), |i: int| shifted(text[i], amount))
}

/// A shift keeps every character in its class: an upper-case letter stays
/// upper-case, a lower-case letter stays lower-case, and a character that is
/// no letter stays what it is.
pub proof fn lemma_shift_keeps_class(c: char, amount: int)
    ensures
        is_upper(c) ==> is_upper(shifted(c, amount)),
        is_lower(c) ==> is_lower(shifted(c, amount)),
        !is_letter(c) ==> shifted(c, amount) == c,
{
}

/// Shifting by 26 places more makes no difference.
pub proof fn lemma_shift_periodic(c: char, amount: int)
    ensures
        shifted(c, amount + 26) == shifted(c, amount),
{
    if is_upper(c) {
        assert((c as int - 65 + amount + 26) % 26 == (c as int - 65 + amount) % 26) by {
            vstd::arithmetic::div_mod::lemma_mod_add_multiples_vanish(c as int - 65 + amount, 26);
        }
    } else if is_lower(c) {
        assert((c as int - 97 + amount + 26) % 26 == (c as int - 97 + amount) % 26) by {
            vstd::arithmetic::div_mod::lemma_mod_add_multiples_vanish(c as int - 97 + amount, 26);
        }
    }
}

/// Only the amount modulo 26 matters.
pub proof fn lemma_shift_reduced(c: char, amount: int)
    ensures
        shifted(c, amount % 26) == shifted(c, amount),
{
    if is_upper(c) {
        vstd::arithmetic::div_mod::lemma_add_mod_noop_right(c as int - 65, amount, 26);
    } else if is_lower(c) {
        vstd::arithmetic::div_mod::lemma_add_mod_noop_right(c as int - 97, amount, 26);
    }
}

/// Within the alphabet, moving there and back by amounts that add up to a
/// multiple of 26 ends where it began.
proof fn lemma_mod_26_undone(x: int, there: int, back: int)
    requires
        0 <= x < 26,
        (there + back) % 26 == 0,
    ensures
        ((x + there) % 26 + back) % 26 == x,
{
    let y = (x + there) % 26;
    vstd::arithmetic::div_mod::lemma_add_mod_noop(x + there, back, 26);
    vstd::arithmetic::div_mod::lemma_add_mod_noop(y, back, 26);
    vstd::arithmetic::div_mod::lemma_add_mod_noop(x, there + back, 26);
    assert(x + there + back == x + (there + back));
}

/// Two shifts whose amounts add up to a multiple of 26 undo each other.
pub proof fn lemma_shift_undone(c: char, there: int, back: int)
    requires
        (there + back) % 26 == 0,
    ensures
        shifted(shifted(c, there), back) == c,
{
    if is_upper(c) {
        let x = c as int - 65;
        let y = (x + there) % 26;
        assert(shifted(c, there) as int == y + 65);
        assert((y + back) % 26 == x) by {
            lemma_mod_26_undone(x, there, back);
        }
    } else if is_lower(c) {
        let x = c as int - 97;
        let y = (x + there) % 26;
        assert(shifted(c, there) as int == y + 97);
        assert((y + back) % 26 == x) by {
            lemma_mod_26_undone(x, there, back);
        }
    }
}

/// A shifted text is as long as the text it was made from; each of its
/// characters is in the class of the one it came from, and what is no
/// letter is unchanged.
pub proof fn lemma_shifted_text_keeps_shape(text: Seq<char>, amount: int)
    ensures
        shifted_text(text, amount).len() == text.len(),
        forall|i: int|
            0 <= i < text.len() && is_upper(text[i]) ==> is_upper(
                #[trigger] shifted_text(text, amount)[i],
            ),
        forall|i: int|
            0 <= i < text.len() && is_lower(text[i]) ==> is_lower(
                #[trigger] shifted_text(text, amount)[i],
            ),
        forall|i: int|
            0 <= i < text.len() && !is_letter(text[i]) ==> #[trigger] shifted_text(
                text,
                amount,
            )[i] == text[i],
{
    assert forall|i: int| 0 <= i < text.len() implies {
        &&& is_upper(text[i]) ==> is_upper(#[trigger] shifted_text(text, amount)[i])
        &&& is_lower(text[i]) ==> is_lower(shifted_text(text, amount)[i])
        &&& !is_letter(text[i]) ==> shifted_text(text, amount)[i] == text[i]
    } by {
        lemma_shift_keeps_class(text[i], amount);
    }
}

/// Shifting a text by 26 places more gives the same text.
pub proof fn lemma_shifted_text_periodic(text: Seq<char>, amount: int)
    ensures
        shifted_text(text, amount + 26) == shifted_text(text, amount),
{
    assert forall|i: int| 0 <= i < text.len() implies shifted(text[i], amount + 26) == shifted(
        text[i],
        amount,
    ) by {
        lemma_shift_periodic(text[i], amount);
    }
    assert(shifted_text(text, amount + 26) =~= shifted_text(text, amount));
}

/// Shifting a text there and back, by amounts that add up to a multiple of
/// 26, gives the text again.
pub proof fn lemma_shifted_text_undone(text: Seq<char>, there: int, back: int)
    requires
        (there + back) % 26 == 0,
    ensures
        shifted_text(shifted_text(text, there), back) == text,
{
    assert forall|i: int| 0 <= i < text.len() implies shifted(shifted(text[i], there), back)
        == text[i] by {
        lemma_shift_undone(text[i], there, back);
    }
    assert(shifted_text(shifted_text(text, there), back) =~= text);
}

/// Shifts every letter of `text` by `shift` places, keeping its case, and
/// leaves all other characters as they are.
pub fn caesar_shift(text: &str, shift: u8) -> (out: String)
    ensures
        out@ == shifted_text(text@, shift as int),
{
    let chars: Vec<char> = chars_of(text);
    let mut moved: Vec<char> = Vec::new();
    let mut i: usize = 0;
    while i < chars.len()
        invariant
            i <= chars.len(),
            moved@ == shifted_text(chars@.subrange(0, i as int), shift as int),
        decreases chars.len() - i,
    {
        let c: char = chars[i];
        let d: char = if 'A' <= c && c <= 'Z' {
            upper_caesar_shift(c, shift)
        } else if 'a' <= c && c <= 'z' {
            lower_caesar_shift(c, shift)
        } else {
            c
        };
        moved.push(d);
        i += 1;
        assert(moved@ =~= shifted_text(chars@.subrange(0, i as int), shift as int));
    }
    assert(chars@.subrange(0, i as int) =~= chars@);
    text_of(&moved)
}

/// A Caesar cipher: every letter moves the same number of places.
#[derive(Debug, Clone, Copy)]
pub struct CaesarCipher {
    key: u32,
}

impl View for CaesarCipher {
    type V = int;

    /// The shift amount, between 0 and 25.
    closed spec fn view(&self) -> int {
        (self.key % 26) as int
    }
}

impl CaesarCipher {
    /// The amount that undoes a shift by `amount`.
    pub open spec fn inverse(amount: int) -> int {
        (26 - amount) % 26
    }

    /// A cipher that shifts by `key` places; the key is reduced modulo 26.
    pub fn new(key: u32) -> (cipher: CaesarCipher)
        ensures
            cipher@ == key % 26,
    {
        CaesarCipher { key }
    }
}

impl TextCipher for CaesarCipher {
    open spec fn encrypted(&self, text: Seq<char>) -> Seq<char> {
        shifted_text(text, self@)
    }

    open spec fn decrypted(&self, text: Seq<char>) -> Seq<char> {
        shifted_text(text, Self::inverse(self@))
    }

    fn encrypt(&self, text: &str) -> (out: String) {
        let shift: u8 = (self.key % 26) as u8;
        caesar_shift(text, shift)
    }

    fn decrypt(&self, text: &str) -> (out: String) {
        let shift: u8 = ((26 - self.key % 26) % 26) as u8;
        caesar_shift(text, shift)
    }
}

/// Decrypting what a Caesar cipher encrypted gives the text back, and so
/// does encrypting what it decrypted.
pub proof fn lemma_caesar_round_trip(cipher: CaesarCipher, text: Seq<char>)
    ensures
        cipher.decrypted(cipher.encrypted(text)) == text,
        cipher.encrypted(cipher.decrypted(text)) == text,
{
    let there = cipher@;
    let back = CaesarCipher::inverse(there);
    lemma_shifted_text_undone(text, there, back);
    lemma_shifted_text_undone(text, back, there);
}

/// Two Caesar keys that differ by 26 encrypt and decrypt alike.
pub proof fn lemma_caesar_key_periodic(
    low: CaesarCipher,
    high: CaesarCipher,
    key: u32,
    text: Seq<char>,
)
    requires
        key + 26 <= u32::MAX,
        low@ == key % 26,
        high@ == (key + 26) % 26,
    ensures
        high.encrypted(text) == low.encrypted(text),
        high.decrypted(text) == low.decrypted(text),
{
}

/// A Caesar cipher keeps the length of a text and the class of each of its
/// characters, whether it encrypts or decrypts: upper case stays upper
/// case, lower case stays lower case, and what is no letter is unchanged.
pub proof fn lemma_caesar_keeps_shape(cipher: CaesarCipher, text: Seq<char>)
    ensures
        cipher.encrypted(text).len() == text.len(),
        cipher.decrypted(text).len() == text.len(),
        forall|i: int|
            #![trigger cipher.encrypted(text)[i]]
            #![trigger cipher.decrypted(text)[i]]
            0 <= i < text.len() ==> {
                &&& is_upper(text[i]) ==> is_upper(cipher.encrypted(text)[i]) && is_upper(
                    cipher.decrypted(text)[i],
                )
                &&& is_lower(text[i]) ==> is_lower(cipher.encrypted(text)[i]) && is_lower(
                    cipher.decrypted(text)[i],
                )
                &&& !is_letter(text[i]) ==> cipher.encrypted(text)[i] == text[i]
                    && cipher.decrypted(text)[i] == text[i]
            },
{
    lemma_shifted_text_keeps_shape(text, cipher@);
    lemma_shifted_text_keeps_shape(text, CaesarCipher::inverse(cipher@));
}

} // verus!
