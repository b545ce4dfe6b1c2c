//! The interface that every cipher offers, and the errors of the library.

use vstd::prelude::*;

verus! {

/// Why a key or an argument was refused.
#[derive(Debug, Clone, Copy, PartialEq, Eq, Structural)]
pub enum CipherError {
    /// The key cannot be used: a Vigenère key that is empty or holds a
    /// character that is no letter, or a substitution entry without
    /// alternatives.
    InvalidKey,
    /// An argument is outside its range: an n-gram length of zero.
    InvalidArgument,
}

/// A cipher over text: two total functions on character sequences, fixed by
/// the key that the cipher was made with.
pub trait TextCipher {
    /// The ciphertext of `text` under this cipher's key.
    spec fn encrypted(&self, text: Seq<char>) -> Seq<char>;

    /// The plaintext of `text` under this cipher's key.
    spec fn decrypted(&self, text: Seq<char>) -> Seq<char>;

    /// Encrypts `text`.
    fn encrypt(&self, text: &str) -> (out: String)
        ensures
            out@ == self.encrypted(text@),
    ;

    /// Decrypts `text`.
    fn decrypt(&self, text: &str) -> (out: String)
        ensures
            out@ == self.decrypted(text@),
    ;
}

} // verus!
