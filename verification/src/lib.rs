//! Classical text ciphers (Caesar, ROT13, Vigenère, substitution) and the
//! frequency counts used to analyse their output.
//!
//! Every cipher works on Unicode scalar values; only the 26 letters of the
//! Latin alphabet are ever shifted, and their case is kept.

pub mod caesar_shift;
pub mod frequency;
pub mod rot13;
pub mod substitution;
pub mod text;
pub mod text_cipher;
pub mod vigenere;
