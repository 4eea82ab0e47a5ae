//! Classical-cipher computation core: a DES-style key-schedule generator
//! (PC-1 bit permutation over a normalized 8-byte key) and a Playfair
//! matrix cipher (keyed 5-column substitution grid with bigram
//! encryption/decryption), plus the configuration record used by the
//! surrounding certificate tooling.

pub mod alphabet;
pub mod codec;
pub mod key_schedule;
pub mod matrix;
pub mod pki;
mod strutil;
