//! Two classical text ciphers with verified behaviour: a shift (Caesar)
//! cipher that rotates alphabetic characters, and a block transposition
//! cipher that permutes character positions inside fixed-size blocks,
//! together with a random permutation-key generator.

pub mod cipher;
pub mod keygen;
pub mod shift;
mod text;
pub mod transposition;
