//! The public cipher surface: a tagged `Ciphers` value holds either a
//! shift key or a transposition key, and encrypts or decrypts owned text
//! with it; the two directions are exact inverses of one another.

use vstd::prelude::*;
use crate::keygen;
use crate::keygen::CipherError;
use crate::shift;
use crate::shift::{shift_encrypt_spec, shift_decrypt_spec, lemma_shift_key_mod,
    lemma_shift_round_trip};
use crate::text;
use crate::transposition;
use crate::transposition::{is_permutation, trans_encrypt_spec, trans_decrypt_spec,
    lemma_trans_round_trip};

verus! {

/// A cipher together with its key data: a shift cipher keyed by a rotation
/// amount, or a transposition cipher keyed by a position permutation.
#[derive(Debug, Clone)]
pub enum Ciphers {
    /// Shift cipher; the key is used modulo 26.
    ShiftCipher(u8),
    /// Transposition cipher; the key must be a permutation of
    /// `{0, ..., key.len() - 1}`, as `trans_key_gen` produces.
    TransCipher(Vec<usize>),
}

impl Ciphers {
    /// A well-formed cipher: a transposition key is a non-empty genuine
    /// permutation; every shift key is meaningful.
    pub open spec fn wf(&self) -> bool {
        match *self {
            Ciphers::ShiftCipher(_) => true,
            Ciphers::TransCipher(key) => is_permutation(key@) && key@.len() > 0,
        }
    }

    /// The key accessor's value: the shift amount, or the transposition
    /// key's length reduced to eight bits.
    pub open spec fn key_spec(&self) -> u8 {
        match *self {
            Ciphers::ShiftCipher(key) => key,
            Ciphers::TransCipher(key) => (key@.len() % 256) as u8,
        }
    }

    /// What encryption does to a text, as a function of the cipher.
    pub open spec fn encrypt_spec(&self, s: Seq<char>) -> Seq<char> {
        match *self {
            Ciphers::ShiftCipher(key) => shift_encrypt_spec(key, s),
            Ciphers::TransCipher(key) => trans_encrypt_spec(key@, s),
        }
    }

    /// What decryption does to a text, as a function of the cipher.
    pub open spec fn decrypt_spec(&self, s: Seq<char>) -> Seq<char> {
        match *self {
            Ciphers::ShiftCipher(key) => shift_decrypt_spec(key, s),
            Ciphers::TransCipher(key) => trans_decrypt_spec(key@, s),
        }
    }

    /// Returns the key or key size stored in the cipher; the cipher is
    /// only read, so repeated calls return the same value.
    pub fn key(&self) -> (r: u8)
        ensures
            r == self.key_spec(),
    {
        match self {
            Ciphers::ShiftCipher(key) => *key,
            Ciphers::TransCipher(key) => (key.len() % 256) as u8,
        }
    }

    /// Encrypts the text with the cipher's key; the shift key is reduced
    /// modulo 26 at this boundary.
    pub fn encrypt(&self, original_text: String) -> (r: String)
        requires
            self.wf(),
        ensures
            r@ == self.encrypt_spec(original_text@),
    {
        let ghost t = original_text@;
        match self {
            Ciphers::ShiftCipher(key) => {
                let r = Self::shift_encrypt(*key % 26, original_text);
                proof {
                    lemma_shift_key_mod(*key, t);
                }
                r
            },
            Ciphers::TransCipher(key) => Self::trans_encrypt(key, original_text),
        }
    }

    /// Decrypts the text with the cipher's key: the exact inverse of
    /// `encrypt` with the same cipher.
    pub fn decrypt(&self, cipher_text: String) -> (r: String)
        requires
            self.wf(),
        ensures
            r@ == self.decrypt_spec(cipher_text@),
    {
        let ghost t = cipher_text@;
        match self {
            Ciphers::ShiftCipher(key) => {
                let r = Self::shift_decrypt(*key % 26, cipher_text);
                proof {
                    lemma_shift_key_mod(*key, t);
                }
                r
            },
            Ciphers::TransCipher(key) => Self::trans_decrypt(key, cipher_text),
        }
    }

    /// Shifts every alphabetic character of the text upward by the
    /// already-reduced key.
    fn shift_encrypt(key: u8, original_text: String) -> (r: String)
        requires
            key < 26,
        ensures
            r@ == shift_encrypt_spec(key, original_text@),
    {
        let mut chars = text::string_chars(original_text.as_str());
        shift::rot_vec_up(key, &mut chars);
        text::chars_to_string(&chars)
    }

    /// Shifts every alphabetic character of the text downward by the
    /// already-reduced key.
    fn shift_decrypt(key: u8, cipher_text: String) -> (r: String)
        requires
            key < 26,
        ensures
            r@ == shift_decrypt_spec(key, cipher_text@),
    {
        let mut chars = text::string_chars(cipher_text.as_str());
        shift::rot_vec_down(key, &mut chars);
        text::chars_to_string(&chars)
    }

    /// Transposes the text block by block with the permutation key.
    fn trans_encrypt(key: &Vec<usize>, original_text: String) -> (r: String)
        requires
            is_permutation(key@),
            key@.len() > 0,
        ensures
            r@ == trans_encrypt_spec(key@, original_text@),
    {
        let mut chars = text::string_chars(original_text.as_str());
        transposition::encrypt_trans_vec(key, &mut chars);
        text::chars_to_string(&chars)
    }

    /// Undoes the block transposition of the text with the permutation key.
    fn trans_decrypt(key: &Vec<usize>, cipher_text: String) -> (r: String)
        requires
            is_permutation(key@),
            key@.len() > 0,
        ensures
            r@ == trans_decrypt_spec(key@, cipher_text@),
    {
        let mut chars = text::string_chars(cipher_text.as_str());
        transposition::decrypt_trans_vec(key, &mut chars);
        text::chars_to_string(&chars)
    }

    /// Produces a key for the transposition cipher: a uniformly random
    /// permutation of `{0, ..., key_size - 1}`, or `InvalidKeySize` when
    /// `key_size` is zero.
    pub fn trans_key_gen(key_size: usize) -> (r: Result<Vec<usize>, CipherError>)
        ensures
            r is Ok <==> key_size > 0,
            r matches Ok(v) ==> v@.len() == key_size && is_permutation(v@),
            r matches Err(e) ==> e == CipherError::InvalidKeySize,
    {
        keygen::trans_key_gen(key_size)
    }
}

/// Cipher round trip: decrypting an encryption with the same well-formed
/// cipher restores the original text, for every cipher and every text.
pub proof fn lemma_cipher_round_trip(cipher: &Ciphers, s: Seq<char>)
    requires
        cipher.wf(),
    ensures
        cipher.decrypt_spec(cipher.encrypt_spec(s)) == s,
{
    match *cipher {
        Ciphers::ShiftCipher(key) => {
            lemma_shift_round_trip(key, s);
        },
        Ciphers::TransCipher(key) => {
            lemma_trans_round_trip(key@, s);
        },
    }
}

} // verus!
