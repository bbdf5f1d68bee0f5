//! The shift (Caesar) cipher: every alphabetic character is rotated by a
//! fixed amount within its own case's 26-letter range, wrapping at the
//! range boundary; all other characters pass through unchanged.

use vstd::prelude::*;
use vstd::arithmetic::div_mod::{
    lemma_add_mod_noop_right, lemma_sub_mod_noop, lemma_sub_mod_noop_right,
    lemma_mod_add_multiples_vanish, lemma_small_mod, lemma_mod_bound,
};

verus! {

/// An English letter, upper or lower case; only these are rotated.
pub open spec fn is_alpha_char(c: char) -> bool {
    ('A' <= c && c <= 'Z') || ('a' <= c && c <= 'z')
}

/// One character rotated upward by `key` positions within its case's range;
/// the key acts modulo 26, and non-alphabetic characters are unchanged.
pub open spec fn rot_up_spec(key: u8, c: char) -> char {
    if 'A' <= c && c <= 'Z' {
        ((('A' as int) + ((c as int - 'A' as int + key as int) % 26)) as u8) as char
    } else if 'a' <= c && c <= 'z' {
        ((('a' as int) + ((c as int - 'a' as int + key as int) % 26)) as u8) as char
    } else {
        c
    }
}

/// One character rotated downward by `key` positions: the exact inverse
/// rotation of `rot_up_spec` for the same key.
pub open spec fn rot_down_spec(key: u8, c: char) -> char {
    if 'A' <= c && c <= 'Z' {
        ((('A' as int) + ((c as int - 'A' as int - key as int) % 26)) as u8) as char
    } else if 'a' <= c && c <= 'z' {
        ((('a' as int) + ((c as int - 'a' as int - key as int) % 26)) as u8) as char
    } else {
        c
    }
}

/// The whole text shifted upward character by character.
pub open spec fn shift_encrypt_spec(key: u8, s: Seq<char>) -> Seq<char> {
    s.map(|_i: int, c: char| rot_up_spec(key, c))
}

/// The whole text shifted downward character by character.
pub open spec fn shift_decrypt_spec(key: u8, s: Seq<char>) -> Seq<char> {
    s.map(|_i: int, c: char| rot_down_spec(key, c))
}

/// Reducing the key modulo 26 does not change the rotation.
pub proof fn lemma_rot_key_mod(key: u8, c: char)
    ensures
        rot_up_spec(key % 26, c) == rot_up_spec(key, c),
        rot_down_spec(key % 26, c) == rot_down_spec(key, c),
{
    if is_alpha_char(c) {
        let base = if c <= 'Z' { 'A' as int } else { 'a' as int };
        let o = c as int - base;
        lemma_add_mod_noop_right(o, key as int, 26);
        lemma_sub_mod_noop_right(o, key as int, 26);
    }
}

/// Reducing the key modulo 26 does not change the shifted text.
pub proof fn lemma_shift_key_mod(key: u8, s: Seq<char>)
    ensures
        shift_encrypt_spec(key % 26, s) == shift_encrypt_spec(key, s),
        shift_decrypt_spec(key % 26, s) == shift_decrypt_spec(key, s),
{
    assert forall|i: int| 0 <= i < s.len() implies rot_up_spec(key % 26, s[i]) == rot_up_spec(
        key,
        s[i],
    ) && rot_down_spec(key % 26, s[i]) == rot_down_spec(key, s[i]) by {
        lemma_rot_key_mod(key, s[i]);
    }
    assert(shift_encrypt_spec(key % 26, s) =~= shift_encrypt_spec(key, s));
    assert(shift_decrypt_spec(key % 26, s) =~= shift_decrypt_spec(key, s));
}

/// Rotating a character down undoes rotating it up with the same key.
pub proof fn lemma_rot_round_trip(key: u8, c: char)
    ensures
        rot_down_spec(key, rot_up_spec(key, c)) == c,
{
    if is_alpha_char(c) {
        let base = if c <= 'Z' { 'A' as int } else { 'a' as int };
        let o = c as int - base;
        let k = key as int;
        let e = (o + k) % 26;
        lemma_mod_bound(o + k, 26);
        let r = rot_up_spec(key, c);
        assert(r as int == base + e);
        lemma_sub_mod_noop(o + k, k, 26);
        lemma_sub_mod_noop_right((o + k) % 26, k, 26);
        lemma_small_mod(o as nat, 26);
        assert((e - k) % 26 == o);
        assert(rot_down_spec(key, r) as int == base + o);
    }
}

/// Shift round trip: decrypting an encryption with the same key restores
/// the original text, for every key and every text.
pub proof fn lemma_shift_round_trip(key: u8, s: Seq<char>)
    ensures
        shift_decrypt_spec(key, shift_encrypt_spec(key, s)) == s,
{
    assert forall|i: int| 0 <= i < s.len() implies rot_down_spec(key, rot_up_spec(key, s[i]))
        == s[i] by {
        lemma_rot_round_trip(key, s[i]);
    }
    assert(shift_decrypt_spec(key, shift_encrypt_spec(key, s)) =~= s);
}

/// Non-alphabetic invariance: a text with no alphabetic character is left
/// unchanged by the shift cipher, whatever the key.
pub proof fn lemma_shift_non_alphabetic(key: u8, s: Seq<char>)
    requires
        forall|i: int| 0 <= i < s.len() ==> !is_alpha_char(#[trigger] s[i]),
    ensures
        shift_encrypt_spec(key, s) == s,
        shift_decrypt_spec(key, s) == s,
{
    assert(shift_encrypt_spec(key, s) =~= s);
    assert(shift_decrypt_spec(key, s) =~= s);
}

/// One character rotated upward by a reduced key.
pub(crate) fn rot_up(key: u8, x: char) -> (r: char)
    requires
        key < 26,
    ensures
        r == rot_up_spec(key, x),
{
    let u = x as u32;
    if 65 <= u && u <= 90 {
        ((65 + (u - 65 + key as u32) % 26) as u8) as char
    } else if 97 <= u && u <= 122 {
        ((97 + (u - 97 + key as u32) % 26) as u8) as char
    } else {
        x
    }
}

/// One character rotated downward by a reduced key.
pub(crate) fn rot_down(key: u8, x: char) -> (r: char)
    requires
        key < 26,
    ensures
        r == rot_down_spec(key, x),
{
    let u = x as u32;
    if 65 <= u && u <= 90 {
        let r = ((65 + (u - 65 + 26 - key as u32) % 26) as u8) as char;
        proof {
            lemma_mod_add_multiples_vanish(x as int - 'A' as int - key as int, 26);
        }
        r
    } else if 97 <= u && u <= 122 {
        let r = ((97 + (u - 97 + 26 - key as u32) % 26) as u8) as char;
        proof {
            lemma_mod_add_multiples_vanish(x as int - 'a' as int - key as int, 26);
        }
        r
    } else {
        x
    }
}

/// Rotates every character of the text upward in place.
pub(crate) fn rot_vec_up(key: u8, org: &mut Vec<char>)
    requires
        key < 26,
    ensures
        final(org)@ == shift_encrypt_spec(key, old(org)@),
{
    let ghost s0: Seq<char> = org@;
    let mut i: usize = 0;
    while i < org.len()
        invariant
            i <= org@.len(),
            org@.len() == s0.len(),
            forall|p: int| 0 <= p < i ==> org@[p] == rot_up_spec(key, s0[p]),
            forall|p: int| i <= p < org@.len() ==> org@[p] == s0[p],
            key < 26,
        decreases org@.len() - i,
    {
        let c = org[i];
        let r = rot_up(key, c);
        org.set(i, r);
        i += 1;
    }
    assert(org@ =~= shift_encrypt_spec(key, s0));
}

/// Rotates every character of the text downward in place.
pub(crate) fn rot_vec_down(key: u8, org: &mut Vec<char>)
    requires
        key < 26,
    ensures
        final(org)@ == shift_decrypt_spec(key, old(org)@),
{
    let ghost s0: Seq<char> = org@;
    let mut i: usize = 0;
    while i < org.len()
        invariant
            i <= org@.len(),
            org@.len() == s0.len(),
            forall|p: int| 0 <= p < i ==> org@[p] == rot_down_spec(key, s0[p]),
            forall|p: int| i <= p < org@.len() ==> org@[p] == s0[p],
            key < 26,
        decreases org@.len() - i,
    {
        let c = org[i];
        let r = rot_down(key, c);
        org.set(i, r);
        i += 1;
    }
    assert(org@ =~= shift_decrypt_spec(key, s0));
}

} // verus!
