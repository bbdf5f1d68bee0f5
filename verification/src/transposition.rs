//! The block transposition cipher: the text is scanned in non-overlapping
//! blocks whose size is the key's length, and the characters inside each
//! block are permuted according to the key. A block is processed only while
//! it ends strictly before the end of the buffer, so the final aligned
//! block, and any shorter tail, are always left untouched.

use vstd::prelude::*;
use vstd::arithmetic::div_mod::{
    lemma_fundamental_div_mod, lemma_fundamental_div_mod_converse_div,
    lemma_mod_division_less_than_divisor, lemma_mod_add_multiples_vanish,
    lemma_mod_multiples_basic, lemma_div_is_ordered, lemma_div_pos_is_pos,
};
use vstd::arithmetic::mul::{lemma_mul_inequality, lemma_mul_is_commutative};

verus! {

/// Some position of the key holds the value `x`.
pub open spec fn perm_contains(key: Seq<usize>, x: int) -> bool {
    exists|j: int| 0 <= j < key.len() && #[trigger] key[j] as int == x
}

/// The key is a genuine permutation of `{0, ..., key.len() - 1}`: every
/// entry is in range, no value repeats, and every value occurs.
pub open spec fn is_permutation(key: Seq<usize>) -> bool {
    &&& forall|j: int| 0 <= j < key.len() ==> (#[trigger] key[j] as int) < key.len()
    &&& forall|p: int, q: int|
        0 <= p < key.len() && 0 <= q < key.len() && p != q ==> key[p] != key[q]
    &&& forall|x: int| 0 <= x < key.len() ==> #[trigger] perm_contains(key, x)
}

/// The position of the key that holds the value `x`.
pub open spec fn perm_inv(key: Seq<usize>, x: int) -> int {
    choose|j: int| 0 <= j < key.len() && #[trigger] key[j] as int == x
}

/// For a permutation key, `perm_inv` picks the one position holding `x`.
pub proof fn lemma_perm_inv(key: Seq<usize>, x: int)
    requires
        is_permutation(key),
        0 <= x < key.len(),
    ensures
        0 <= perm_inv(key, x) < key.len(),
        key[perm_inv(key, x)] as int == x,
        forall|j: int| 0 <= j < key.len() && #[trigger] key[j] as int == x
            ==> j == perm_inv(key, x),
{
    assert(perm_contains(key, x));
}

/// The start of the block that position `p` falls in, for block size `n`.
pub open spec fn block_of(p: int, n: int) -> int {
    n * (p / n)
}

/// Whether position `p` lies in a block that the cipher processes: the
/// block must end strictly before the end of the buffer, so the final
/// aligned block of the buffer is skipped.
pub open spec fn in_full_block(p: int, n: int, len: int) -> bool {
    block_of(p, n) + n < len
}

/// A position `i + j` inside the block that starts at `i` has that block start.
proof fn lemma_block_of_in(i: int, j: int, n: int)
    requires
        n > 0,
        0 <= i,
        i % n == 0,
        0 <= j < n,
    ensures
        block_of(i + j, n) == i,
{
    lemma_fundamental_div_mod(i, n);
    let q = i / n;
    lemma_mul_is_commutative(n, q);
    assert(i + j == q * n + j);
    lemma_fundamental_div_mod_converse_div(i + j, n, q, j);
    assert(block_of(i + j, n) == n * q);
}

/// A block start is non-negative, a multiple of the block size, and at
/// most `n - 1` positions before `p`.
proof fn lemma_block_offset(p: int, n: int)
    requires
        n > 0,
        0 <= p,
    ensures
        0 <= block_of(p, n) <= p,
        0 <= p - block_of(p, n) < n,
        block_of(p, n) % n == 0,
{
    lemma_fundamental_div_mod(p, n);
    lemma_mod_division_less_than_divisor(p, n);
    lemma_div_pos_is_pos(p, n);
    lemma_mul_inequality(0, p / n, n);
    lemma_mul_is_commutative(n, p / n);
    lemma_mod_multiples_basic(p / n, n);
}

/// Positions at or past a block boundary `i` have their block start at or
/// past `i` as well.
proof fn lemma_block_of_ge(p: int, i: int, n: int)
    requires
        n > 0,
        0 <= i <= p,
        i % n == 0,
    ensures
        block_of(p, n) >= i,
{
    lemma_fundamental_div_mod(i, n);
    lemma_div_is_ordered(i, p, n);
    lemma_mul_inequality(i / n, p / n, n);
    lemma_mul_is_commutative(n, i / n);
    lemma_mul_is_commutative(n, p / n);
}

/// The whole text transposed block by block: inside each processed block
/// the character at offset `j` is replaced by the one at offset `key[j]`;
/// everything else is unchanged.
pub open spec fn trans_encrypt_spec<T>(key: Seq<usize>, s: Seq<T>) -> Seq<T> {
    let n = key.len() as int;
    let len = s.len() as int;
    Seq::new(
        s.len(),
        |p: int|
            if in_full_block(p, n, len) {
                s[block_of(p, n) + key[p - block_of(p, n)] as int]
            } else {
                s[p]
            },
    )
}

/// The inverse transposition: inside each processed block the character at
/// offset `key[j]` moves back to offset `j`; everything else is unchanged.
pub open spec fn trans_decrypt_spec<T>(key: Seq<usize>, s: Seq<T>) -> Seq<T> {
    let n = key.len() as int;
    let len = s.len() as int;
    Seq::new(
        s.len(),
        |p: int|
            if in_full_block(p, n, len) {
                s[block_of(p, n) + perm_inv(key, p - block_of(p, n))]
            } else {
                s[p]
            },
    )
}

/// Transposition round trip: decrypting an encryption with the same
/// permutation key restores the original text, whatever its length.
pub proof fn lemma_trans_round_trip<T>(key: Seq<usize>, s: Seq<T>)
    requires
        is_permutation(key),
        key.len() > 0,
    ensures
        trans_decrypt_spec(key, trans_encrypt_spec(key, s)) == s,
{
    let n = key.len() as int;
    let len = s.len() as int;
    let e = trans_encrypt_spec(key, s);
    let d = trans_decrypt_spec(key, e);
    assert forall|p: int| 0 <= p < len implies d[p] == s[p] by {
        if in_full_block(p, n, len) {
            lemma_block_offset(p, n);
            let bs = block_of(p, n);
            let x = p - bs;
            lemma_perm_inv(key, x);
            let j = perm_inv(key, x);
            lemma_block_of_in(bs, j, n);
            let q = bs + j;
            assert(d[p] == e[q]);
            assert(in_full_block(q, n, len));
            assert(e[q] == s[bs + key[j] as int]);
            assert(s[bs + key[j] as int] == s[p]);
        }
    }
    assert(d =~= s);
}

/// Boundary quirk: a text exactly one block long is returned unchanged,
/// because the only aligned block does not end strictly before the end of
/// the buffer.
pub proof fn lemma_trans_single_block<T>(key: Seq<usize>, s: Seq<T>)
    requires
        key.len() > 0,
        s.len() == key.len(),
    ensures
        trans_encrypt_spec(key, s) == s,
        trans_decrypt_spec(key, s) == s,
{
    let n = key.len() as int;
    let len = s.len() as int;
    assert forall|p: int| 0 <= p < len implies !in_full_block(p, n, len) by {
        lemma_block_offset(p, n);
    }
    assert(trans_encrypt_spec(key, s) =~= s);
    assert(trans_decrypt_spec(key, s) =~= s);
}

/// Applies the permutation to the block of `v` that starts at `start`:
/// offset `j` receives the value that offset `key[j]` held.
pub(crate) fn encrypt_with_accord<T: Copy>(v: &mut Vec<T>, start: usize, key: &Vec<usize>)
    requires
        is_permutation(key@),
        start as int + key@.len() as int <= old(v)@.len() as int,
    ensures
        final(v)@.len() == old(v)@.len(),
        forall|j: int| 0 <= j < key@.len()
            ==> final(v)@[start as int + j] == old(v)@[start as int + #[trigger] key@[j] as int],
        forall|p: int|
            0 <= p < old(v)@.len() && !(start as int <= p < start as int + key@.len() as int)
                ==> final(v)@[p] == old(v)@[p],
{
    let ghost v0 = v@;
    let n = key.len();
    assert(start + n <= v.len());
    let mut scratch: Vec<T> = Vec::new();
    let mut j: usize = 0;
    while j < n
        invariant
            j <= n,
            n == key@.len(),
            start + n <= v.len(),
            v@ == v0,
            scratch@ == v0.subrange(start as int, start as int + j as int),
        decreases n - j,
    {
        scratch.push(v[start + j]);
        proof {
            assert(scratch@ =~= v0.subrange(start as int, start as int + j as int + 1));
        }
        j += 1;
    }
    let mut j: usize = 0;
    while j < n
        invariant
            j <= n,
            n == key@.len(),
            is_permutation(key@),
            start + n <= v.len(),
            v@.len() == v0.len(),
            scratch@ == v0.subrange(start as int, start as int + n as int),
            forall|jj: int| 0 <= jj < j
                ==> v@[start as int + jj] == v0[start as int + #[trigger] key@[jj] as int],
            forall|p: int|
                0 <= p < v0.len() && !(start as int <= p < start as int + j as int)
                    ==> v@[p] == v0[p],
        decreases n - j,
    {
        let idx = key[j];
        assert(idx < n);
        let c = scratch[idx];
        assert(c == v0[start as int + idx as int]);
        v.set(start + j, c);
        j += 1;
    }
}

/// Undoes the permutation on the block of `v` that starts at `start`:
/// offset `key[j]` receives the value that offset `j` held.
pub(crate) fn decrypt_with_accord<T: Copy>(v: &mut Vec<T>, start: usize, key: &Vec<usize>)
    requires
        is_permutation(key@),
        start as int + key@.len() as int <= old(v)@.len() as int,
    ensures
        final(v)@.len() == old(v)@.len(),
        forall|j: int| 0 <= j < key@.len()
            ==> final(v)@[start as int + #[trigger] key@[j] as int] == old(v)@[start as int + j],
        forall|p: int|
            0 <= p < old(v)@.len() && !(start as int <= p < start as int + key@.len() as int)
                ==> final(v)@[p] == old(v)@[p],
{
    let ghost v0 = v@;
    let n = key.len();
    assert(start + n <= v.len());
    let mut scratch: Vec<T> = Vec::new();
    let mut j: usize = 0;
    while j < n
        invariant
            j <= n,
            n == key@.len(),
            start + n <= v.len(),
            v@ == v0,
            scratch@ == v0.subrange(start as int, start as int + j as int),
        decreases n - j,
    {
        scratch.push(v[start + j]);
        proof {
            assert(scratch@ =~= v0.subrange(start as int, start as int + j as int + 1));
        }
        j += 1;
    }
    let mut j: usize = 0;
    while j < n
        invariant
            j <= n,
            n == key@.len(),
            is_permutation(key@),
            start + n <= v.len(),
            v@.len() == v0.len(),
            scratch@ == v0.subrange(start as int, start as int + n as int),
            forall|jj: int| 0 <= jj < j
                ==> v@[start as int + #[trigger] key@[jj] as int] == v0[start as int + jj],
            forall|p: int|
                0 <= p < v0.len()
                    && !(exists|jj: int| 0 <= jj < j && p == start as int + #[trigger] key@[jj] as int)
                    ==> v@[p] == v0[p],
        decreases n - j,
    {
        let idx = key[j];
        assert(idx < n);
        let c = scratch[j];
        assert(c == v0[start as int + j as int]);
        v.set(start + idx, c);
        j += 1;
    }
    proof {
        assert forall|p: int|
            0 <= p < v0.len() && !(start as int <= p < start as int + n as int)
                implies v@[p] == v0[p] by {
            assert(!(exists|jj: int| 0 <= jj < n && p == start as int + #[trigger] key@[jj] as int));
        }
    }
}

/// Transposes the whole buffer in place, block by block, skipping any
/// block that does not end strictly before the end of the buffer.
pub(crate) fn encrypt_trans_vec<T: Copy>(key: &Vec<usize>, org: &mut Vec<T>)
    requires
        is_permutation(key@),
        key@.len() > 0,
    ensures
        final(org)@ == trans_encrypt_spec(key@, old(org)@),
{
    let ghost s0 = org@;
    let n = key.len();
    let mut i: usize = 0;
    while i < org.len() && n < org.len() - i
        invariant
            n == key@.len(),
            n > 0,
            is_permutation(key@),
            org@.len() == s0.len(),
            i as int <= s0.len() as int,
            i as int % (n as int) == 0,
            forall|p: int| 0 <= p < i as int
                ==> in_full_block(p, n as int, s0.len() as int)
                    && org@[p] == s0[block_of(p, n as int) + key@[p - block_of(p, n as int)] as int],
            forall|p: int| i as int <= p < s0.len() ==> org@[p] == s0[p],
        decreases s0.len() - i,
    {
        let ghost cur = org@;
        encrypt_with_accord(org, i, key);
        proof {
            assert forall|p: int| i as int <= p < i as int + n as int implies
                in_full_block(p, n as int, s0.len() as int)
                    && org@[p] == s0[block_of(p, n as int) + key@[p - block_of(p, n as int)] as int]
            by {
                let j = p - i as int;
                lemma_block_of_in(i as int, j, n as int);
                assert(org@[i as int + j] == cur[i as int + key@[j] as int]);
                assert(cur[i as int + key@[j] as int] == s0[i as int + key@[j] as int]);
            }
            lemma_mod_add_multiples_vanish(i as int, n as int);
        }
        i += n;
    }
    proof {
        assert forall|p: int| i as int <= p < s0.len() implies
            !in_full_block(p, n as int, s0.len() as int) by {
            lemma_block_of_ge(p, i as int, n as int);
        }
        assert(org@ =~= trans_encrypt_spec(key@, s0));
    }
}

/// Undoes the block transposition of the whole buffer in place, with the
/// same blocking rule as the forward direction.
pub(crate) fn decrypt_trans_vec<T: Copy>(key: &Vec<usize>, org: &mut Vec<T>)
    requires
        is_permutation(key@),
        key@.len() > 0,
    ensures
        final(org)@ == trans_decrypt_spec(key@, old(org)@),
{
    let ghost s0 = org@;
    let n = key.len();
    let mut i: usize = 0;
    while i < org.len() && n < org.len() - i
        invariant
            n == key@.len(),
            n > 0,
            is_permutation(key@),
            org@.len() == s0.len(),
            i as int <= s0.len() as int,
            i as int % (n as int) == 0,
            forall|p: int| 0 <= p < i as int
                ==> in_full_block(p, n as int, s0.len() as int)
                    && org@[p] == s0[block_of(p, n as int) + perm_inv(key@, p - block_of(p, n as int))],
            forall|p: int| i as int <= p < s0.len() ==> org@[p] == s0[p],
        decreases s0.len() - i,
    {
        let ghost cur = org@;
        decrypt_with_accord(org, i, key);
        proof {
            assert forall|p: int| i as int <= p < i as int + n as int implies
                in_full_block(p, n as int, s0.len() as int)
                    && org@[p] == s0[block_of(p, n as int) + perm_inv(key@, p - block_of(p, n as int))]
            by {
                let x = p - i as int;
                lemma_block_of_in(i as int, x, n as int);
                lemma_perm_inv(key@, x);
                let j = perm_inv(key@, x);
                assert(org@[i as int + key@[j] as int] == cur[i as int + j]);
                assert(cur[i as int + j] == s0[i as int + j]);
                assert(org@[p] == s0[i as int + j]);
            }
            lemma_mod_add_multiples_vanish(i as int, n as int);
        }
        i += n;
    }
    proof {
        assert forall|p: int| i as int <= p < s0.len() implies
            !in_full_block(p, n as int, s0.len() as int) by {
            lemma_block_of_ge(p, i as int, n as int);
        }
        assert(org@ =~= trans_decrypt_spec(key@, s0));
    }
}

} // verus!
