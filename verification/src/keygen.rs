//! Random generation of transposition keys: uniformly random permutations
//! of `{0, ..., n - 1}`.

use vstd::prelude::*;
use crate::transposition::{is_permutation, perm_contains};

verus! {

/// The ways key generation can fail.
#[derive(Debug, Clone, Copy, PartialEq, Eq, Structural)]
pub enum CipherError {
    /// The requested key size admits no permutation key (it is zero).
    InvalidKeySize,
}

/// Relies on `rand::rng` and `rand::RngExt::random_range`: draws a uniformly
/// random integer from `0..bound`, a range that is non-empty since
/// `bound > 0`. Nothing is assumed beyond the result lying in the range;
/// `rand::rng` can still panic if the operating system's randomness source
/// fails when the thread-local generator is first seeded.
#[verifier::external_body]
fn random_index(bound: usize) -> (r: usize)
    requires
        bound > 0,
    ensures
        r < bound,
{
    rand::RngExt::random_range(&mut rand::rng(), 0..bound)
}

/// Produces a uniformly random permutation of `{0, ..., key_size - 1}`, by
/// a random shuffle of the identity arrangement; a key size of zero admits
/// no permutation and is rejected.
pub fn trans_key_gen(key_size: usize) -> (r: Result<Vec<usize>, CipherError>)
    ensures
        r is Ok <==> key_size > 0,
        r matches Ok(v) ==> v@.len() == key_size && is_permutation(v@),
        r matches Err(e) ==> e == CipherError::InvalidKeySize,
{
    if key_size == 0 {
        return Err(CipherError::InvalidKeySize);
    }
    let mut v: Vec<usize> = Vec::new();
    let mut i: usize = 0;
    while i < key_size
        invariant
            i <= key_size,
            v@.len() == i,
            forall|p: int| 0 <= p < i ==> v@[p] == p,
        decreases key_size - i,
    {
        v.push(i);
        i += 1;
    }
    proof {
        assert forall|x: int| 0 <= x < v@.len() implies perm_contains(v@, x) by {
            assert(v@[x] as int == x);
        }
        assert(is_permutation(v@));
    }
    let mut i: usize = key_size - 1;
    while i > 0
        invariant
            i < key_size,
            v@.len() == key_size,
            is_permutation(v@),
        decreases i,
    {
        let j = random_index(i + 1);
        let ghost before = v@;
        let vi = v[i];
        let vj = v[j];
        v.set(i, vj);
        v.set(j, vi);
        proof {
            let a = i as int;
            let b = j as int;
            assert(v@ =~= before.update(a, before[b]).update(b, before[a]));
            assert forall|x: int| 0 <= x < v@.len() implies perm_contains(v@, x) by {
                assert(perm_contains(before, x));
                let w = choose|w: int| 0 <= w < before.len() && before[w] as int == x;
                if w == a {
                    assert(v@[b] as int == x);
                } else if w == b {
                    assert(v@[a] as int == x);
                } else {
                    assert(v@[w] as int == x);
                }
            }
            assert forall|p: int, q: int|
                0 <= p < v@.len() && 0 <= q < v@.len() && p != q implies v@[p] != v@[q] by {
                assert(v@[p] == before[if p == a { b } else if p == b { a } else { p }]);
                assert(v@[q] == before[if q == a { b } else if q == b { a } else { q }]);
            }
            assert(is_permutation(v@));
        }
        i -= 1;
    }
    Ok(v)
}

} // verus!
