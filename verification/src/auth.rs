//! The computable part of the handshake: the daemon compares the secret a
//! client sent against its own in constant time, accumulating the
//! difference over every byte instead of returning at the first mismatch.

use vstd::prelude::*;

verus! {

/// Whether the submitted secret matches the expected one. The comparison
/// walks every byte of equal-length inputs; only the length check can end
/// early.
pub fn secrets_match(expected: &Vec<u8>, submitted: &Vec<u8>) -> (r: bool)
    ensures
        r == (expected@ == submitted@),
{
    if expected.len() != submitted.len() {
        proof {
            assert(expected@ != submitted@);
        }
        return false;
    }
    proof {
        assert(forall|x: u8, y: u8| ((x ^ y) == 0) == (x == y)) by (bit_vector);
        assert(forall|x: u8, y: u8| ((x | y) == 0) == (x == 0 && y == 0)) by (bit_vector);
    }
    let mut diff: u8 = 0;
    let mut i: usize = 0;
    while i < expected.len()
        invariant
            i <= expected@.len(),
            expected@.len() == submitted@.len(),
            (diff == 0) == (forall|j: int| 0 <= j < i ==> expected@[j] == submitted@[j]),
            forall|x: u8, y: u8| ((x ^ y) == 0) == (x == y),
            forall|x: u8, y: u8| ((x | y) == 0) == (x == 0 && y == 0),
        decreases expected@.len() - i,
    {
        diff = diff | (expected[i] ^ submitted[i]);
        i += 1;
    }
    if diff == 0 {
        proof {
            assert(expected@ =~= submitted@);
        }
        true
    } else {
        false
    }
}

} // verus!
