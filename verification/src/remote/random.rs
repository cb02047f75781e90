//! Chance: codes, tokens and ids that nobody can foresee.
use vstd::bytes::*;
use vstd::prelude::*;

use crate::remote::pairing::generate_code;
use crate::text::all_digits;

verus! {

/// `getrandom::fill`, on a buffer of `n` bytes: the bytes come from the system's source of
/// randomness, so nothing is said of them but how many they are. `None` when the source fails.
#[verifier::external_body]
pub(crate) fn random_bytes(n: usize) -> (r: Option<Vec<u8>>)
    ensures
        r is Some ==> r->0@.len() == n,
{
    let mut buf = vec![0u8; n];
    match getrandom::fill(&mut buf) {
        Ok(()) => Some(buf),
        Err(_) => None,
    }
}

/// A random number; `None` when the system's source of randomness fails.
pub fn random_u32() -> (r: Option<u32>) {
    match random_bytes(4) {
        Some(b) => Some(u32_from_le_bytes(b.as_slice())),
        None => None,
    }
}

/// The first sixteen of some bytes.
pub fn first_16(b: &Vec<u8>) -> (r: [u8; 16])
    requires
        b@.len() >= 16,
    ensures
        r@ == b@.take(16),
{
    let r = [
        b[0],
        b[1],
        b[2],
        b[3],
        b[4],
        b[5],
        b[6],
        b[7],
        b[8],
        b[9],
        b[10],
        b[11],
        b[12],
        b[13],
        b[14],
        b[15],
    ];
    assert(r@ =~= b@.take(16));
    r
}

/// Sixteen random bytes; `None` when the system's source of randomness fails.
pub fn random_bytes_16() -> (r: Option<[u8; 16]>) {
    match random_bytes(16) {
        Some(b) => Some(first_16(&b)),
        None => None,
    }
}

/// A pairing code that nobody can foresee; `None` when the system's source of randomness fails.
pub fn random_code() -> (r: Option<String>)
    ensures
        r is Some ==> r->0@.len() == 6 && all_digits(r->0@),
{
    match random_u32() {
        Some(n) => Some(generate_code(n)),
        None => None,
    }
}

} // verus!
