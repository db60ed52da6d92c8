//! The 64-bit digest that names stored blobs: a byte-fold over the
//! requested path, the uploaded data and a fresh random salt, rendered in
//! hexadecimal by the caller. The fold itself is verified; only the salt
//! draw is trusted.
use vstd::prelude::*;

verus! {

pub const FOLD_BASIS: u64 = 0xcbf29ce484222325;

pub const FOLD_PRIME: u64 = 0x100000001b3;

/// One step of the digest fold: mix a byte in, multiply modulo 2^64.
pub open spec fn fold_step(h: u64, b: u8) -> u64 {
    ((((h ^ (b as u64)) as int) * (FOLD_PRIME as int)) % 0x10000000000000000) as u64
}

/// The digest fold of a whole byte sequence, left to right, from `h`.
pub open spec fn fold_bytes(h: u64, s: Seq<u8>) -> u64
    decreases s.len(),
{
    if s.len() == 0 {
        h
    } else {
        fold_step(fold_bytes(h, s.drop_last()), s.last())
    }
}

/// The eight big-endian bytes of a 64-bit value.
pub open spec fn be_bytes(n: u64) -> Seq<u8> {
    seq![
        ((n >> 56) & 0xff) as u8,
        ((n >> 48) & 0xff) as u8,
        ((n >> 40) & 0xff) as u8,
        ((n >> 32) & 0xff) as u8,
        ((n >> 24) & 0xff) as u8,
        ((n >> 16) & 0xff) as u8,
        ((n >> 8) & 0xff) as u8,
        (n & 0xff) as u8,
    ]
}

/// The digest that names a blob: the fold over the path bytes, then the
/// data bytes, then the salt's big-endian bytes.
pub open spec fn digest(path: Seq<u8>, data: Seq<u8>, salt: u64) -> u64 {
    fold_bytes(fold_bytes(fold_bytes(FOLD_BASIS, path), data), be_bytes(salt))
}

fn low_byte(x: u64) -> (r: u8)
    ensures
        r == (x & 0xff) as u8,
{
    assert((x & 0xff) < 256) by (bit_vector);
    (x & 0xff) as u8
}

fn fold_slice(h0: u64, s: &[u8]) -> (r: u64)
    ensures
        r == fold_bytes(h0, s@),
{
    let mut h = h0;
    let mut i: usize = 0;
    while i < s.len()
        invariant
            i <= s@.len(),
            h == fold_bytes(h0, s@.take(i as int)),
        decreases s@.len() - i,
    {
        let mixed = h ^ (s[i] as u64);
        h = mixed.wrapping_mul(FOLD_PRIME);
        i = i + 1;
        assert(s@.take(i as int).drop_last() =~= s@.take(i - 1));
    }
    assert(s@.take(s@.len() as int) =~= s@);
    h
}

/// Computes the digest of a path, a data block and a salt.
pub fn digest_of(path: &[u8], data: &[u8], salt: u64) -> (r: u64)
    ensures
        r == digest(path@, data@, salt),
{
    let h = fold_slice(FOLD_BASIS, path);
    let h = fold_slice(h, data);
    let mut tail: Vec<u8> = Vec::new();
    tail.push(low_byte(salt >> 56));
    tail.push(low_byte(salt >> 48));
    tail.push(low_byte(salt >> 40));
    tail.push(low_byte(salt >> 32));
    tail.push(low_byte(salt >> 24));
    tail.push(low_byte(salt >> 16));
    tail.push(low_byte(salt >> 8));
    tail.push(low_byte(salt));
    assert(tail@ =~= be_bytes(salt));
    fold_slice(h, tail.as_slice())
}

/// Relies on `rand::random`: draws a fresh value from the thread-local
/// generator. Nothing is assumed of the value drawn.
#[verifier::external_body]
pub(crate) fn fresh_salt() -> u64 {
    rand::random::<u64>()
}

} // verus!
