//! The multi-hop swap path encoding: 32-byte token identities
//! interleaved with 4-byte little-endian fee words.

use vstd::prelude::*;

use crate::utils::{set_size_32, set_size_4};

verus! {

/// Bytes of one token identity.
pub const ADDR_SIZE: usize = 32;

/// Bytes of one fee word.
pub const FEE_SIZE: usize = 4;

/// Offset from one token to the next: a token and a fee.
pub const NEXT_OFFSET: usize = 36;

/// Bytes of one encoded pool key: two tokens and a fee.
pub const POP_OFFSET: usize = 68;

/// Minimum length of a path that still has more than one pool.
pub const MULTIPLE_POOLS_MIN_LENGTH: usize = 104;

/// Whether the path holds at least two hops.
pub fn has_multiple_pools(path: &[u8]) -> (r: bool)
    ensures
        r == (path@.len() >= 104),
{
    path.len() >= MULTIPLE_POOLS_MIN_LENGTH
}

/// Number of pools encoded in the path.
pub fn num_pools(path: &[u8]) -> (r: usize)
    requires
        path@.len() >= 32,
    ensures
        r == (path@.len() - 32) as int / 36,
{
    (path.len() - ADDR_SIZE) / NEXT_OFFSET
}

/// The little-endian 32-bit value of four bytes.
pub open spec fn le32(b: Seq<u8>) -> int {
    b[0] + b[1] * 0x100 + b[2] * 0x1_0000 + b[3] * 0x100_0000
}

/// The first pool of the path: its two tokens and its fee.
pub fn decode_first_pool(path: &[u8]) -> (r: ([u8; 32], [u8; 32], u32))
    requires
        path@.len() >= 68,
    ensures
        r.0@ == path@.subrange(0, 32),
        r.1@ == path@.subrange(36, 68),
        r.2 == le32(path@.subrange(32, 36)),
{
    let token_a = set_size_32(slice_range(path, 0, 32));
    let fee_bytes = set_size_4(slice_range(path, 32, 36));
    let fee = (fee_bytes[0] as u32) + (fee_bytes[1] as u32) * 0x100 + (fee_bytes[2] as u32)
        * 0x1_0000 + (fee_bytes[3] as u32) * 0x100_0000;
    let token_b = set_size_32(slice_range(path, 36, 68));
    (token_a, token_b, fee)
}

/// The leading pool-key bytes of the path.
pub fn get_first_pool(path: &[u8]) -> (r: Vec<u8>)
    requires
        path@.len() >= 68,
    ensures
        r@ == path@.subrange(0, 68),
{
    slice_to_vec(slice_range(path, 0, 68))
}

/// The path with its first token-and-fee hop removed.
pub fn skip_token(path: &[u8]) -> (r: Vec<u8>)
    requires
        path@.len() >= 36,
    ensures
        r@ == path@.subrange(36, path@.len() as int),
{
    let n = path.len();
    slice_to_vec(slice_range(path, 36, n))
}

/// A subslice by byte range.
fn slice_range(path: &[u8], from: usize, to: usize) -> (r: &[u8])
    requires
        from <= to <= path@.len(),
    ensures
        r@ == path@.subrange(from as int, to as int),
{
    &path[from..to]
}

/// An owned copy of a slice.
fn slice_to_vec(s: &[u8]) -> (r: Vec<u8>)
    ensures
        r@ == s@,
{
    let mut out: Vec<u8> = Vec::new();
    let n = s.len();
    for i in 0..n
        invariant
            n == s@.len(),
            out@.len() == i,
            forall|j: int| 0 <= j < i ==> out@[j] == s@[j],
    {
        out.push(s[i]);
    }
    proof {
        assert(out@ =~= s@);
    }
    out
}

} // verus!
