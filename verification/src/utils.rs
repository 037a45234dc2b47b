//! Byte-slice shaping and token-identity ordering helpers.

use vstd::prelude::*;

verus! {

/// Copies a 32-byte slice into an owned array.
pub fn set_size_32(primitive: &[u8]) -> (r: [u8; 32])
    requires
        primitive@.len() == 32,
    ensures
        r@ == primitive@,
{
    let mut out = [0u8; 32];
    for i in 0..32
        invariant
            primitive@.len() == 32,
            forall|j: int| 0 <= j < i ==> out@[j] == primitive@[j],
    {
        out[i] = primitive[i];
    }
    proof {
        assert(out@ =~= primitive@);
    }
    out
}

/// Copies a 4-byte slice into an owned array.
pub fn set_size_4(primitive: &[u8]) -> (r: [u8; 4])
    requires
        primitive@.len() == 4,
    ensures
        r@ == primitive@,
{
    let mut out = [0u8; 4];
    for i in 0..4
        invariant
            primitive@.len() == 4,
            forall|j: int| 0 <= j < i ==> out@[j] == primitive@[j],
    {
        out[i] = primitive[i];
    }
    proof {
        assert(out@ =~= primitive@);
    }
    out
}

/// Copies a 64-byte slice into an owned array.
pub fn set_size_64(primitive: &[u8]) -> (r: [u8; 64])
    requires
        primitive@.len() == 64,
    ensures
        r@ == primitive@,
{
    let mut out = [0u8; 64];
    for i in 0..64
        invariant
            primitive@.len() == 64,
            forall|j: int| 0 <= j < i ==> out@[j] == primitive@[j],
    {
        out[i] = primitive[i];
    }
    proof {
        assert(out@ =~= primitive@);
    }
    out
}

/// Lexicographic order on 32-byte token identities: true when the first
/// differing byte of `token0` is smaller, false on equal identities.
pub open spec fn token_lt(a: Seq<u8>, b: Seq<u8>, i: int) -> bool
    decreases 32 - i,
{
    if i >= 32 {
        false
    } else if a[i] != b[i] {
        a[i] < b[i]
    } else {
        token_lt(a, b, i + 1)
    }
}

/// Whether the two token identities come in canonical order.
pub fn is_token_sorted(token0: &[u8; 32], token1: &[u8; 32]) -> (r: bool)
    ensures
        r == token_lt(token0@, token1@, 0),
{
    let mut i: usize = 0;
    while i < 32
        invariant
            0 <= i <= 32,
            token_lt(token0@, token1@, 0) == token_lt(token0@, token1@, i as int),
        decreases 32 - i,
    {
        if token0[i] != token1[i] {
            return token0[i] < token1[i];
        }
        i = i + 1;
    }
    false
}

/// The two tokens in canonical order.
pub fn sort_tokens(token0: [u8; 32], token1: [u8; 32]) -> (r: ([u8; 32], [u8; 32]))
    ensures
        token_lt(token0@, token1@, 0) ==> r == (token0, token1),
        !token_lt(token0@, token1@, 0) ==> r == (token1, token0),
{
    if is_token_sorted(&token0, &token1) {
        (token0, token1)
    } else {
        (token1, token0)
    }
}

} // verus!
