//! The bit layout: how an identifier is cut into three vocabulary indices.
//!
//! The first index is the top twelve bits of the identifier, the second the
//! twelve bits below them, and the third the low eight bits. Together the
//! three fields cover all 32 bits, so the cut loses nothing.

use vstd::prelude::*;

verus! {

/// Number of words in a vocabulary, and the exclusive bound of the first two
/// fragments.
pub const VOCABULARY_SIZE: usize = 4096;

/// Exclusive bound of the third fragment: only the first 256 words of the
/// vocabulary ever stand in the last place of an encoded triple.
pub const LAST_FRAGMENT_SIZE: usize = 256;

/// Bits 20 to 31 of `n`: the index of the first word.
pub open spec fn fragment_a(n: u32) -> u32 {
    (n >> 20) & 0xFFF
}

/// Bits 8 to 19 of `n`: the index of the second word.
pub open spec fn fragment_b(n: u32) -> u32 {
    (n >> 8) & 0xFFF
}

/// Bits 0 to 7 of `n`: the index of the third word.
pub open spec fn fragment_c(n: u32) -> u32 {
    n & 0xFF
}

/// The identifier put together from three indices.
pub open spec fn assembled(a: u32, b: u32, c: u32) -> u32 {
    (a << 20) | (b << 8) | c
}

/// The first two fragments stay below 4096 and the third below 256.
pub proof fn lemma_fragment_bounds(n: u32)
    ensures
        fragment_a(n) < VOCABULARY_SIZE,
        fragment_b(n) < VOCABULARY_SIZE,
        fragment_c(n) < LAST_FRAGMENT_SIZE,
{
    assert(((n >> 20) & 0xFFF) < 4096) by (bit_vector);
    assert(((n >> 8) & 0xFFF) < 4096) by (bit_vector);
    assert((n & 0xFF) < 256) by (bit_vector);
}

/// The fragments in plain arithmetic: quotients and remainders of `n`.
pub proof fn lemma_fragments_arithmetic(n: u32)
    ensures
        fragment_a(n) == n / 0x10_0000,
        fragment_b(n) == (n / 0x100) % 0x1000,
        fragment_c(n) == n % 0x100,
{
    assert(((n >> 20) & 0xFFF) == n / 0x10_0000) by (bit_vector);
    assert(((n >> 8) & 0xFFF) == (n / 0x100) % 0x1000) by (bit_vector);
    assert((n & 0xFF) == n % 0x100) by (bit_vector);
}

/// Putting the fragments of an identifier together gives the identifier
/// back, whatever its value: no bit is lost in the cut.
pub proof fn lemma_assembled_fragments(n: u32)
    ensures
        assembled(fragment_a(n), fragment_b(n), fragment_c(n)) == n,
{
    assert(((((n >> 20) & 0xFFF) << 20) | (((n >> 8) & 0xFFF) << 8) | (n & 0xFF)) == n)
        by (bit_vector);
}

/// Indices within the fragment bounds come back unchanged when the
/// identifier assembled from them is cut again.
pub proof fn lemma_fragments_assembled(a: u32, b: u32, c: u32)
    requires
        a < VOCABULARY_SIZE,
        b < VOCABULARY_SIZE,
        c < LAST_FRAGMENT_SIZE,
    ensures
        fragment_a(assembled(a, b, c)) == a,
        fragment_b(assembled(a, b, c)) == b,
        fragment_c(assembled(a, b, c)) == c,
{
    assert(a < 4096 && b < 4096 && c < 256 ==> (((((a << 20) | (b << 8) | c) >> 20) & 0xFFF) == a
        && ((((a << 20) | (b << 8) | c) >> 8) & 0xFFF) == b && (((a << 20) | (b << 8) | c) & 0xFF)
        == c)) by (bit_vector);
}

/// Adding a multiple of 2^28 to an identifier moves its first fragment by
/// that multiple of 256 and leaves the other two fragments as they are: the
/// four highest bits are part of the first fragment.
pub proof fn lemma_high_bits(n: u32, k: int)
    requires
        0 <= n + 0x1000_0000 * k <= u32::MAX,
    ensures
        fragment_a((n + 0x1000_0000 * k) as u32) == fragment_a(n) + 256 * k,
        fragment_b((n + 0x1000_0000 * k) as u32) == fragment_b(n),
        fragment_c((n + 0x1000_0000 * k) as u32) == fragment_c(n),
{
    let m = (n + 0x1000_0000 * k) as u32;
    lemma_fragments_arithmetic(n);
    lemma_fragments_arithmetic(m);
    assert(m / 0x10_0000 == n / 0x10_0000 + 256 * k) by (nonlinear_arith)
        requires
            m == n + 0x1000_0000 * k,
    ;
    assert((m / 0x100) % 0x1000 == (n / 0x100) % 0x1000) by (nonlinear_arith)
        requires
            m == n + 0x1000_0000 * k,
    ;
    assert(m % 0x100 == n % 0x100) by (nonlinear_arith)
        requires
            m == n + 0x1000_0000 * k,
    ;
}

/// Cuts `n` into its three fragments.
pub fn fragments(n: u32) -> (r: (u32, u32, u32))
    ensures
        r.0 == fragment_a(n),
        r.1 == fragment_b(n),
        r.2 == fragment_c(n),
        r.0 < VOCABULARY_SIZE,
        r.1 < VOCABULARY_SIZE,
        r.2 < LAST_FRAGMENT_SIZE,
{
    proof {
        lemma_fragment_bounds(n);
    }
    ((n >> 20) & 0xFFF, (n >> 8) & 0xFFF, n & 0xFF)
}

/// Puts three indices together into an identifier. Indices within the
/// fragment bounds occupy separate bits; larger ones overlap their
/// neighbours or lose their high bits.
pub fn assemble(a: u32, b: u32, c: u32) -> (n: u32)
    ensures
        n == assembled(a, b, c),
{
    (a << 20) | (b << 8) | c
}

} // verus!
