//! Bitboards: a `u64` whose bit `i` stands for the square with index `i`.
use vstd::prelude::*;
use vstd::std_specs::bits::{u64_trailing_zeros, axiom_u64_trailing_zeros};

verus! {

/// The square with index `i` is in the bitboard `b`.
pub open spec fn has_bit(b: u64, i: u64) -> bool {
    i < 64 && (b >> i) & 1u64 == 1u64
}

/// The bitboard holding only the square with index `sq`.
pub open spec fn square_bit(sq: u64) -> u64 {
    1u64 << sq
}

/// The lowest square of a bitboard (64 for the empty bitboard).
pub open spec fn lowest_square(b: u64) -> u64 {
    u64_trailing_zeros(b) as u64
}

/// The number of squares with index below `n` in `b`.
pub open spec fn bit_count(b: u64, n: nat) -> nat
    decreases n,
{
    if n == 0 {
        0
    } else {
        bit_count(b, (n - 1) as nat) + if has_bit(b, (n - 1) as u64) {
            1nat
        } else {
            0nat
        }
    }
}

/// The number of squares in `b`.
pub open spec fn popcount(b: u64) -> nat {
    bit_count(b, 64)
}

pub proof fn lemma_bit_or(a: u64, d: u64, i: u64)
    requires
        d < 64,
        i < 64,
    ensures
        has_bit(a | square_bit(d), i) <==> (has_bit(a, i) || i == d),
{
    assert(((a | (1u64 << d)) >> i) & 1u64 == 1u64 <==> ((a >> i) & 1u64 == 1u64 || i == d))
        by (bit_vector)
        requires
            d < 64,
            i < 64,
    ;
}

pub proof fn lemma_bit_xor(a: u64, d: u64, i: u64)
    requires
        d < 64,
        i < 64,
    ensures
        has_bit(a ^ square_bit(d), i) <==> (if i == d {
            !has_bit(a, i)
        } else {
            has_bit(a, i)
        }),
{
    assert(((a ^ (1u64 << d)) >> i) & 1u64 == 1u64 <==> (if i == d {
        (a >> i) & 1u64 != 1u64
    } else {
        (a >> i) & 1u64 == 1u64
    })) by (bit_vector)
        requires
            d < 64,
            i < 64,
    ;
}

pub proof fn lemma_bit_and(a: u64, b: u64, i: u64)
    ensures
        has_bit(a & b, i) <==> (has_bit(a, i) && has_bit(b, i)),
{
    assert(((a & b) >> i) & 1u64 == 1u64 <==> ((a >> i) & 1u64 == 1u64 && (b >> i) & 1u64
        == 1u64)) by (bit_vector);
}

pub proof fn lemma_square_bit(d: u64, i: u64)
    requires
        d < 64,
    ensures
        has_bit(square_bit(d), i) <==> i == d,
{
    assert(i < 64 && ((1u64 << d) >> i) & 1u64 == 1u64 <==> i == d) by (bit_vector)
        requires
            d < 64,
    ;
}

/// The empty bitboard is the one without squares, and a non-empty one holds
/// its lowest square.
pub proof fn lemma_empty_iff_no_bits(a: u64)
    ensures
        a == 0 <==> (forall|i: u64| !#[trigger] has_bit(a, i)),
        a != 0 ==> lowest_square(a) < 64 && has_bit(a, lowest_square(a)),
{
    axiom_u64_trailing_zeros(a);
    assert forall|i: u64| a == 0 implies !#[trigger] has_bit(a, i) by {
        assert(a == 0 ==> (a >> i) & 1u64 == 0u64) by (bit_vector);
    }
    if a != 0 {
        assert(has_bit(a, lowest_square(a)));
    }
}

/// The squares below `n` number at most `n`.
pub proof fn lemma_bit_count_bound(b: u64, n: nat)
    ensures
        bit_count(b, n) <= n,
    decreases n,
{
    if n > 0 {
        lemma_bit_count_bound(b, (n - 1) as nat);
    }
}

} // verus!
