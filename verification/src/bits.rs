//! Facts about single bits of the 16-bit rows that boards and shapes use.
use vstd::prelude::*;

verus! {

/// Bit `c` of `row` is set.
pub open spec fn has_bit(row: u16, c: int) -> bool {
    row & (1u16 << (c as u16)) != 0
}

/// Setting bit `k` leaves every other bit as it was.
pub proof fn lemma_bit_or_single(a: u16, k: u16, c: u16)
    requires
        k < 16,
        c < 16,
    ensures
        has_bit(a | (1u16 << k), c as int) == (c == k || has_bit(a, c as int)),
{
    assert(((a | (1u16 << k)) & (1u16 << c) != 0) == (c == k || (a & (1u16 << c) != 0)))
        by (bit_vector)
        requires
            k < 16,
            c < 16,
    ;
}

/// Clearing bit `k` leaves every other bit as it was.
pub proof fn lemma_bit_clear_single(a: u16, k: u16, c: u16)
    requires
        k < 16,
        c < 16,
    ensures
        has_bit(a & !(1u16 << k), c as int) == (c != k && has_bit(a, c as int)),
{
    assert(((a & !(1u16 << k)) & (1u16 << c) != 0) == (c != k && (a & (1u16 << c) != 0)))
        by (bit_vector)
        requires
            k < 16,
            c < 16,
    ;
}

/// Setting a bit that is set, or clearing one that is clear, changes nothing.
pub proof fn lemma_bit_noop(a: u16, k: u16)
    requires
        k < 16,
    ensures
        has_bit(a, k as int) ==> a | (1u16 << k) == a,
        !has_bit(a, k as int) ==> a & !(1u16 << k) == a,
{
    assert((a & (1u16 << k) != 0) ==> a | (1u16 << k) == a) by (bit_vector)
        requires
            k < 16,
    ;
    assert((a & (1u16 << k) == 0) ==> a & !(1u16 << k) == a) by (bit_vector)
        requires
            k < 16,
    ;
}

/// A bit of an `|` is set when it is set in either operand.
pub proof fn lemma_bit_or(a: u16, b: u16, c: u16)
    requires
        c < 16,
    ensures
        has_bit(a | b, c as int) == (has_bit(a, c as int) || has_bit(b, c as int)),
{
    assert(((a | b) & (1u16 << c) != 0) == ((a & (1u16 << c) != 0) || (b & (1u16 << c) != 0)))
        by (bit_vector)
        requires
            c < 16,
    ;
}

/// A bit of an `&` is set when it is set in both operands.
pub proof fn lemma_bit_and(a: u16, b: u16, c: u16)
    requires
        c < 16,
    ensures
        has_bit(a & b, c as int) == (has_bit(a, c as int) && has_bit(b, c as int)),
{
    assert(((a & b) & (1u16 << c) != 0) == ((a & (1u16 << c) != 0) && (b & (1u16 << c) != 0)))
        by (bit_vector)
        requires
            c < 16,
    ;
}

/// Two rows are equal when all their bits are.
pub proof fn lemma_bits_equal(a: u16, b: u16)
    requires
        forall|c: int| 0 <= c < 16 ==> has_bit(a, c) == has_bit(b, c),
    ensures
        a == b,
{
    assert(has_bit(a, 0) == has_bit(b, 0));
    assert(has_bit(a, 1) == has_bit(b, 1));
    assert(has_bit(a, 2) == has_bit(b, 2));
    assert(has_bit(a, 3) == has_bit(b, 3));
    assert(has_bit(a, 4) == has_bit(b, 4));
    assert(has_bit(a, 5) == has_bit(b, 5));
    assert(has_bit(a, 6) == has_bit(b, 6));
    assert(has_bit(a, 7) == has_bit(b, 7));
    assert(has_bit(a, 8) == has_bit(b, 8));
    assert(has_bit(a, 9) == has_bit(b, 9));
    assert(has_bit(a, 10) == has_bit(b, 10));
    assert(has_bit(a, 11) == has_bit(b, 11));
    assert(has_bit(a, 12) == has_bit(b, 12));
    assert(has_bit(a, 13) == has_bit(b, 13));
    assert(has_bit(a, 14) == has_bit(b, 14));
    assert(has_bit(a, 15) == has_bit(b, 15));
    assert(a == b) by (bit_vector)
        requires
            (a & (1u16 << 0u16) != 0) == (b & (1u16 << 0u16) != 0),
            (a & (1u16 << 1u16) != 0) == (b & (1u16 << 1u16) != 0),
            (a & (1u16 << 2u16) != 0) == (b & (1u16 << 2u16) != 0),
            (a & (1u16 << 3u16) != 0) == (b & (1u16 << 3u16) != 0),
            (a & (1u16 << 4u16) != 0) == (b & (1u16 << 4u16) != 0),
            (a & (1u16 << 5u16) != 0) == (b & (1u16 << 5u16) != 0),
            (a & (1u16 << 6u16) != 0) == (b & (1u16 << 6u16) != 0),
            (a & (1u16 << 7u16) != 0) == (b & (1u16 << 7u16) != 0),
            (a & (1u16 << 8u16) != 0) == (b & (1u16 << 8u16) != 0),
            (a & (1u16 << 9u16) != 0) == (b & (1u16 << 9u16) != 0),
            (a & (1u16 << 10u16) != 0) == (b & (1u16 << 10u16) != 0),
            (a & (1u16 << 11u16) != 0) == (b & (1u16 << 11u16) != 0),
            (a & (1u16 << 12u16) != 0) == (b & (1u16 << 12u16) != 0),
            (a & (1u16 << 13u16) != 0) == (b & (1u16 << 13u16) != 0),
            (a & (1u16 << 14u16) != 0) == (b & (1u16 << 14u16) != 0),
            (a & (1u16 << 15u16) != 0) == (b & (1u16 << 15u16) != 0),
    ;
}

/// The zero row has no bit set.
pub proof fn lemma_zero_has_no_bit(c: u16)
    requires
        c < 16,
    ensures
        !has_bit(0u16, c as int),
{
    assert((0u16 & (1u16 << c)) == 0) by (bit_vector);
}

} // verus!
