//! Cell values: 2-bit masks over the two occupancy layers.
//!
//! A cell value is one of Empty(0), L0-only(1), L1-only(2), Both/Blocked(3).
//! This module gives the bit-level facts the rest of the crate needs:
//! counting set layer bits, and the algebra of disjoint OR and exact
//! bit clearing that placement and its inverse rely on.

use vstd::prelude::*;

verus! {

/// A cell value is valid when it uses only the two layer bits.
pub open spec fn cell_ok(x: u8) -> bool {
    x < 4
}

/// Number of layer bits set in a cell value (0, 1, or 2).
pub open spec fn count_bits(x: u8) -> int {
    ((x & 1) + ((x >> 1) & 1)) as int
}

/// The view of a row matrix as a sequence of sequences of cell values.
pub open spec fn rows_view(v: Vec<Vec<u8>>) -> Seq<Seq<u8>> {
    Seq::new(v@.len(), |i: int| v@[i]@)
}

/// ORing a disjoint mask into a valid cell keeps it valid, makes the
/// mask's bits present, and clearing exactly those bits afterwards
/// restores the original value.
pub proof fn lemma_or_disjoint(x: u8, y: u8)
    by (bit_vector)
    requires
        x < 4,
        y < 4,
        x & y == 0,
    ensures
        (x | y) < 4,
        (x | y) & y == y,
        (x | y) & (y ^ 3) == x,
{
}

/// A valid cell with both layer bits set is exactly Blocked(3).
pub proof fn lemma_both_bits_full(x: u8)
    by (bit_vector)
    requires
        x < 4,
        x & 1 != 0,
        x & 2 != 0,
    ensures
        x == 3,
{
}

/// Only the empty mask is disjoint from a fully blocked cell.
pub proof fn lemma_disjoint_from_blocked(x: u8)
    by (bit_vector)
    requires
        x < 4,
        3u8 & x == 0,
    ensures
        x == 0,
        3u8 | x == 3,
{
}

/// Counts the set layer bits of a cell value.
pub fn hamming_weight(x: u8) -> (r: i32)
    requires
        cell_ok(x),
    ensures
        r == count_bits(x),
        0 <= r <= 2,
{
    proof {
        assert((x & 1) < 2 && (x >> 1) < 2 && (x >> 1) == ((x >> 1) & 1)) by (bit_vector)
            requires
                x < 4,
        ;
    }
    ((x & 1) + (x >> 1)) as i32
}

} // verus!
