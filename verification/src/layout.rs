//! The fixed table of sixteen bit-packing layouts.
//!
//! A layout, named by a 4-bit selector, divides the low 28 bits of a word
//! into consecutive slots.  `slot_count` gives the number of slots,
//! `slot_width` the bit width of each slot, and `slot_offset` the position
//! of a slot's least significant bit.  The table is ordered by strictly
//! non-increasing slot count: selector 0 packs twenty-eight one-bit values,
//! selector 15 a single 28-bit value.  Every layout uses the 28 bits in
//! full, which `lemma_layout` records.

use vstd::prelude::*;

verus! {

/// How many value slots the layout named by `sel` has.
pub open spec fn slot_count(sel: int) -> int {
    if sel == 0 {
        28
    } else if sel <= 3 {
        21
    } else if sel == 4 {
        14
    } else if sel == 5 {
        9
    } else if sel == 6 {
        8
    } else if sel == 7 {
        7
    } else if sel <= 9 {
        6
    } else if sel <= 11 {
        5
    } else if sel == 12 {
        4
    } else if sel == 13 {
        3
    } else if sel == 14 {
        2
    } else {
        1
    }
}

/// The bit width of slot `j` in the layout named by `sel`.
pub open spec fn slot_width(sel: int, j: int) -> int {
    if sel == 0 {
        1
    } else if sel == 1 {
        if j < 7 { 2 } else { 1 }
    } else if sel == 2 {
        if j < 7 { 1 } else if j < 14 { 2 } else { 1 }
    } else if sel == 3 {
        if j < 14 { 1 } else { 2 }
    } else if sel == 4 {
        2
    } else if sel == 5 {
        if j == 0 { 4 } else { 3 }
    } else if sel == 6 {
        if j == 0 { 3 } else if j < 5 { 4 } else { 3 }
    } else if sel == 7 {
        4
    } else if sel == 8 {
        if j < 4 { 5 } else { 4 }
    } else if sel == 9 {
        if j < 2 { 4 } else { 5 }
    } else if sel == 10 {
        if j < 3 { 6 } else { 5 }
    } else if sel == 11 {
        if j < 2 { 5 } else { 6 }
    } else if sel == 12 {
        7
    } else if sel == 13 {
        if j == 0 { 10 } else { 9 }
    } else if sel == 14 {
        14
    } else {
        28
    }
}

/// The bit position at which slot `j` starts: the sum of the widths of the
/// slots before it.
pub open spec fn slot_offset(sel: int, j: int) -> int {
    if sel == 0 {
        j
    } else if sel == 1 {
        if j < 7 { 2 * j } else { j + 7 }
    } else if sel == 2 {
        if j < 7 { j } else if j < 14 { 2 * j - 7 } else { j + 7 }
    } else if sel == 3 {
        if j < 14 { j } else { 2 * j - 14 }
    } else if sel == 4 {
        2 * j
    } else if sel == 5 {
        if j == 0 { 0 } else { 3 * j + 1 }
    } else if sel == 6 {
        if j == 0 { 0 } else if j < 5 { 4 * j - 1 } else { 3 * j + 4 }
    } else if sel == 7 {
        4 * j
    } else if sel == 8 {
        if j < 4 { 5 * j } else { 4 * j + 4 }
    } else if sel == 9 {
        if j < 2 { 4 * j } else { 5 * j - 2 }
    } else if sel == 10 {
        if j < 3 { 6 * j } else { 5 * j + 3 }
    } else if sel == 11 {
        if j < 2 { 5 * j } else { 6 * j - 2 }
    } else if sel == 12 {
        7 * j
    } else if sel == 13 {
        if j == 0 { 0 } else if j == 1 { 10 } else { 9 * j + 1 }
    } else if sel == 14 {
        14 * j
    } else {
        28 * j
    }
}

/// The shape every layout has: each slot is at least one bit wide, slots
/// are consecutive, and all `slot_count` slots together fill the 28 bits
/// below the selector field exactly.
pub proof fn lemma_layout(sel: int, j: int)
    requires
        0 <= sel < 16,
        0 <= j < slot_count(sel),
    ensures
        1 <= slot_count(sel) <= 28,
        1 <= slot_width(sel, j),
        slot_offset(sel, 0) == 0,
        0 <= slot_offset(sel, j),
        slot_offset(sel, j + 1) == slot_offset(sel, j) + slot_width(sel, j),
        slot_offset(sel, j) + slot_width(sel, j) <= 28,
        slot_offset(sel, slot_count(sel)) == 28,
{
}

/// Slot offsets grow with the slot index.
pub proof fn lemma_offset_mono(sel: int, j: int, k: int)
    requires
        0 <= sel < 16,
        0 <= j <= k <= slot_count(sel),
    ensures
        slot_offset(sel, j) <= slot_offset(sel, k),
{
}

/// Slot count of the layout named by `sel`, as executable code.
pub(crate) fn case_count(sel: u32) -> (c: usize)
    requires
        sel < 16,
    ensures
        c == slot_count(sel as int),
{
    if sel == 0 {
        28
    } else if sel <= 3 {
        21
    } else if sel == 4 {
        14
    } else if sel == 5 {
        9
    } else if sel == 6 {
        8
    } else if sel == 7 {
        7
    } else if sel <= 9 {
        6
    } else if sel <= 11 {
        5
    } else if sel == 12 {
        4
    } else if sel == 13 {
        3
    } else if sel == 14 {
        2
    } else {
        1
    }
}

/// Bit width of slot `j` in the layout named by `sel`, as executable code.
pub(crate) fn case_width(sel: u32, j: usize) -> (w: u32)
    requires
        sel < 16,
        j < slot_count(sel as int),
    ensures
        w == slot_width(sel as int, j as int),
{
    if sel == 0 {
        1
    } else if sel == 1 {
        if j < 7 { 2 } else { 1 }
    } else if sel == 2 {
        if j < 7 { 1 } else if j < 14 { 2 } else { 1 }
    } else if sel == 3 {
        if j < 14 { 1 } else { 2 }
    } else if sel == 4 {
        2
    } else if sel == 5 {
        if j == 0 { 4 } else { 3 }
    } else if sel == 6 {
        if j == 0 { 3 } else if j < 5 { 4 } else { 3 }
    } else if sel == 7 {
        4
    } else if sel == 8 {
        if j < 4 { 5 } else { 4 }
    } else if sel == 9 {
        if j < 2 { 4 } else { 5 }
    } else if sel == 10 {
        if j < 3 { 6 } else { 5 }
    } else if sel == 11 {
        if j < 2 { 5 } else { 6 }
    } else if sel == 12 {
        7
    } else if sel == 13 {
        if j == 0 { 10 } else { 9 }
    } else if sel == 14 {
        14
    } else {
        28
    }
}

} // verus!
