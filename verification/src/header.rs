//! The page header: one byte of flags and the number of cells.

use vstd::prelude::*;
use crate::codec::{lemma_u32_round_trip, load_u32, store_u32, u32_at, with_u32};
use crate::laws::{lemma_same_records, lemma_well_formed_layout};
use crate::layout::{FLAGS_OFFSET, NUM_OF_CELLS_OFFSET, PAGE_SIZE};
use crate::model::{records, well_formed};

verus! {

/// The flags byte of a page.
pub open spec fn page_flags(bytes: Seq<u8>) -> u8 {
    bytes[FLAGS_OFFSET as int]
}

/// The number of cells that the header of a page declares.
pub open spec fn cell_count(bytes: Seq<u8>) -> u32 {
    u32_at(bytes, NUM_OF_CELLS_OFFSET as int)
}

/// Returns the flags byte of the page.
pub fn get_flags(page: &[u8; PAGE_SIZE]) -> (flags: u8)
    ensures
        flags == page_flags(page@),
{
    page[FLAGS_OFFSET]
}

/// Sets the flags byte of the page and leaves every other byte as it was. A
/// well-formed page stays well formed and keeps its records.
pub fn set_flags(page: &mut [u8; PAGE_SIZE], flags: u8)
    ensures
        final(page)@ == old(page)@.update(FLAGS_OFFSET as int, flags),
        page_flags(final(page)@) == flags,
        cell_count(final(page)@) == cell_count(old(page)@),
        well_formed(old(page)@) ==> well_formed(final(page)@) && records(final(page)@) == records(
            old(page)@,
        ),
{
    page[FLAGS_OFFSET] = flags;
    proof {
        if well_formed(old(page)@) {
            lemma_well_formed_layout(old(page)@);
            lemma_same_records(old(page)@, page@);
        }
    }
}

/// Returns the number of cells that the header declares.
pub fn _get_num_of_cells(page: [u8; PAGE_SIZE]) -> (count: u32)
    ensures
        count == cell_count(page@),
{
    load_u32(&page, NUM_OF_CELLS_OFFSET)
}

/// Sets the number of cells in the header and leaves every byte outside
/// that field as it was.
pub fn _set_num_of_cells(page: &mut [u8; PAGE_SIZE], num: u32)
    ensures
        final(page)@ == with_u32(old(page)@, NUM_OF_CELLS_OFFSET as int, num),
        cell_count(final(page)@) == num,
        page_flags(final(page)@) == page_flags(old(page)@),
{
    store_u32(page, NUM_OF_CELLS_OFFSET, num);
    proof {
        lemma_u32_round_trip(old(page)@, NUM_OF_CELLS_OFFSET as int, num);
    }
}

} // verus!
