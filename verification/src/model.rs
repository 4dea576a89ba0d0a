//! What a page holds, read as a sequence of records, and when a page is
//! well formed.

use vstd::prelude::*;
use crate::cells::{
    cell_end, cell_fits, cell_image, cell_key, cell_region_start, cell_size, cell_value,
    free_space, regions_intact,
};
use crate::header::cell_count;
use crate::layout::{blank_bytes, PageError, BYTES_PER_OFFSET, PAGE_SIZE};
use crate::range::overwrite;
use crate::slots::{directory_end, slot_entry, slot_in_page, with_slot};

verus! {

/// A key with its value.
pub struct Record {
    pub key: Seq<u8>,
    pub value: Seq<u8>,
}

/// Whether the slot with the given index lies within the page and points to
/// a cell that lies within the page.
pub open spec fn slot_ok(bytes: Seq<u8>, index: int) -> bool {
    slot_in_page(index) && cell_fits(bytes, slot_entry(bytes, index) as int)
}

/// The key of the cell that the slot with the given index points to.
pub open spec fn slot_key(bytes: Seq<u8>, index: int) -> Seq<u8> {
    cell_key(bytes, slot_entry(bytes, index) as int)
}

/// The value of the cell that the slot with the given index points to.
pub open spec fn slot_value(bytes: Seq<u8>, index: int) -> Seq<u8> {
    cell_value(bytes, slot_entry(bytes, index) as int)
}

/// The records of a page, in the order of its slots.
pub open spec fn records(bytes: Seq<u8>) -> Seq<Record> {
    Seq::new(
        cell_count(bytes) as nat,
        |i: int| Record { key: slot_key(bytes, i), value: slot_value(bytes, i) },
    )
}

/// Where the cell of the slot with the given index has to end: at the end of
/// the page for the first, at the start of the cell before it for the others.
pub open spec fn cell_ceiling(bytes: Seq<u8>, index: int) -> int {
    if index == 0 {
        PAGE_SIZE as int
    } else {
        slot_entry(bytes, index - 1) as int
    }
}

/// Whether the cell of the slot with the given index lies within the page
/// and ends where the cell placed before it starts.
pub open spec fn slot_packed(bytes: Seq<u8>, index: int) -> bool {
    &&& cell_fits(bytes, slot_entry(bytes, index) as int)
    &&& cell_end(bytes, slot_entry(bytes, index) as int) == cell_ceiling(bytes, index)
}

/// A well-formed page: the slot directory ends at or before the cell region,
/// and the cells are packed without a gap from the end of the page down, in
/// the order of their slots.
pub open spec fn well_formed(bytes: Seq<u8>) -> bool {
    &&& bytes.len() == PAGE_SIZE
    &&& directory_end(bytes) <= cell_region_start(bytes)
    &&& forall|i: int| 0 <= i < cell_count(bytes) ==> #[trigger] slot_packed(bytes, i)
}

/// Number of bytes that the records take in a page: for each one its cell
/// and its slot.
pub open spec fn stored_bytes(recs: Seq<Record>) -> int
    decreases recs.len(),
{
    if recs.len() == 0 {
        0
    } else {
        stored_bytes(recs.drop_last()) + cell_size(
            recs.last().key.len() as int,
            recs.last().value.len() as int,
        ) + BYTES_PER_OFFSET
    }
}

/// The value of the first record with the given key, if there is one.
pub open spec fn first_value(recs: Seq<Record>, key: Seq<u8>) -> Option<Seq<u8>>
    decreases recs.len(),
{
    if recs.len() == 0 {
        None
    } else {
        match first_value(recs.drop_last(), key) {
            Some(value) => Some(value),
            None => if recs.last().key == key {
                Some(recs.last().value)
            } else {
                None
            },
        }
    }
}

/// The page that an accepted insert makes of `bytes`: the cell written right
/// below the cell region, and a slot added that points to it.
pub open spec fn inserted(bytes: Seq<u8>, key: Seq<u8>, value: Seq<u8>) -> Seq<u8> {
    let offset = cell_region_start(bytes) - cell_size(key.len() as int, value.len() as int);
    with_slot(overwrite(bytes, offset, cell_image(0, key, value)), offset as u32)
}

/// What an insert does to a page: the error it reports, or the page it
/// leaves.
pub open spec fn insert_outcome(bytes: Seq<u8>, key: Seq<u8>, value: Seq<u8>) -> Result<
    Seq<u8>,
    PageError,
> {
    if key.len() == 0 {
        Err(PageError::EmptyKey)
    } else if !regions_intact(bytes) {
        Err(PageError::MalformedCell)
    } else if free_space(bytes) < cell_size(key.len() as int, value.len() as int)
        + BYTES_PER_OFFSET {
        Err(PageError::CapacityExceeded)
    } else {
        Ok(inserted(bytes, key, value))
    }
}

/// The page that inserting the records one after another into a blank page
/// makes, or the error of the first insert that fails.
pub open spec fn built_from(recs: Seq<Record>) -> Result<Seq<u8>, PageError>
    decreases recs.len(),
{
    if recs.len() == 0 {
        Ok(blank_bytes())
    } else {
        match built_from(recs.drop_last()) {
            Ok(bytes) => insert_outcome(bytes, recs.last().key, recs.last().value),
            Err(e) => Err(e),
        }
    }
}

/// Whether the record with the given index is the first that holds `key`.
pub open spec fn first_at(recs: Seq<Record>, key: Seq<u8>, index: int) -> bool {
    &&& 0 <= index < recs.len()
    &&& recs[index].key == key
    &&& forall|j: int| 0 <= j < index ==> (#[trigger] recs[j]).key != key
}

/// Whether every slot before `upto` is sound and holds another key than
/// `key`.
pub open spec fn scan_passes(bytes: Seq<u8>, key: Seq<u8>, upto: int) -> bool {
    forall|j: int| 0 <= j < upto ==> #[trigger] slot_ok(bytes, j) && slot_key(bytes, j) != key
}

/// Whether the slot with the given index is the first that holds `key`, and
/// every slot before it is sound.
pub open spec fn found_at(bytes: Seq<u8>, key: Seq<u8>, index: int) -> bool {
    &&& 0 <= index < cell_count(bytes)
    &&& scan_passes(bytes, key, index)
    &&& slot_ok(bytes, index)
    &&& slot_key(bytes, index) == key
}

/// Whether the slot with the given index is unsound, and every slot before
/// it is sound and holds another key than `key`.
pub open spec fn broken_at(bytes: Seq<u8>, key: Seq<u8>, index: int) -> bool {
    &&& 0 <= index < cell_count(bytes)
    &&& scan_passes(bytes, key, index)
    &&& !slot_ok(bytes, index)
}

/// What a lookup finds in a page: the value of the first slot that holds the
/// key; `MalformedCell` where an unsound slot comes before any such slot;
/// `KeyNotFound` where every slot is sound and none holds the key.
pub open spec fn lookup_outcome(bytes: Seq<u8>, key: Seq<u8>) -> Result<Seq<u8>, PageError> {
    if exists|i: int| found_at(bytes, key, i) {
        Ok(slot_value(bytes, choose|i: int| found_at(bytes, key, i)))
    } else if exists|i: int| broken_at(bytes, key, i) {
        Err(PageError::MalformedCell)
    } else {
        Err(PageError::KeyNotFound)
    }
}

/// At most one slot is the first that holds a key, so a lookup that finds it
/// there returns its value.
pub proof fn lemma_found(bytes: Seq<u8>, key: Seq<u8>, index: int)
    requires
        found_at(bytes, key, index),
    ensures
        lookup_outcome(bytes, key) == Ok::<Seq<u8>, PageError>(slot_value(bytes, index)),
{
    let chosen = choose|i: int| found_at(bytes, key, i);
    if chosen < index {
        assert(slot_ok(bytes, chosen) && slot_key(bytes, chosen) != key);
    } else if index < chosen {
        assert(slot_ok(bytes, index) && slot_key(bytes, index) != key);
    }
}

/// A lookup that meets an unsound slot before any slot with the key reports
/// `MalformedCell`.
pub proof fn lemma_broken(bytes: Seq<u8>, key: Seq<u8>, index: int)
    requires
        broken_at(bytes, key, index),
    ensures
        lookup_outcome(bytes, key) == Err::<Seq<u8>, PageError>(PageError::MalformedCell),
{
    assert forall|i: int| !found_at(bytes, key, i) by {
        if found_at(bytes, key, i) {
            if i < index {
                assert(slot_ok(bytes, i) && slot_key(bytes, i) != key);
            } else if index < i {
                assert(slot_ok(bytes, index) && slot_key(bytes, index) != key);
            }
        }
    }
}

/// A lookup that passes every slot reports `KeyNotFound`.
pub proof fn lemma_missing(bytes: Seq<u8>, key: Seq<u8>)
    requires
        scan_passes(bytes, key, cell_count(bytes) as int),
    ensures
        lookup_outcome(bytes, key) == Err::<Seq<u8>, PageError>(PageError::KeyNotFound),
{
    assert forall|i: int| !found_at(bytes, key, i) by {
        if found_at(bytes, key, i) {
            assert(slot_ok(bytes, i) && slot_key(bytes, i) != key);
        }
    }
    assert forall|i: int| !broken_at(bytes, key, i) by {
        if broken_at(bytes, key, i) {
            assert(slot_ok(bytes, i) && slot_key(bytes, i) != key);
        }
    }
}

} // verus!
