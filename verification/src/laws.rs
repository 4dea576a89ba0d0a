//! What holds of well-formed pages, and of the pages that inserts make.

use vstd::prelude::*;
use crate::cells::{
    cell_end, cell_fits, cell_image, cell_key, cell_region_start, cell_size, cell_value,
    free_space, lemma_cell_image_reads_back, lemma_same_cell, regions_intact,
};
use crate::codec::u32_at;
use crate::header::cell_count;
use crate::layout::{blank_bytes, PageError, BYTES_PER_OFFSET, HEADER_SIZE, PAGE_SIZE};
use crate::model::{
    built_from, cell_ceiling, first_at, first_value, found_at, insert_outcome, inserted,
    lemma_found, lemma_missing, lookup_outcome, records, scan_passes, slot_key, slot_ok,
    slot_packed, slot_value, stored_bytes, well_formed, Record,
};
use crate::range::{overwrite, same_bytes};
use crate::slots::{
    directory_end, lemma_with_slot, slot_entry, slot_position, with_slot, MAX_SLOTS,
};

verus! {

/// The blank page is well formed and holds no record.
pub proof fn lemma_blank_page()
    ensures
        well_formed(blank_bytes()),
        cell_count(blank_bytes()) == 0,
        records(blank_bytes()) == Seq::<Record>::empty(),
        free_space(blank_bytes()) == PAGE_SIZE - HEADER_SIZE,
{
    assert(records(blank_bytes()) =~= Seq::<Record>::empty());
}

/// On a well-formed page no cell starts below the start of the cell region.
proof fn lemma_slot_above_region(bytes: Seq<u8>, index: int)
    requires
        well_formed(bytes),
        0 <= index < cell_count(bytes),
    ensures
        cell_region_start(bytes) <= slot_entry(bytes, index),
    decreases cell_count(bytes) - index,
{
    if index + 1 < cell_count(bytes) {
        lemma_slot_above_region(bytes, index + 1);
        assert(slot_packed(bytes, index + 1));
    }
}

/// On a well-formed page every slot lies within the directory and points to
/// a cell that lies within the cell region with the lengths it declares.
pub proof fn lemma_slot_sound(bytes: Seq<u8>, index: int)
    requires
        well_formed(bytes),
        0 <= index < cell_count(bytes),
    ensures
        slot_ok(bytes, index),
        HEADER_SIZE <= slot_position(index),
        slot_position(index) + BYTES_PER_OFFSET <= directory_end(bytes),
        cell_region_start(bytes) <= slot_entry(bytes, index),
        cell_end(bytes, slot_entry(bytes, index) as int) <= PAGE_SIZE,
        cell_end(bytes, slot_entry(bytes, index) as int) == cell_ceiling(bytes, index),
{
    assert(slot_packed(bytes, cell_count(bytes) - 1));
    assert(slot_packed(bytes, index));
    lemma_slot_above_region(bytes, index);
}

/// On a well-formed page the slot directory and the cell region do not
/// overlap, the cell region starts within the page, the header counts no
/// more cells than the directory has room for, and there are as many records
/// as the header counts cells.
pub proof fn lemma_well_formed_layout(bytes: Seq<u8>)
    requires
        well_formed(bytes),
    ensures
        directory_end(bytes) <= cell_region_start(bytes) <= PAGE_SIZE,
        regions_intact(bytes),
        cell_count(bytes) <= MAX_SLOTS,
        cell_count(bytes) == records(bytes).len(),
        forall|i: int| 0 <= i < cell_count(bytes) ==> #[trigger] slot_ok(bytes, i),
{
    if cell_count(bytes) > 0 {
        lemma_slot_sound(bytes, cell_count(bytes) - 1);
    }
    assert forall|i: int| 0 <= i < cell_count(bytes) implies #[trigger] slot_ok(bytes, i) by {
        lemma_slot_sound(bytes, i);
    }
}

/// Two pages that hold the same four bytes at a position hold the same
/// number there.
proof fn lemma_same_u32(a: Seq<u8>, b: Seq<u8>, at: int)
    requires
        same_bytes(a, b, at, at + 4),
    ensures
        u32_at(a, at) == u32_at(b, at),
{
}

/// A page that shares the cell count, the slot directory and the cell region
/// with a well-formed page is well formed and holds the same records.
pub proof fn lemma_same_records(a: Seq<u8>, b: Seq<u8>)
    requires
        well_formed(a),
        b.len() == PAGE_SIZE,
        same_bytes(a, b, 1, directory_end(a)),
        same_bytes(a, b, cell_region_start(a), PAGE_SIZE as int),
    ensures
        well_formed(b),
        cell_count(b) == cell_count(a),
        records(b) == records(a),
{
    lemma_well_formed_layout(a);
    lemma_same_u32(a, b, 1);
    assert forall|i: int| 0 <= i < cell_count(a) implies {
        &&& slot_entry(b, i) == #[trigger] slot_entry(a, i)
        &&& slot_packed(b, i)
        &&& slot_key(b, i) == slot_key(a, i)
        &&& slot_value(b, i) == slot_value(a, i)
    } by {
        lemma_slot_sound(a, i);
        lemma_same_u32(a, b, slot_position(i));
        if i > 0 {
            lemma_slot_sound(a, i - 1);
            lemma_same_u32(a, b, slot_position(i - 1));
        }
        lemma_same_cell(a, b, slot_entry(a, i) as int);
    }
    assert forall|i: int| 0 <= i < cell_count(b) implies #[trigger] slot_packed(b, i) by {
        assert(slot_entry(b, i) == slot_entry(a, i));
    }
    assert forall|i: int| 0 <= i < cell_count(a) implies records(b)[i] == records(a)[i] by {
        assert(slot_entry(b, i) == slot_entry(a, i));
    }
    assert(records(b) =~= records(a));
}

/// What an accepted insert changes and what it leaves: the count rises by
/// one, the free space shrinks by the cell and its slot, the new slot points
/// to the new cell, the new cell holds the key and the value, and the slots
/// and the cell region from before are untouched.
pub proof fn lemma_inserted_frame(bytes: Seq<u8>, key: Seq<u8>, value: Seq<u8>)
    requires
        bytes.len() == PAGE_SIZE,
        regions_intact(bytes),
        free_space(bytes) >= cell_size(key.len() as int, value.len() as int) + BYTES_PER_OFFSET,
    ensures
        ({
            let after = inserted(bytes, key, value);
            let count = cell_count(bytes) as int;
            let start = cell_region_start(bytes);
            let offset = start - cell_size(key.len() as int, value.len() as int);
            &&& after.len() == PAGE_SIZE
            &&& cell_count(after) == count + 1
            &&& free_space(after) == free_space(bytes) - cell_size(
                key.len() as int,
                value.len() as int,
            ) - BYTES_PER_OFFSET
            &&& regions_intact(after)
            &&& slot_entry(after, count) == offset
            &&& forall|i: int|
                0 <= i < count ==> slot_entry(after, i) == #[trigger] slot_entry(bytes, i)
            &&& same_bytes(bytes, after, start, PAGE_SIZE as int)
            &&& cell_fits(after, offset)
            &&& cell_end(after, offset) == start
            &&& cell_key(after, offset) == key
            &&& cell_value(after, offset) == value
        }),
{
    let count = cell_count(bytes) as int;
    let size = cell_size(key.len() as int, value.len() as int);
    let start = cell_region_start(bytes);
    let offset = start - size;
    let written = overwrite(bytes, offset, cell_image(0, key, value));
    let after = with_slot(written, offset as u32);
    assert(cell_count(written) == count) by {
        assert(same_bytes(bytes, written, 1, 5));
        lemma_same_u32(bytes, written, 1);
    }
    lemma_with_slot(written, offset as u32);
    assert forall|i: int| 0 <= i < count implies slot_entry(after, i) == #[trigger] slot_entry(
        bytes,
        i,
    ) by {
        assert(same_bytes(bytes, written, slot_position(i), slot_position(i) + 4));
        lemma_same_u32(bytes, written, slot_position(i));
        assert(slot_entry(after, i) == slot_entry(written, i));
    }
    assert(same_bytes(bytes, after, start, PAGE_SIZE as int)) by {
        assert forall|i: int| start <= i < PAGE_SIZE implies bytes[i] == after[i] by {
            assert(written[i] == bytes[i]);
            assert(after[i] == written[i]);
        }
    }
    assert(cell_fits(after, offset) && cell_end(after, offset) == start && cell_key(after, offset)
        == key && cell_value(after, offset) == value) by {
        lemma_cell_image_reads_back(bytes, offset, 0, key, value);
        assert(same_bytes(written, after, offset, offset + size));
        lemma_same_cell(written, after, offset);
    }
}

/// An insert that a well-formed page accepts leaves a well-formed page with
/// one more cell, whose records are those before and then the new one.
pub proof fn lemma_insert_well_formed(bytes: Seq<u8>, key: Seq<u8>, value: Seq<u8>)
    requires
        well_formed(bytes),
        insert_outcome(bytes, key, value) is Ok,
    ensures
        insert_outcome(bytes, key, value) == Ok::<Seq<u8>, PageError>(
            inserted(bytes, key, value),
        ),
        well_formed(inserted(bytes, key, value)),
        cell_count(inserted(bytes, key, value)) == cell_count(bytes) + 1,
        records(inserted(bytes, key, value)) == records(bytes).push(
            Record { key: key, value: value },
        ),
{
    let count = cell_count(bytes) as int;
    let after = inserted(bytes, key, value);
    lemma_well_formed_layout(bytes);
    lemma_inserted_frame(bytes, key, value);
    assert forall|i: int| 0 <= i < count implies {
        &&& #[trigger] slot_packed(after, i)
        &&& slot_key(after, i) == slot_key(bytes, i)
        &&& slot_value(after, i) == slot_value(bytes, i)
    } by {
        lemma_slot_sound(bytes, i);
        assert(slot_entry(after, i) == slot_entry(bytes, i));
        if i > 0 {
            assert(slot_entry(after, i - 1) == slot_entry(bytes, i - 1));
        }
        lemma_same_cell(bytes, after, slot_entry(bytes, i) as int);
    }
    assert(slot_packed(after, count)) by {
        if count > 0 {
            assert(slot_entry(after, count - 1) == slot_entry(bytes, count - 1));
        }
    }
    assert forall|i: int| 0 <= i < cell_count(after) implies #[trigger] slot_packed(after, i) by {
        if i < count {
            assert(slot_packed(after, i));
        }
    }
    let pushed = records(bytes).push(Record { key: key, value: value });
    assert forall|i: int| 0 <= i < count + 1 implies records(after)[i] == pushed[i] by {
        if i < count {
            assert(slot_packed(after, i));
        }
    }
    assert(records(after) =~= pushed);
}

/// On a well-formed page the cells of the first `n` slots take the bytes
/// from the end of the page down to where the next cell has to end.
proof fn lemma_ceiling(bytes: Seq<u8>, n: int)
    requires
        well_formed(bytes),
        0 <= n <= cell_count(bytes),
    ensures
        cell_ceiling(bytes, n) == PAGE_SIZE - stored_bytes(records(bytes).take(n))
            + BYTES_PER_OFFSET * n,
    decreases n,
{
    let recs = records(bytes).take(n);
    if n > 0 {
        lemma_ceiling(bytes, n - 1);
        lemma_slot_sound(bytes, n - 1);
        assert(recs.drop_last() =~= records(bytes).take(n - 1));
        assert(recs.last() == records(bytes)[n - 1]);
    }
}

/// The free space of a well-formed page is what the header, the cells and
/// the slots leave of the page.
pub proof fn lemma_free_space(bytes: Seq<u8>)
    requires
        well_formed(bytes),
    ensures
        free_space(bytes) == PAGE_SIZE - HEADER_SIZE - stored_bytes(records(bytes)),
{
    lemma_ceiling(bytes, cell_count(bytes) as int);
    assert(records(bytes).take(cell_count(bytes) as int) =~= records(bytes));
}

/// A well-formed page takes a record with a key that is not empty exactly
/// when the records it holds and the new one, each with its cell and its
/// slot, fit behind the header. It refuses any other with
/// `CapacityExceeded`.
pub proof fn lemma_capacity_boundary(bytes: Seq<u8>, key: Seq<u8>, value: Seq<u8>)
    requires
        well_formed(bytes),
    ensures
        insert_outcome(bytes, key, value) == (if key.len() == 0 {
            Err::<Seq<u8>, PageError>(PageError::EmptyKey)
        } else if stored_bytes(records(bytes)) + cell_size(key.len() as int, value.len() as int)
            + BYTES_PER_OFFSET > PAGE_SIZE - HEADER_SIZE {
            Err::<Seq<u8>, PageError>(PageError::CapacityExceeded)
        } else {
            Ok::<Seq<u8>, PageError>(inserted(bytes, key, value))
        }),
{
    lemma_well_formed_layout(bytes);
    lemma_free_space(bytes);
}

/// The first value found for a key is the value of the first record that
/// holds the key; none is found exactly when no record holds it.
pub proof fn lemma_first_value(recs: Seq<Record>, key: Seq<u8>)
    ensures
        match first_value(recs, key) {
            Some(value) => exists|i: int| first_at(recs, key, i) && recs[i].value == value,
            None => forall|i: int| 0 <= i < recs.len() ==> (#[trigger] recs[i]).key != key,
        },
    decreases recs.len(),
{
    if recs.len() > 0 {
        let front = recs.drop_last();
        lemma_first_value(front, key);
        match first_value(front, key) {
            Some(value) => {
                let i = choose|i: int| first_at(front, key, i) && front[i].value == value;
                assert forall|j: int| 0 <= j < i implies (#[trigger] recs[j]).key != key by {
                    assert(front[j].key != key);
                }
                assert(first_at(recs, key, i) && recs[i].value == value);
            },
            None => {
                assert forall|j: int| 0 <= j < recs.len() - 1 implies (#[trigger] recs[j]).key
                    != key by {
                    assert(front[j].key != key);
                }
                if recs.last().key == key {
                    assert(first_at(recs, key, recs.len() - 1));
                }
            },
        }
    }
}

/// A lookup in a well-formed page returns the value of the first record that
/// holds the key, and reports `KeyNotFound` when no record holds it.
pub proof fn lemma_lookup_well_formed(bytes: Seq<u8>, key: Seq<u8>)
    requires
        well_formed(bytes),
    ensures
        lookup_outcome(bytes, key) == (match first_value(records(bytes), key) {
            Some(value) => Ok::<Seq<u8>, PageError>(value),
            None => Err::<Seq<u8>, PageError>(PageError::KeyNotFound),
        }),
{
    let recs = records(bytes);
    lemma_first_value(recs, key);
    lemma_well_formed_layout(bytes);
    match first_value(recs, key) {
        Some(value) => {
            let i = choose|i: int| first_at(recs, key, i) && recs[i].value == value;
            assert forall|j: int| 0 <= j < i implies #[trigger] slot_ok(bytes, j) && slot_key(
                bytes,
                j,
            ) != key by {
                assert(recs[j].key == slot_key(bytes, j));
            }
            assert(scan_passes(bytes, key, i));
            assert(slot_ok(bytes, i));
            assert(recs[i].key == slot_key(bytes, i));
            assert(recs[i].value == slot_value(bytes, i));
            assert(found_at(bytes, key, i));
            lemma_found(bytes, key, i);
        },
        None => {
            assert forall|j: int| 0 <= j < cell_count(bytes) implies #[trigger] slot_ok(bytes, j)
                && slot_key(bytes, j) != key by {
                assert(recs[j].key == slot_key(bytes, j));
            }
            assert(scan_passes(bytes, key, cell_count(bytes) as int));
            lemma_missing(bytes, key);
        },
    }
}

/// After an insert that a well-formed page accepts, a lookup of any key
/// that the page held before returns what it returned before; a lookup of
/// the inserted key, if the page did not hold it, returns the inserted
/// value; a lookup of any other key reports `KeyNotFound`.
pub proof fn lemma_insert_then_lookup(
    bytes: Seq<u8>,
    key: Seq<u8>,
    value: Seq<u8>,
    probe: Seq<u8>,
)
    requires
        well_formed(bytes),
        insert_outcome(bytes, key, value) is Ok,
    ensures
        lookup_outcome(inserted(bytes, key, value), probe) == (match lookup_outcome(bytes, probe) {
            Ok(found) => Ok::<Seq<u8>, PageError>(found),
            Err(_) => if probe == key {
                Ok::<Seq<u8>, PageError>(value)
            } else {
                Err::<Seq<u8>, PageError>(PageError::KeyNotFound)
            },
        }),
{
    let after = inserted(bytes, key, value);
    let pushed = records(bytes).push(Record { key: key, value: value });
    lemma_insert_well_formed(bytes, key, value);
    lemma_lookup_well_formed(bytes, probe);
    lemma_lookup_well_formed(after, probe);
    assert(pushed.drop_last() =~= records(bytes));
}

/// The record that is the first to hold a key is the one whose value is
/// found for the key.
pub proof fn lemma_first_at(recs: Seq<Record>, key: Seq<u8>, index: int)
    requires
        first_at(recs, key, index),
    ensures
        first_value(recs, key) == Some(recs[index].value),
{
    lemma_first_value(recs, key);
    match first_value(recs, key) {
        Some(value) => {
            let i = choose|i: int| first_at(recs, key, i) && recs[i].value == value;
            if i < index {
                assert(recs[i].key != key);
            } else if index < i {
                assert(recs[index].key != key);
            }
        },
        None => {
            assert(recs[index].key != key);
        },
    }
}

/// Inserts into a blank page, as long as each is accepted, leave a
/// well-formed page that holds exactly the inserted records in the order of
/// their insertion: as many cells as inserts, each slot pointing to a cell
/// that lies within the page, a slot directory that ends at or before the
/// cell region, and records that fit behind the header.
pub proof fn lemma_built_page(recs: Seq<Record>)
    requires
        built_from(recs) is Ok,
    ensures
        well_formed(built_from(recs)->Ok_0),
        records(built_from(recs)->Ok_0) == recs,
        cell_count(built_from(recs)->Ok_0) == recs.len(),
        forall|i: int| 0 <= i < recs.len() ==> #[trigger] slot_ok(built_from(recs)->Ok_0, i),
        directory_end(built_from(recs)->Ok_0) <= cell_region_start(built_from(recs)->Ok_0),
        stored_bytes(recs) <= PAGE_SIZE - HEADER_SIZE,
    decreases recs.len(),
{
    if recs.len() == 0 {
        lemma_blank_page();
        assert(recs =~= Seq::<Record>::empty());
    } else {
        let front = recs.drop_last();
        lemma_built_page(front);
        let before = built_from(front)->Ok_0;
        lemma_insert_well_formed(before, recs.last().key, recs.last().value);
        assert(front.push(recs.last()) =~= recs);
        let page = built_from(recs)->Ok_0;
        lemma_free_space(page);
        lemma_well_formed_layout(page);
    }
}

/// After inserts into a blank page, each of them accepted, the next insert
/// of a record with a key that is not empty is refused with
/// `CapacityExceeded` exactly when the records inserted and the new one,
/// each with its cell and its slot, take more than the page has behind its
/// header.
pub proof fn lemma_insert_after_inserts(recs: Seq<Record>, key: Seq<u8>, value: Seq<u8>)
    requires
        built_from(recs) is Ok,
    ensures
        insert_outcome(built_from(recs)->Ok_0, key, value) == (if key.len() == 0 {
            Err::<Seq<u8>, PageError>(PageError::EmptyKey)
        } else if stored_bytes(recs) + cell_size(key.len() as int, value.len() as int)
            + BYTES_PER_OFFSET > PAGE_SIZE - HEADER_SIZE {
            Err::<Seq<u8>, PageError>(PageError::CapacityExceeded)
        } else {
            Ok::<Seq<u8>, PageError>(inserted(built_from(recs)->Ok_0, key, value))
        }),
{
    lemma_built_page(recs);
    lemma_capacity_boundary(built_from(recs)->Ok_0, key, value);
}

/// After inserts into a blank page, each of them accepted, a lookup returns
/// the value of the first record inserted with the key, and reports
/// `KeyNotFound` for a key that was never inserted.
pub proof fn lemma_lookup_after_inserts(recs: Seq<Record>, key: Seq<u8>)
    requires
        built_from(recs) is Ok,
    ensures
        forall|i: int|
            first_at(recs, key, i) ==> lookup_outcome(built_from(recs)->Ok_0, key) == Ok::<
                Seq<u8>,
                PageError,
            >(recs[i].value),
        (forall|i: int| 0 <= i < recs.len() ==> (#[trigger] recs[i]).key != key)
            ==> lookup_outcome(built_from(recs)->Ok_0, key) == Err::<Seq<u8>, PageError>(
            PageError::KeyNotFound,
        ),
{
    lemma_built_page(recs);
    lemma_lookup_well_formed(built_from(recs)->Ok_0, key);
    lemma_first_value(recs, key);
    assert forall|i: int| first_at(recs, key, i) implies lookup_outcome(
        built_from(recs)->Ok_0,
        key,
    ) == Ok::<Seq<u8>, PageError>(recs[i].value) by {
        lemma_first_at(recs, key, i);
    }
    if forall|i: int| 0 <= i < recs.len() ==> (#[trigger] recs[i]).key != key {
        if first_value(recs, key) is Some {
            let i = choose|i: int|
                first_at(recs, key, i) && recs[i].value == first_value(recs, key)->Some_0;
            assert(recs[i].key != key);
        }
    }
}

} // verus!
