use slotted_page::cells::{append_cell, cell_byte_range, cell_extent, read_cell, Cell};
use slotted_page::codec::{_read_int, _write_int};
use slotted_page::header::{_get_num_of_cells, _set_num_of_cells, get_flags, set_flags};
use slotted_page::layout::{PageError, HEADER_SIZE, PAGE_SIZE};
use slotted_page::slots::{append_slot, read_slot, slot_offset, MAX_SLOTS};
use slotted_page::store::{gen_blank_page, insert, lookup};

#[test]
fn blank_page_has_no_cells_and_all_space_free() {
    let page = gen_blank_page();
    assert_eq!(0, _get_num_of_cells(page));
    assert_eq!(0, get_flags(&page));
    assert_eq!(Ok((HEADER_SIZE, PAGE_SIZE)), cell_byte_range(&page));
    assert_eq!(Err(PageError::OutOfBounds), read_slot(&page, 0));
}

#[test]
fn slots_follow_the_header_four_bytes_apart() {
    assert_eq!(24, slot_offset(0));
    assert_eq!(28, slot_offset(1));
    assert_eq!(36, slot_offset(3));
    assert_eq!(4092, slot_offset(1017));
    assert_eq!(1018, MAX_SLOTS);
}

#[test]
fn insert_lays_out_cell_slot_and_count() {
    let mut page = gen_blank_page();
    assert_eq!(Ok(()), insert(&mut page, b"some-key", b"some-value"));

    let mut expected = gen_blank_page();
    // one cell
    expected[1] = 1;
    // its slot: 4096 - (9 + 8 + 10) = 4069
    expected[24] = 0xe5;
    expected[25] = 0x0f;
    // the cell: flags, key length, value length, key, value
    expected[4069] = 0;
    expected[4070] = 8;
    expected[4074] = 10;
    expected[4078..4086].copy_from_slice(b"some-key");
    expected[4086..4096].copy_from_slice(b"some-value");
    assert_eq!(page, expected);

    assert_eq!(Ok(4069), read_slot(&page, 0));
    assert_eq!(Ok((28, 4069)), cell_byte_range(&page));
}

#[test]
fn second_insert_goes_below_the_first() {
    let mut page = gen_blank_page();
    assert_eq!(Ok(()), insert(&mut page, b"some-key", b"some-value"));
    assert_eq!(Ok(()), insert(&mut page, b"k", b""));
    assert_eq!(2, _get_num_of_cells(page));
    assert_eq!(Ok(4069), read_slot(&page, 0));
    assert_eq!(Ok(4059), read_slot(&page, 1));
    assert_eq!(Err(PageError::OutOfBounds), read_slot(&page, 2));
    assert_eq!(Ok((32, 4059)), cell_byte_range(&page));
    assert_eq!(&page[4059..4069], &[0u8, 1, 0, 0, 0, 0, 0, 0, 0, b'k']);
    assert_eq!(
        Ok(Cell { flags: 0, key: b"k".to_vec(), value: Vec::new() }),
        read_cell(&page, 4059)
    );
    assert_eq!(
        Ok(Cell { flags: 0, key: b"some-key".to_vec(), value: b"some-value".to_vec() }),
        read_cell(&page, 4069)
    );
}

#[test]
fn lookup_returns_what_was_inserted() {
    let mut page = gen_blank_page();
    assert_eq!(Ok(()), insert(&mut page, b"some-key", b"some-value"));
    assert_eq!(Ok(b"some-value".to_vec()), lookup(&page, b"some-key"));
}

#[test]
fn lookup_of_a_key_never_inserted_is_key_not_found() {
    let mut page = gen_blank_page();
    assert_eq!(Err(PageError::KeyNotFound), lookup(&page, b"some-key"));
    assert_eq!(Err(PageError::KeyNotFound), lookup(&page, b""));
    assert_eq!(Ok(()), insert(&mut page, b"some-key", b"some-value"));
    assert_eq!(Err(PageError::KeyNotFound), lookup(&page, b"some-ke"));
    assert_eq!(Err(PageError::KeyNotFound), lookup(&page, b"some-key2"));
    assert_eq!(Err(PageError::KeyNotFound), lookup(&page, b"some-value"));
    assert_eq!(Err(PageError::KeyNotFound), lookup(&page, b""));
}

#[test]
fn several_keys_each_find_their_value() {
    let mut page = gen_blank_page();
    assert_eq!(Ok(()), insert(&mut page, b"a", b"1"));
    assert_eq!(Ok(()), insert(&mut page, b"b", b"2"));
    assert_eq!(Ok(()), insert(&mut page, b"c", b"3"));
    assert_eq!(Ok(b"1".to_vec()), lookup(&page, b"a"));
    assert_eq!(Ok(b"2".to_vec()), lookup(&page, b"b"));
    assert_eq!(Ok(b"3".to_vec()), lookup(&page, b"c"));
    assert_eq!(Err(PageError::KeyNotFound), lookup(&page, b"d"));
    assert_eq!(3, _get_num_of_cells(page));
}

#[test]
fn first_of_two_equal_keys_wins() {
    let mut page = gen_blank_page();
    assert_eq!(Ok(()), insert(&mut page, b"k", b"first"));
    assert_eq!(Ok(()), insert(&mut page, b"other", b"x"));
    assert_eq!(Ok(()), insert(&mut page, b"k", b"second"));
    assert_eq!(3, _get_num_of_cells(page));
    assert_eq!(Ok(b"first".to_vec()), lookup(&page, b"k"));
    assert_eq!(Ok(b"x".to_vec()), lookup(&page, b"other"));
}

#[test]
fn empty_key_is_rejected_and_empty_value_is_kept() {
    let mut page = gen_blank_page();
    assert_eq!(Err(PageError::EmptyKey), insert(&mut page, b"", b"value"));
    assert_eq!(Err(PageError::EmptyKey), insert(&mut page, b"", b""));
    assert_eq!(page, gen_blank_page());
    assert_eq!(Ok(()), insert(&mut page, b"key", b""));
    assert_eq!(Ok(Vec::new()), lookup(&page, b"key"));
}

#[test]
fn a_record_that_fills_the_page_exactly_is_taken() {
    // 9 + 1 + 4058 + 4 == 4096 - 24
    let value = vec![7u8; 4058];
    let mut page = gen_blank_page();
    assert_eq!(Ok(()), insert(&mut page, b"k", &value));
    assert_eq!(Ok((28, 28)), cell_byte_range(&page));
    assert_eq!(Ok(value), lookup(&page, b"k"));
    let full = page;
    assert_eq!(Err(PageError::CapacityExceeded), insert(&mut page, b"x", b""));
    assert_eq!(page, full);
}

#[test]
fn a_record_one_byte_too_large_is_refused() {
    let value = vec![7u8; 4059];
    let mut page = gen_blank_page();
    assert_eq!(Err(PageError::CapacityExceeded), insert(&mut page, b"k", &value));
    assert_eq!(page, gen_blank_page());
    let huge = vec![0u8; 100_000];
    assert_eq!(Err(PageError::CapacityExceeded), insert(&mut page, b"k", &huge));
    assert_eq!(Err(PageError::CapacityExceeded), insert(&mut page, &huge, b""));
    assert_eq!(page, gen_blank_page());
}

#[test]
fn inserts_succeed_until_the_page_is_full() {
    // each record takes 9 + 3 + 4 + 4 == 20 bytes of the 4072 behind the header
    let mut page = gen_blank_page();
    let mut used: usize = 0;
    let mut n: u32 = 0;
    loop {
        let key = format!("{:03}", n % 1000);
        let before = page;
        let r = insert(&mut page, key.as_bytes(), b"abcd");
        if used + 20 > PAGE_SIZE - HEADER_SIZE {
            assert_eq!(Err(PageError::CapacityExceeded), r);
            assert_eq!(page, before);
            assert_eq!(n, _get_num_of_cells(page));
            break;
        }
        assert_eq!(Ok(()), r);
        used += 20;
        n += 1;
        assert_eq!(n, _get_num_of_cells(page));
    }
    assert_eq!(203, n);
    assert_eq!(4060, used);
    // twelve bytes are left: too few for any record
    assert_eq!(Ok((24 + 4 * 203, 24 + 4 * 203 + 12)), cell_byte_range(&page));
    assert_eq!(Err(PageError::CapacityExceeded), insert(&mut page, b"z", b""));
    assert_eq!(Ok(b"abcd".to_vec()), lookup(&page, b"000"));
    assert_eq!(Ok(b"abcd".to_vec()), lookup(&page, b"202"));
    assert_eq!(Err(PageError::KeyNotFound), lookup(&page, b"203"));
}

#[test]
fn every_slot_points_to_a_cell_within_the_page() {
    let mut page = gen_blank_page();
    let mut keys: Vec<Vec<u8>> = Vec::new();
    let mut values: Vec<Vec<u8>> = Vec::new();
    for i in 0..50usize {
        let key = format!("key-{}", i).into_bytes();
        let value = vec![i as u8; i * 3 % 17];
        assert_eq!(Ok(()), insert(&mut page, &key, &value));
        keys.push(key);
        values.push(value);
        assert_eq!(i as u32 + 1, _get_num_of_cells(page));
    }
    let (free_start, free_end) = cell_byte_range(&page).unwrap();
    assert_eq!(free_start, 24 + 4 * 50);
    assert!(free_start <= free_end);
    let mut ceiling: usize = PAGE_SIZE;
    for i in 0..50u32 {
        let offset = read_slot(&page, i).unwrap() as usize;
        let (key_size, value_size) = cell_extent(&page, offset).unwrap();
        assert!(offset >= free_end);
        assert_eq!(offset + 9 + key_size + value_size, ceiling);
        let cell = read_cell(&page, offset).unwrap();
        assert_eq!(cell.flags, 0);
        assert_eq!(cell.key, keys[i as usize]);
        assert_eq!(cell.value, values[i as usize]);
        ceiling = offset;
    }
    assert_eq!(ceiling, free_end);
    for i in 0..50usize {
        assert_eq!(Ok(values[i].clone()), lookup(&page, &keys[i]));
    }
}

#[test]
fn directory_never_runs_into_the_cells() {
    let mut page = gen_blank_page();
    let mut n: usize = 0;
    while insert(&mut page, b"k", b"").is_ok() {
        n += 1;
        let (start, end) = cell_byte_range(&page).unwrap();
        assert!(start <= end);
        assert_eq!(start, 24 + 4 * n);
        assert_eq!(end, PAGE_SIZE - 10 * n);
    }
    // 14 bytes for each record of the 4072 behind the header
    assert_eq!(290, n);
    assert_eq!(290, _get_num_of_cells(page));
}

#[test]
fn append_cell_writes_below_the_cell_region() {
    let mut page = gen_blank_page();
    assert_eq!(Ok(4083), append_cell(&mut page, 0x01, b"ab", b"cd"));
    assert_eq!(&page[4083..], &[1u8, 2, 0, 0, 0, 2, 0, 0, 0, b'a', b'b', b'c', b'd']);
    assert_eq!(0, _get_num_of_cells(page));
    assert_eq!(
        Ok(Cell { flags: 1, key: b"ab".to_vec(), value: b"cd".to_vec() }),
        read_cell(&page, 4083)
    );
    assert_eq!(Ok(()), append_slot(&mut page, 4083));
    assert_eq!(1, _get_num_of_cells(page));
    assert_eq!(Ok(4083), read_slot(&page, 0));
    assert_eq!(Ok(b"cd".to_vec()), lookup(&page, b"ab"));
    assert_eq!(Ok(4083 - 9), append_cell(&mut page, 0, b"", b""));
}

#[test]
fn append_cell_refuses_what_the_free_space_cannot_take() {
    let mut page = gen_blank_page();
    let value = vec![1u8; 4096 - 24 - 9 - 1];
    assert_eq!(Ok(24), append_cell(&mut page, 0, b"k", &value));
    let mut page = gen_blank_page();
    let value = vec![1u8; 4096 - 24 - 9];
    assert_eq!(Err(PageError::CapacityExceeded), append_cell(&mut page, 0, b"k", &value));
    assert_eq!(page, gen_blank_page());
}

#[test]
fn append_slot_refuses_a_full_directory() {
    let mut page = gen_blank_page();
    _set_num_of_cells(&mut page, 1017);
    assert_eq!(Ok(()), append_slot(&mut page, 77));
    assert_eq!(1018, _get_num_of_cells(page));
    assert_eq!(&page[4092..], &[77u8, 0, 0, 0]);
    assert_eq!(Ok(77), read_slot(&page, 1017));
    let before = page;
    assert_eq!(Err(PageError::OutOfBounds), append_slot(&mut page, 78));
    assert_eq!(page, before);
    _set_num_of_cells(&mut page, u32::MAX);
    let before = page;
    assert_eq!(Err(PageError::OutOfBounds), append_slot(&mut page, 78));
    assert_eq!(page, before);
    assert_eq!(Err(PageError::OutOfBounds), read_slot(&page, 1018));
    assert_eq!(Err(PageError::OutOfBounds), read_slot(&page, u32::MAX));
}

#[test]
fn cell_that_runs_past_the_page_is_malformed() {
    let mut page = gen_blank_page();
    // a cell header in the last nine bytes, with nothing declared: fits
    assert_eq!(Ok((0, 0)), cell_extent(&page, PAGE_SIZE - 9));
    assert_eq!(Err(PageError::MalformedCell), cell_extent(&page, PAGE_SIZE - 8));
    assert_eq!(Err(PageError::MalformedCell), read_cell(&page, PAGE_SIZE - 8));
    assert_eq!(Err(PageError::MalformedCell), read_cell(&page, PAGE_SIZE));
    assert_eq!(Err(PageError::MalformedCell), read_cell(&page, usize::MAX));
    // key length one more than the page has left
    assert_eq!(Ok(()), _write_int(&mut page, 4001, 88));
    assert_eq!(Err(PageError::MalformedCell), read_cell(&page, 4000));
    assert_eq!(Ok(()), _write_int(&mut page, 4001, 87));
    assert_eq!(Ok((87, 0)), cell_extent(&page, 4000));
    // value length one more than the page has left
    assert_eq!(Ok(()), _write_int(&mut page, 4005, 1));
    assert_eq!(Err(PageError::MalformedCell), read_cell(&page, 4000));
    assert_eq!(Ok(()), _write_int(&mut page, 4001, u32::MAX));
    assert_eq!(Ok(()), _write_int(&mut page, 4005, u32::MAX));
    assert_eq!(Err(PageError::MalformedCell), read_cell(&page, 4000));
}

#[test]
fn lookup_reports_a_malformed_cell_unless_the_key_comes_first() {
    let mut page = gen_blank_page();
    assert_eq!(Ok(()), insert(&mut page, b"good", b"value"));
    assert_eq!(Ok(()), insert(&mut page, b"bad", b"value"));
    assert_eq!(Ok(()), insert(&mut page, b"last", b"value"));
    // the second slot now points behind the page
    assert_eq!(Ok(()), _write_int(&mut page, 28, 5000));
    assert_eq!(Ok(b"value".to_vec()), lookup(&page, b"good"));
    assert_eq!(Err(PageError::MalformedCell), lookup(&page, b"bad"));
    assert_eq!(Err(PageError::MalformedCell), lookup(&page, b"last"));
    assert_eq!(Err(PageError::MalformedCell), lookup(&page, b"absent"));
}

#[test]
fn lookup_reports_a_directory_that_runs_past_the_page() {
    let mut page = gen_blank_page();
    _set_num_of_cells(&mut page, 2000);
    // every slot within the page points to offset 0, where the count is read
    // as the key length of a cell: a key of 2000 zero bytes, an empty value
    assert_eq!(Err(PageError::MalformedCell), lookup(&page, b"k"));
    assert_eq!(Ok(Vec::new()), lookup(&page, &[0u8; 2000]));
    // with a count that no page can hold, that cell does not fit either
    _set_num_of_cells(&mut page, u32::MAX);
    assert_eq!(Err(PageError::MalformedCell), lookup(&page, b"k"));
    assert_eq!(Err(PageError::MalformedCell), lookup(&page, b""));
}

#[test]
fn insert_reports_regions_that_overlap() {
    let mut page = gen_blank_page();
    _set_num_of_cells(&mut page, u32::MAX);
    let before = page;
    assert_eq!(Err(PageError::MalformedCell), cell_byte_range(&page));
    assert_eq!(Err(PageError::MalformedCell), insert(&mut page, b"k", b"v"));
    assert_eq!(Err(PageError::MalformedCell), append_cell(&mut page, 0, b"k", b"v"));
    assert_eq!(page, before);

    // the cell placed last is said to start behind the page
    let mut page = gen_blank_page();
    _set_num_of_cells(&mut page, 1);
    assert_eq!(Ok(()), _write_int(&mut page, 24, 4097));
    let before = page;
    assert_eq!(Err(PageError::MalformedCell), insert(&mut page, b"k", b"v"));
    assert_eq!(page, before);

    // the cell placed last is said to start within the directory
    assert_eq!(Ok(()), _write_int(&mut page, 24, 27));
    let before = page;
    assert_eq!(Err(PageError::MalformedCell), insert(&mut page, b"k", b"v"));
    assert_eq!(page, before);
    assert_eq!(Ok(27), _read_int(page, 24));

    // an empty key is reported first
    assert_eq!(Err(PageError::EmptyKey), insert(&mut page, b"", b"v"));
}

#[test]
fn flags_and_loose_cells_leave_the_records_alone() {
    let mut page = gen_blank_page();
    assert_eq!(Ok(()), insert(&mut page, b"a", b"1"));
    assert_eq!(Ok(()), insert(&mut page, b"b", b"2"));
    set_flags(&mut page, 0xff);
    assert_eq!(0xff, get_flags(&page));
    assert_eq!(2, _get_num_of_cells(page));
    assert_eq!(Ok(b"1".to_vec()), lookup(&page, b"a"));
    assert_eq!(Ok(b"2".to_vec()), lookup(&page, b"b"));
    // a cell that no slot points to is not found
    let (_, end) = cell_byte_range(&page).unwrap();
    assert_eq!(Ok(end - 11), append_cell(&mut page, 0, b"c", b"3"));
    assert_eq!(2, _get_num_of_cells(page));
    assert_eq!(Ok(b"1".to_vec()), lookup(&page, b"a"));
    assert_eq!(Ok(b"2".to_vec()), lookup(&page, b"b"));
    assert_eq!(Err(PageError::KeyNotFound), lookup(&page, b"c"));
    // the next insert overwrites it
    assert_eq!(Ok(()), insert(&mut page, b"d", b"4"));
    assert_eq!(Ok(b"4".to_vec()), lookup(&page, b"d"));
    assert_eq!(Err(PageError::KeyNotFound), lookup(&page, b"c"));
}
