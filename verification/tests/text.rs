use slotted_page::header::_get_num_of_cells;
use slotted_page::layout::{PageError, PAGE_SIZE};
use slotted_page::store::{gen_blank_page, insert, lookup};
use slotted_page::text::{_insert_into_page, _read_from_page, _read_string, bytes_to_text};

#[test]
fn _insert_into_page_should_insert_entries_to_page() {
    let mut page = gen_blank_page();
    let key = "some-key";
    let value = "some-value";

    assert_eq!(Ok(()), _insert_into_page(key, value, &mut page));

    let result = _read_from_page(key, page);
    assert_eq!(Ok(value.to_string()), result);
}

#[test]
fn text_keys_each_find_their_value() {
    let mut page = gen_blank_page();
    assert_eq!(Ok(()), _insert_into_page("a", "1", &mut page));
    assert_eq!(Ok(()), _insert_into_page("b", "2", &mut page));
    assert_eq!(Ok(()), _insert_into_page("c", "3", &mut page));
    assert_eq!(Ok("1".to_string()), _read_from_page("a", page));
    assert_eq!(Ok("2".to_string()), _read_from_page("b", page));
    assert_eq!(Ok("3".to_string()), _read_from_page("c", page));
    assert_eq!(Err(PageError::KeyNotFound), _read_from_page("d", page));
}

#[test]
fn text_miss_is_an_error_and_no_text() {
    let mut page = gen_blank_page();
    assert_eq!(Err(PageError::KeyNotFound), _read_from_page("some-key", page));
    assert_eq!(Ok(()), _insert_into_page("some-key", "some-value", &mut page));
    assert_eq!(Err(PageError::KeyNotFound), _read_from_page("some-value", page));
    assert_eq!(Err(PageError::KeyNotFound), _read_from_page("", page));
}

#[test]
fn text_is_stored_as_its_utf8_bytes() {
    let mut page = gen_blank_page();
    let key = "gr\u{fc}n";
    let value = "\u{4f60}\u{597d} \u{1f600}";
    assert_eq!(5, key.len());
    assert_eq!(11, value.len());
    assert_eq!(Ok(()), _insert_into_page(key, value, &mut page));
    assert_eq!(1, _get_num_of_cells(page));
    let cell: usize = PAGE_SIZE - (9 + 5 + 11);
    assert_eq!(&page[cell..cell + 9], &[0u8, 5, 0, 0, 0, 11, 0, 0, 0]);
    assert_eq!(&page[cell + 9..cell + 14], key.as_bytes());
    assert_eq!(&page[cell + 14..], value.as_bytes());
    assert_eq!(Ok(value.to_string()), _read_from_page(key, page));
    assert_eq!(Ok(value.as_bytes().to_vec()), lookup(&page, key.as_bytes()));
    assert_eq!(Ok(key.to_string()), _read_string(page, cell + 9, 5));
    assert_eq!(Ok(value.to_string()), _read_string(page, cell + 14, 11));
}

#[test]
fn text_insert_reports_what_insert_reports() {
    let mut page = gen_blank_page();
    assert_eq!(Err(PageError::EmptyKey), _insert_into_page("", "value", &mut page));
    let long = "x".repeat(4059);
    assert_eq!(Err(PageError::CapacityExceeded), _insert_into_page("k", &long, &mut page));
    assert_eq!(page, gen_blank_page());
    let fits = "x".repeat(4058);
    assert_eq!(Ok(()), _insert_into_page("k", &fits, &mut page));
    assert_eq!(Ok(fits), _read_from_page("k", page));
}

#[test]
fn value_that_is_no_text_is_invalid_utf8() {
    let mut page = gen_blank_page();
    assert_eq!(Ok(()), insert(&mut page, b"k", &[0x66, 0xff, 0x66]));
    assert_eq!(Ok(()), insert(&mut page, b"half", &[0xe4, 0xbd]));
    assert_eq!(Ok(()), insert(&mut page, b"good", &[0xe4, 0xbd, 0xa0]));
    assert_eq!(Err(PageError::InvalidUtf8), _read_from_page("k", page));
    assert_eq!(Err(PageError::InvalidUtf8), _read_from_page("half", page));
    assert_eq!(Ok("\u{4f60}".to_string()), _read_from_page("good", page));
    assert_eq!(Ok(vec![0x66u8, 0xff, 0x66]), lookup(&page, b"k"));
}

#[test]
fn key_that_is_no_text_is_still_compared_by_its_bytes() {
    let mut page = gen_blank_page();
    assert_eq!(Ok(()), insert(&mut page, &[0xff, 0xfe], b"first"));
    assert_eq!(Ok(()), _insert_into_page("key", "second", &mut page));
    assert_eq!(Ok("second".to_string()), _read_from_page("key", page));
    assert_eq!(Ok(b"first".to_vec()), lookup(&page, &[0xff, 0xfe]));
}

#[test]
fn bytes_become_text_only_when_they_are_utf8() {
    assert_eq!(Ok("hi".to_string()), bytes_to_text(vec![0x68, 0x69]));
    assert_eq!(Ok(String::new()), bytes_to_text(Vec::new()));
    assert_eq!(Ok("\u{e9}".to_string()), bytes_to_text(vec![0xc3, 0xa9]));
    assert_eq!(Err(PageError::InvalidUtf8), bytes_to_text(vec![0xc3]));
    assert_eq!(Err(PageError::InvalidUtf8), bytes_to_text(vec![0x80]));
    // an overlong encoding and a surrogate are no text either
    assert_eq!(Err(PageError::InvalidUtf8), bytes_to_text(vec![0xc0, 0x80]));
    assert_eq!(Err(PageError::InvalidUtf8), bytes_to_text(vec![0xed, 0xa0, 0x80]));
}

#[test]
fn read_string_reads_a_run_of_the_page() {
    let mut page = gen_blank_page();
    page[100..105].copy_from_slice(b"hello");
    assert_eq!(Ok("hello".to_string()), _read_string(page, 100, 5));
    assert_eq!(Ok("ell".to_string()), _read_string(page, 101, 3));
    assert_eq!(Ok(String::new()), _read_string(page, 100, 0));
    assert_eq!(Ok(String::new()), _read_string(page, PAGE_SIZE, 0));
    assert_eq!(Ok("\0\0".to_string()), _read_string(page, PAGE_SIZE - 2, 2));
    page[101] = 0xff;
    assert_eq!(Err(PageError::InvalidUtf8), _read_string(page, 100, 5));
    assert_eq!(Ok("llo".to_string()), _read_string(page, 102, 3));
}

#[test]
fn read_string_past_the_page_is_out_of_bounds() {
    let page = gen_blank_page();
    assert_eq!(Err(PageError::OutOfBounds), _read_string(page, PAGE_SIZE - 2, 3));
    assert_eq!(Err(PageError::OutOfBounds), _read_string(page, PAGE_SIZE + 1, 0));
    assert_eq!(Err(PageError::OutOfBounds), _read_string(page, 0, PAGE_SIZE + 1));
    assert_eq!(Err(PageError::OutOfBounds), _read_string(page, usize::MAX, 2));
    assert_eq!(Err(PageError::OutOfBounds), _read_string(page, 2, usize::MAX));
}
