//! Keys and values as text: the bytes of a record read as UTF-8.

use vstd::prelude::*;
use vstd::string::StringSliceAdditionalSpecFns;
use vstd::utf8::{decode_utf8, encode_utf8, encode_utf8_decode_utf8, encode_utf8_valid_utf8, valid_utf8};
use crate::laws::lemma_insert_then_lookup;
use crate::layout::{PageError, PAGE_SIZE};
use crate::model::{insert_outcome, lookup_outcome, records, well_formed, Record};
use crate::range::copy_range;
use crate::store::{insert, lookup};

verus! {

/// The error of `String::from_utf8`, which this library maps to
/// `PageError::InvalidUtf8`.
#[verifier::external_type_specification]
#[verifier::external_body]
pub struct ExFromUtf8Error(std::string::FromUtf8Error);

/// `String::from_utf8` of the standard library: it accepts the bytes exactly
/// when they are valid UTF-8, and the text it returns is made of exactly
/// those bytes. Not proved here.
pub assume_specification[ String::from_utf8 ](vec: Vec<u8>) -> (r: Result<
    String,
    std::string::FromUtf8Error,
>)
    ensures
        r is Ok <==> valid_utf8(vec@),
        r is Ok ==> encode_utf8(r->Ok_0@) == vec@,
;

/// What reading bytes as text gives: the text they encode, or `InvalidUtf8`
/// where they encode none.
pub open spec fn text_of(bytes: Seq<u8>) -> Result<Seq<char>, PageError> {
    if valid_utf8(bytes) {
        Ok(decode_utf8(bytes))
    } else {
        Err(PageError::InvalidUtf8)
    }
}

/// Text written as bytes reads back as the same text.
pub proof fn lemma_text_round_trip(text: Seq<char>)
    ensures
        text_of(encode_utf8(text)) == Ok::<Seq<char>, PageError>(text),
{
    encode_utf8_valid_utf8(text);
    encode_utf8_decode_utf8(text);
}

/// Reads bytes as text.
///
/// Fails with `InvalidUtf8` exactly when the bytes are not valid UTF-8.
pub fn bytes_to_text(bytes: Vec<u8>) -> (r: Result<String, PageError>)
    ensures
        match r {
            Ok(text) => text_of(bytes@) == Ok::<Seq<char>, PageError>(text@),
            Err(e) => text_of(bytes@) == Err::<Seq<char>, PageError>(e),
        },
{
    match String::from_utf8(bytes) {
        Ok(text) => {
            proof {
                encode_utf8_decode_utf8(text@);
            }
            Ok(text)
        },
        Err(_) => Err(PageError::InvalidUtf8),
    }
}

/// Reads the `string_size` bytes of the page from `string_offset` on as
/// text.
///
/// Fails with `OutOfBounds` when those bytes do not all lie within the page,
/// and otherwise with `InvalidUtf8` when they are not valid UTF-8.
pub fn _read_string(page: [u8; PAGE_SIZE], string_offset: usize, string_size: usize) -> (r: Result<
    String,
    PageError,
>)
    ensures
        match r {
            Ok(text) => string_offset + string_size <= PAGE_SIZE && text_of(
                page@.subrange(string_offset as int, string_offset + string_size),
            ) == Ok::<Seq<char>, PageError>(text@),
            Err(e) => if string_offset + string_size > PAGE_SIZE {
                e == PageError::OutOfBounds
            } else {
                text_of(page@.subrange(string_offset as int, string_offset + string_size))
                    == Err::<Seq<char>, PageError>(e)
            },
        },
{
    if string_offset > PAGE_SIZE || string_size > PAGE_SIZE - string_offset {
        return Err(PageError::OutOfBounds);
    }
    bytes_to_text(copy_range(&page, string_offset, string_size))
}

/// Adds a record whose key and value are the bytes of the given texts. It
/// does what `insert` does with those bytes.
pub fn _insert_into_page(key: &str, value: &str, page: &mut [u8; PAGE_SIZE]) -> (r: Result<
    (),
    PageError,
>)
    ensures
        match r {
            Ok(()) => insert_outcome(old(page)@, key.spec_bytes(), value.spec_bytes()) == Ok::<
                Seq<u8>,
                PageError,
            >(final(page)@),
            Err(e) => insert_outcome(old(page)@, key.spec_bytes(), value.spec_bytes()) == Err::<
                Seq<u8>,
                PageError,
            >(e) && *final(page) == *old(page),
        },
        well_formed(old(page)@) ==> well_formed(final(page)@),
        well_formed(old(page)@) ==> r != Err::<(), PageError>(PageError::MalformedCell),
        well_formed(old(page)@) && r is Ok ==> records(final(page)@) == records(old(page)@).push(
            Record { key: key.spec_bytes(), value: value.spec_bytes() },
        ),
{
    insert(page, key.as_bytes(), value.as_bytes())
}

/// What a lookup that reads the value as text finds: what `lookup` finds,
/// read as text.
pub open spec fn text_lookup_outcome(bytes: Seq<u8>, key: Seq<u8>) -> Result<Seq<char>, PageError> {
    match lookup_outcome(bytes, key) {
        Ok(value) => text_of(value),
        Err(e) => Err(e),
    }
}

/// Returns as text the value of the first slot whose cell holds the bytes of
/// `key`.
///
/// Fails as `lookup` does, and with `InvalidUtf8` when the value found is
/// not valid UTF-8.
pub fn _read_from_page(key: &str, page: [u8; PAGE_SIZE]) -> (r: Result<String, PageError>)
    ensures
        match r {
            Ok(text) => text_lookup_outcome(page@, key.spec_bytes()) == Ok::<
                Seq<char>,
                PageError,
            >(text@),
            Err(e) => text_lookup_outcome(page@, key.spec_bytes()) == Err::<Seq<char>, PageError>(
                e,
            ),
        },
{
    match lookup(&page, key.as_bytes()) {
        Ok(value) => bytes_to_text(value),
        Err(e) => Err(e),
    }
}

/// After text is inserted into a well-formed page that does not hold the
/// key, a lookup of the key as text returns the text inserted.
pub proof fn lemma_text_insert_then_lookup(bytes: Seq<u8>, key: Seq<char>, value: Seq<char>)
    requires
        well_formed(bytes),
        insert_outcome(bytes, encode_utf8(key), encode_utf8(value)) is Ok,
        lookup_outcome(bytes, encode_utf8(key)) is Err,
    ensures
        text_lookup_outcome(
            insert_outcome(bytes, encode_utf8(key), encode_utf8(value))->Ok_0,
            encode_utf8(key),
        ) == Ok::<Seq<char>, PageError>(value),
{
    lemma_insert_then_lookup(bytes, encode_utf8(key), encode_utf8(value), encode_utf8(key));
    lemma_text_round_trip(value);
}

} // verus!
