//! Slotted pages: fixed-size byte blocks that pack variable-length key/value
//! records behind a directory of offsets.
//!
//! A page is a plain array of bytes. Numbers are stored by [`codec`], the
//! header is read and written by [`header`], the slot directory by [`slots`]
//! and the cells by [`cells`]. [`store`] holds insert and lookup on bytes,
//! [`text`] the same on text. [`model`] says what a page holds and [`laws`]
//! what follows from it.

pub mod cells;
pub mod codec;
pub mod header;
pub mod laws;
pub mod layout;
pub mod model;
pub mod range;
pub mod slots;
pub mod store;
pub mod text;

pub use crate::cells::{append_cell, cell_byte_range, read_cell, Cell};
pub use crate::codec::{_read_int, _to_u32, _write_int};
pub use crate::header::{_get_num_of_cells, _set_num_of_cells, get_flags, set_flags};
pub use crate::layout::{PageError, HEADER_SIZE, PAGE_SIZE};
pub use crate::slots::{append_slot, read_slot, slot_offset};
pub use crate::store::{gen_blank_page, insert, lookup};
pub use crate::text::{_insert_into_page, _read_from_page, _read_string};
