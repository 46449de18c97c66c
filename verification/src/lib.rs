//! A minimal single-table record store: fixed-width rows packed into
//! fixed-size pages, cached in memory and flushed back to a flat file.
//!
//! The library is pure: it works on the byte contents of the backing file.
//! The caller reads the file once when opening a table and performs the
//! writes that closing a table hands back.

use vstd::prelude::*;

pub mod pager;
pub mod row;
pub mod table;
pub mod tokenizer;

verus! {

/// One trimmed line of user input, as handed to the statement parser.
pub struct InputBuffer {
    pub buffer: String,
}

impl InputBuffer {
    /// An empty input line.
    pub fn new() -> (r: Self)
        ensures
            r.buffer@ == Seq::<char>::empty(),
    {
        Self { buffer: String::new() }
    }
}

} // verus!
