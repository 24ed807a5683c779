//! The linear row scanner: one pass over the bytes, byte by byte.

use vstd::prelude::*;

use crate::parser::parse_row_naive;
use crate::parser::parse_rows_in;
use crate::parser::seek_row_naive;
use crate::parser::Row;
use crate::parser::RowParser;

verus! {

/// The byte-by-byte implementation of the row-scanning contract.
pub struct NaiveRowParser {}

impl RowParser for NaiveRowParser {
    fn parse_row(buf: &[u8], start: usize) -> (r: Option<(usize, usize)>) {
        parse_row_naive(buf, start)
    }

    fn seek_row(buf: &[u8], start: usize) -> (r: Option<usize>) {
        seek_row_naive(buf, start)
    }

    fn parse_row_buffer(buf: &crate::reader::RowBuffer) -> (r: Vec<Row>) {
        parse_rows_in(buf, false)
    }
}

} // verus!
