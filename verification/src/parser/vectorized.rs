//! The vectorized row scanner: one fast byte-search per marker.

use vstd::prelude::*;

use crate::parser::parse_row_vectorized;
use crate::parser::parse_rows_in;
use crate::parser::seek_row_vectorized;
use crate::parser::Row;
use crate::parser::RowParser;

verus! {

/// The vectorized implementation of the row-scanning contract.
pub struct VectorizedRowParser {}

impl RowParser for VectorizedRowParser {
    fn parse_row(buf: &[u8], start: usize) -> (r: Option<(usize, usize)>) {
        parse_row_vectorized(buf, start)
    }

    fn seek_row(buf: &[u8], start: usize) -> (r: Option<usize>) {
        seek_row_vectorized(buf, start)
    }

    fn parse_row_buffer(buf: &crate::reader::RowBuffer) -> (r: Vec<Row>) {
        parse_rows_in(buf, true)
    }
}

} // verus!
