//! A file of weights, with its header.
use serde_json::Value;
use vstd::prelude::*;
use vstd::utf8::{decode_utf8, valid_utf8};

use crate::arith::Arith;
use crate::json::{json_of, member_of, not_json, not_text, parsed, raw_to_json};
use crate::weights::{
    get_weight_matrix, has_header, header_len, is_weight_read, read_header, StoredWeight,
    PREFIX_BYTES,
};

verus! {

/// A file of weights: its bytes, what its header says, and how long the header is.
pub struct SafttensorsLoader<'a> {
    pub mmap: &'a [u8],
    pub metadata: Value,
    pub header_size: usize,
}

/// What is said of bytes that are too few for their header.
pub open spec fn no_header() -> Seq<char> {
    "cannot read the header"@
}

/// The bytes of the header.
pub open spec fn header_of(bytes: Seq<u8>) -> Seq<u8> {
    bytes.subrange(PREFIX_BYTES as int, PREFIX_BYTES + header_len(bytes))
}

impl<'a> SafttensorsLoader<'a> {
    /// Reads the header of a file.
    pub fn new(mmap: &'a [u8]) -> (r: Result<SafttensorsLoader<'a>, String>)
        ensures
            match r {
                Ok(l) => {
                    &&& l.mmap@ == mmap@
                    &&& has_header(mmap@)
                    &&& l.header_size == header_len(mmap@)
                    &&& valid_utf8(header_of(mmap@))
                    &&& parsed(decode_utf8(header_of(mmap@))) == Some(json_of(l.metadata))
                },
                Err(e) => if !has_header(mmap@) {
                    e@ == no_header()
                } else if !valid_utf8(header_of(mmap@)) {
                    e@ == not_text()
                } else {
                    parsed(decode_utf8(header_of(mmap@))) is None && e@ == not_json()
                },
            },
    {
        match read_header(mmap) {
            Some((header_size, header)) => {
                assert(header@ =~= header_of(mmap@));
                match raw_to_json(header) {
                    Ok(metadata) => Ok(SafttensorsLoader { mmap, metadata, header_size }),
                    Err(e) => Err(e),
                }
            },
            None => Err("cannot read the header".to_owned()),
        }
    }

    /// Reads a weight by its name.
    pub fn get_weight_matrix<T: Copy, A: Arith<T>>(&self, ar: &A, weight_name: &str) -> (r: Result<
        StoredWeight<T>,
        String,
    >)
        ensures
            is_weight_read(
                ar,
                member_of(json_of(self.metadata), weight_name@),
                self.mmap@,
                self.header_size as int,
                r,
            ),
    {
        get_weight_matrix(ar, weight_name, &self.metadata, self.mmap, self.header_size)
    }
}

} // verus!
