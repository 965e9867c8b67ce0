//! What a parser saw when it failed: the offending input, kept as text
//! when it is valid UTF-8 and as raw bytes otherwise, so reports can
//! show protocol traffic either way.

use vstd::prelude::*;
use vstd::string::StrSliceExecFns;

verus! {

/// A piece of parser input: text, or raw bytes.
#[derive(Clone, Debug, PartialEq, Eq)]
pub enum StrOrByteSlice {
    Str(String),
    Bytes(Vec<u8>),
}

impl StrOrByteSlice {
    /// The bytes either way (for text, its UTF-8 encoding).
    pub fn as_byte_vec(&self) -> (r: Vec<u8>)
        ensures
            self matches StrOrByteSlice::Bytes(b) ==> r@ == b@,
    {
        match self {
            StrOrByteSlice::Str(s) => s.as_str().as_bytes_vec(),
            StrOrByteSlice::Bytes(b) => {
                let mut out: Vec<u8> = Vec::new();
                let mut k: usize = 0;
                while k < b.len()
                    invariant
                        k <= b@.len(),
                        out@ =~= b@.subrange(0, k as int),
                    decreases b@.len() - k,
                {
                    out.push(b[k]);
                    k = k + 1;
                }
                proof {
                    assert(out@ =~= b@);
                }
                out
            },
        }
    }
}

} // verus!
