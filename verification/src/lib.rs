//! Streaming statistics over sequencing reads: length distributions, base
//! composition, quality-threshold counts, subsampling, k-mer spectra and
//! NX/N50 order statistics, computed in one pass over in-memory records.
use vstd::prelude::*;

pub mod composition;
pub mod kmer;
pub mod nx;
pub mod stats;
pub mod subsample;

verus! {

/// Errors the statistics core can report.
///
/// `ParseError` marks a malformed record (sequence and quality of unequal
/// length); `InvalidArgument` marks a bad parameter (zero stride, a fraction
/// outside (0,1]); `DegenerateInput` marks well-formed but numerically
/// degenerate input (an empty file, a zero-length record where a mean is
/// taken).
#[derive(Clone, Copy, Debug, PartialEq, Eq, Structural)]
pub enum Error {
    ParseError,
    InvalidArgument,
    DegenerateInput,
}

/// One sequencing read: sequence bytes and Phred+33 quality bytes.
pub struct Record {
    pub bases: Vec<u8>,
    pub quals: Vec<u8>,
}

impl Record {
    /// A record is well formed when its quality string is exactly as long as
    /// its sequence.
    pub open spec fn wf(&self) -> bool {
        self.bases@.len() == self.quals@.len()
    }

    /// Builds a record, rejecting mismatched sequence/quality lengths.
    pub fn new(bases: Vec<u8>, quals: Vec<u8>) -> (r: Result<Record, Error>)
        ensures
            bases@.len() == quals@.len() ==> (r matches Ok(rec)
                && rec.bases@ == bases@ && rec.quals@ == quals@ && rec.wf()),
            bases@.len() != quals@.len() ==> r == Err::<Record, Error>(Error::ParseError),
    {
        if bases.len() == quals.len() {
            Ok(Record { bases, quals })
        } else {
            Err(Error::ParseError)
        }
    }

    /// The record length, counted in sequence bases.
    pub fn len(&self) -> (n: usize)
        ensures
            n == self.bases@.len(),
    {
        self.bases.len()
    }
}

/// All records of a file are well formed.
pub open spec fn wf_records(rs: Seq<Record>) -> bool {
    forall|i: int| 0 <= i < rs.len() ==> (#[trigger] rs[i]).wf()
}

} // verus!
