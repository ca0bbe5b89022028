use vstd::prelude::*;

verus! {

/// How the blocks of a column are packed.
#[derive(Debug, Clone, Copy, PartialEq, Eq, Structural)]
pub enum Compression {
    Uncompressed,
    LZ4,
}

impl Compression {
    /// The byte that names the compression in a column header.
    pub open spec fn spec_id(self) -> u8 {
        match self {
            Compression::Uncompressed => 0xff,
            Compression::LZ4 => 0x01,
        }
    }

    #[verifier::when_used_as_spec(spec_id)]
    pub fn id(self) -> (b: u8)
        ensures
            b == self.spec_id(),
    {
        match self {
            Compression::Uncompressed => 0xff,
            Compression::LZ4 => 0x01,
        }
    }
}

/// The number of lines that go to a worker at a time.
pub const CHUNK_LINES: usize = 1000;

/// The number of chunks that may wait for each worker.
pub const CHUNKS_PER_WORKER: usize = 4;

/// The settings of one conversion run.
#[derive(Debug)]
pub struct Conf {
    /// Columns to write as dimensions; empty means every column that is
    /// not a metric.
    pub dimensions: Vec<String>,
    /// Columns to write as metrics.
    pub metrics: Vec<String>,
    /// Directory that receives the segment files.
    pub output: String,
    pub compression: Compression,
    /// Number of worker threads that parse records.
    pub threads: usize,
    /// Input file, or directory of input files.
    pub file: String,
}

impl Conf {
    /// True when the caller chose the columns, which is when the text
    /// index of column spans is written.
    pub open spec fn spec_explicit_selection(&self) -> bool {
        self.dimensions@.len() > 0 || self.metrics@.len() > 0
    }

    /// The number of chunks of lines that may wait for the workers before
    /// the reader has to wait for them: a few for each worker. There is
    /// none where that number is not a `usize`.
    pub fn queue_bound(&self) -> (r: Option<usize>)
        ensures
            match r {
                Some(n) => n == self.threads * CHUNKS_PER_WORKER,
                None => self.threads * CHUNKS_PER_WORKER > usize::MAX,
            },
    {
        self.threads.checked_mul(CHUNKS_PER_WORKER)
    }

    #[verifier::when_used_as_spec(spec_explicit_selection)]
    pub fn explicit_selection(&self) -> (b: bool)
        ensures
            b == self.spec_explicit_selection(),
    {
        self.dimensions.len() > 0 || self.metrics.len() > 0
    }
}

} // verus!
