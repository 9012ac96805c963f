//! Options for all algorithms.

use vstd::prelude::*;

verus! {

/// A simple struct for specifying options for R=DV decompositions.
#[derive(Copy, Clone, Debug)]
pub struct LoPhatOptions {
    /// If true, the full R=DV decomposition is kept and columns of V can be
    /// queried; otherwise V queries fail.
    pub maintain_v: bool,
    /// Desired number of worker threads; `0` means "use the global pool".
    pub num_threads: usize,
    /// An optional hint to the height of the columns.  If `None`, assumed to
    /// be the number of columns.  All row indices must lie below it.
    pub column_height: Option<usize>,
    /// When splitting work, chunks are never smaller than this size.
    pub min_chunk_len: usize,
    /// Whether to employ the clearing optimisation.  Only sound when the
    /// input matrix is a chain-complex boundary matrix.
    pub clearing: bool,
}

impl LoPhatOptions {
    /// Assembles an options struct from its five fields.
    pub fn new(
        maintain_v: bool,
        num_threads: usize,
        column_height: Option<usize>,
        min_chunk_len: usize,
        clearing: bool,
    ) -> (r: Self)
        ensures
            r == (LoPhatOptions { maintain_v, num_threads, column_height, min_chunk_len, clearing }),
    {
        LoPhatOptions { maintain_v, num_threads, column_height, min_chunk_len, clearing }
    }
}

impl Default for LoPhatOptions {
    /// The default options: no V, global thread pool, height equal to the
    /// number of columns, chunks of at least one column, clearing on.
    fn default() -> (r: Self)
        ensures
            r == (LoPhatOptions {
                maintain_v: false,
                num_threads: 0,
                column_height: None,
                min_chunk_len: 1,
                clearing: true,
            }),
    {
        LoPhatOptions {
            maintain_v: false,
            num_threads: 0,
            column_height: None,
            min_chunk_len: 1,
            clearing: true,
        }
    }
}

} // verus!
