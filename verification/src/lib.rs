//! Algorithms for computing persistent homology over the two-element field,
//! organised around an R = D·V column reduction of a boundary matrix.

use vstd::prelude::*;

pub mod algorithms;
pub mod columns;
pub mod f2;
pub mod options;
pub mod utils;

verus! {

/// Converts an optional column index into the sentinel encoding used by the
/// pivot table.
pub fn option_usize_to_usize(opt: Option<usize>) -> (r: usize)
    requires
        opt matches Some(c) ==> c != usize::MAX,
    ensures
        opt matches Some(c) ==> r == c,
        opt is None ==> r == usize::MAX,
{
    match opt {
        Some(c) => c,
        None => usize::MAX,
    }
}

/// Converts the sentinel encoding used by the pivot table back into an option.
pub fn usize_to_option_usize(val: usize) -> (r: Option<usize>)
    ensures
        val == usize::MAX ==> r is None,
        val != usize::MAX ==> r == Some(val),
{
    if val == usize::MAX {
        None
    } else {
        Some(val)
    }
}

} // verus!
