//! Utility functions and structs, including persistence diagrams and matrix
//! anti-transposition.

use vstd::prelude::*;

use crate::columns::{Column, ColumnMode};

mod anti_transpose;
mod diagram;
mod file_format;

pub use anti_transpose::{
    anti_transpose, anti_transpose_diagram, at_rel, entries_below,
    lemma_anti_transpose_involution, lemma_max_dim_attained, lemma_max_dim_bound, max_dim_of,
};
pub use diagram::{
    coords_distinct, count_idx, diagram_from_pivots, idx_in_pairs, lemma_all_zero_unpaired,
    lemma_diagram_essential_count, lemma_empty_diagram, lemma_essential_class_count,
    lemma_pairs_of_props,
    lemma_unpaired_of_props, pairs_of, pivots_of, unpaired_of, PersistenceDiagram,
};
pub use file_format::{clone_to_file_format, clone_to_veccolumn, DecompositionFileFormat};

verus! {

/// Helper function to set the mode of both columns of an (R, V) pair.
pub(crate) fn set_mode_of_pair<C: Column>(column_pair: &mut (C, Option<C>), mode: ColumnMode)
    requires
        old(column_pair).0.inv(),
        old(column_pair).1 matches Some(c) ==> c.inv(),
    ensures
        final(column_pair).0.inv(),
        final(column_pair).0.ents() == old(column_pair).0.ents(),
        final(column_pair).0.dim() == old(column_pair).0.dim(),
        old(column_pair).1 is Some <==> final(column_pair).1 is Some,
        (final(column_pair).1 matches Some(c) ==> old(column_pair).1 matches Some(o) && c.inv()
            && c.ents() == o.ents() && c.dim() == o.dim()),
{
    column_pair.0.set_mode(mode);
    match &mut column_pair.1 {
        Some(c) => {
            c.set_mode(mode);
        },
        None => {},
    }
}

} // verus!
