use vstd::prelude::*;

use crate::algorithms::{all_inv, Decomposition, NoVMatrixError};
use crate::columns::{Column, VecColumn};
use crate::f2::{lemma_sorted_same_membership, lemma_sym_diff_props, lemma_toggle_all_sorted};

verus! {

/// A struct which represents the output of an R=DV decomposition in a
/// standardised format: R and V stored as vectors of [`VecColumn`].
#[derive(Debug)]
pub struct DecompositionFileFormat {
    r: Vec<VecColumn>,
    v: Option<Vec<VecColumn>>,
}

impl DecompositionFileFormat {
    /// Constructs the file format record from the provided matrices.
    pub fn new(r: Vec<VecColumn>, v: Option<Vec<VecColumn>>) -> (out: Self)
        requires
            all_inv(r@),
            v matches Some(vc) ==> vc@.len() == r@.len() && all_inv(vc@),
        ensures
            out.inv(),
            out.r_seq() == r@,
            out.has_v_spec() == v is Some,
            (v matches Some(vc) ==> out.v_seq() == vc@),
    {
        Self { r, v }
    }
}

impl Decomposition<VecColumn> for DecompositionFileFormat {
    /// The columns of R.
    closed spec fn r_seq(&self) -> Seq<VecColumn> {
        self.r@
    }

    /// The columns of V (empty when V was not maintained).
    closed spec fn v_seq(&self) -> Seq<VecColumn> {
        match self.v {
            Some(v) => v@,
            None => Seq::empty(),
        }
    }

    /// Whether the record carries a V matrix.
    closed spec fn has_v_spec(&self) -> bool {
        self.v is Some
    }

    /// Well-formedness of the record.
    closed spec fn inv(&self) -> bool {
        &&& all_inv(self.r@)
        &&& match self.v {
            Some(v) => v@.len() == self.r@.len() && all_inv(v@),
            None => true,
        }
    }

    proof fn lemma_inv(&self) {
    }

    fn get_r_col(&self, index: usize) -> (r: &VecColumn) {
        &self.r[index]
    }

    fn get_v_col(&self, index: usize) -> (r: Result<&VecColumn, NoVMatrixError>) {
        match &self.v {
            Some(v) => Ok(&v[index]),
            None => Err(NoVMatrixError),
        }
    }

    fn n_cols(&self) -> (r: usize) {
        self.r.len()
    }

    fn diagram(&self) -> (dgm: crate::utils::PersistenceDiagram) {
        let pivots = crate::algorithms::pivots_of_cols(&self.r);
        crate::utils::diagram_from_pivots(&pivots)
    }

    fn has_v(&self) -> (r: bool) {
        match &self.v {
            Some(_) => true,
            None => false,
        }
    }
}

/// Clones the column, converting it to [`VecColumn`] format.
pub fn clone_to_veccolumn<C: Column>(col: &C) -> (out: VecColumn)
    requires
        col.inv(),
    ensures
        out.inv(),
        out.ents() == col.ents(),
        out.dim() == col.dim(),
{
    let dim = col.dimension();
    let mut output = VecColumn::new_with_dimension(dim);
    let entries = col.entries();
    let ghost empty_ents = output.ents();
    proof {
        col.lemma_inv_sorted();
    }
    output.add_entries(&entries);
    proof {
        lemma_toggle_all_sorted(empty_ents, entries@);
        lemma_sym_diff_props(empty_ents, entries@);
        output.lemma_inv_sorted();
        lemma_sorted_same_membership(output.ents(), entries@);
    }
    output
}

/// Converts the provided decomposition to [`DecompositionFileFormat`], making
/// a copy in memory with every column in [`VecColumn`] format.
pub fn clone_to_file_format<C: Column, Algo: Decomposition<C>>(algo: &Algo) -> (out:
    DecompositionFileFormat)
    requires
        algo.inv(),
    ensures
        out.inv(),
        out.r_seq().len() == algo.r_seq().len(),
        forall|i: int|
            0 <= i < algo.r_seq().len() ==> (#[trigger] out.r_seq()[i]).ents() == algo.r_seq()[
                i
            ].ents() && out.r_seq()[i].dim() == algo.r_seq()[i].dim(),
        out.has_v_spec() == algo.has_v_spec(),
        algo.has_v_spec() ==> forall|i: int|
            0 <= i < algo.r_seq().len() ==> (#[trigger] out.v_seq()[i]).ents() == algo.v_seq()[
                i
            ].ents() && out.v_seq()[i].dim() == algo.v_seq()[i].dim(),
{
    let n = algo.n_cols();
    proof {
        algo.lemma_inv();
    }
    let mut r: Vec<VecColumn> = Vec::new();
    let mut i: usize = 0;
    while i < n
        invariant
            i <= n,
            algo.inv(),
            n == algo.r_seq().len(),
            r@.len() == i,
            all_inv(r@),
            forall|j: int|
                0 <= j < i ==> (#[trigger] r@[j]).ents() == algo.r_seq()[j].ents() && r@[j].dim()
                    == algo.r_seq()[j].dim(),
        decreases n - i,
    {
        proof {
            algo.lemma_inv();
        }
        let col = algo.get_r_col(i);
        let vc = clone_to_veccolumn(col);
        r.push(vc);
        i += 1;
    }
    let has_v = algo.has_v();
    let v: Option<Vec<VecColumn>> = if has_v {
        let mut v: Vec<VecColumn> = Vec::new();
        let mut i: usize = 0;
        while i < n
            invariant
                i <= n,
                algo.inv(),
                algo.has_v_spec(),
                n == algo.r_seq().len(),
                v@.len() == i,
                all_inv(v@),
                forall|j: int|
                    0 <= j < i ==> (#[trigger] v@[j]).ents() == algo.v_seq()[j].ents()
                        && v@[j].dim() == algo.v_seq()[j].dim(),
            decreases n - i,
        {
            proof {
                algo.lemma_inv();
            }
            let col = match algo.get_v_col(i) {
                Ok(c) => c,
                Err(_) => {
                    proof {
                        assert(false);
                    }
                    algo.get_r_col(i)
                },
            };
            let vc = clone_to_veccolumn(col);
            v.push(vc);
            i += 1;
        }
        Some(v)
    } else {
        None
    };
    DecompositionFileFormat { r, v }
}

} // verus!
