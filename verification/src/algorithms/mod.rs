//! Implementations of algorithms for computing an R = D·V decomposition of a
//! boundary matrix over the two-element field, together with the notions
//! their contracts are stated in.

use vstd::prelude::*;

use crate::columns::Column;
use crate::f2::{cols_sorted, idxs_ok, strictly_sorted, xor_sum};

pub(crate) mod engine;
mod lock_free;
mod locking;
pub(crate) mod serial;

pub use lock_free::{LockFreeAlgorithm, LockFreeDecomposition};
pub use locking::{LockingAlgorithm, LockingDecomposition};
pub use serial::{SerialAlgorithm, SerialDecomposition};

verus! {

/// Error type returned when querying a column of V from a decomposition in
/// which V was not maintained.
#[derive(Debug)]
pub struct NoVMatrixError;

/// Every column of the sequence is internally well-formed.
pub open spec fn all_inv<C: Column>(cols: Seq<C>) -> bool {
    forall|i: int| 0 <= i < cols.len() ==> (#[trigger] cols[i]).inv()
}

/// The matrix of entry sequences underlying a sequence of columns.
pub open spec fn ents_of<C: Column>(cols: Seq<C>) -> Seq<Seq<usize>> {
    Seq::new(cols.len(), |i: int| cols[i].ents())
}

/// Well-formed columns have strictly sorted entry sequences.
pub proof fn lemma_ents_sorted<C: Column>(cols: Seq<C>)
    requires
        all_inv(cols),
    ensures
        cols_sorted(ents_of(cols)),
{
    assert forall|j: int| 0 <= j < ents_of(cols).len() implies strictly_sorted(
        #[trigger] ents_of(cols)[j],
    ) by {
        cols[j].lemma_inv_sorted();
    }
}

/// `vents` selects column `i` itself and otherwise only columns to its left:
/// a column of an upper triangular matrix with unit diagonal.
pub open spec fn unit_tri(vents: Seq<usize>, i: usize) -> bool {
    &&& vents.contains(i)
    &&& forall|x: usize| #[trigger] vents.contains(x) ==> x <= i
}

/// `col` is the XOR-sum of a unit-upper-triangular selection of the columns
/// of `d_ents`, with diagonal index `i`.
pub open spec fn spanned(d_ents: Seq<Seq<usize>>, col: Seq<usize>, i: usize) -> bool {
    exists|vs: Seq<usize>|
        strictly_sorted(vs) && unit_tri(vs, i) && idxs_ok(d_ents, vs) && col == xor_sum(d_ents, vs)
}

/// No two non-empty columns share a pivot.
pub open spec fn distinct_pivots<C: Column>(r: Seq<C>) -> bool {
    forall|a: int, b: int|
        0 <= a < b < r.len() && (#[trigger] r[a]).ents().len() > 0 && (#[trigger] r[b]).ents().len()
            > 0 ==> r[a].ents().last() != r[b].ents().last()
}

/// The pair (R, V) is a valid decomposition of the matrix with entry
/// sequences `d_ents`: V is unit upper triangular and R = D·V.
pub open spec fn dv_ok<C: Column>(d_ents: Seq<Seq<usize>>, r: Seq<C>, v: Seq<C>) -> bool {
    &&& v.len() == r.len()
    &&& forall|i: int|
        0 <= i < r.len() ==> {
            &&& unit_tri((#[trigger] v[i]).ents(), i as usize)
            &&& idxs_ok(d_ents, v[i].ents())
            &&& r[i].ents() == xor_sum(d_ents, v[i].ents())
        }
}

/// Every column of `r_ents` lies in the left-to-right column span of
/// `d_ents`, witnessed by some unit-upper-triangular selection.
pub open spec fn spans_ok(d_ents: Seq<Seq<usize>>, r_ents: Seq<Seq<usize>>) -> bool {
    forall|i: int|
        0 <= i < r_ents.len() ==> spanned(d_ents, #[trigger] r_ents[i], i as usize)
}

/// Every entry of every column lies below `h` (the pivot-table height).
pub open spec fn rows_below<C: Column>(cols: Seq<C>, h: int) -> bool {
    forall|j: int, x: usize|
        0 <= j < cols.len() && (#[trigger] cols[j].ents().contains(x)) ==> (x as int) < h
}

/// The height of the pivot table chosen by the options for a matrix of `n`
/// columns.
pub open spec fn height_of(options: crate::options::LoPhatOptions, n: int) -> int {
    match options.column_height {
        Some(h) => h as int,
        None => n,
    }
}

/// The matrix is stratified: every entry of a column lies strictly to its
/// left, one dimension down.  Boundary matrices of filtered complexes have
/// this shape; the clearing optimisation relies on it.
pub open spec fn stratified<C: Column>(cols: Seq<C>) -> bool {
    forall|j: int, x: usize|
        0 <= j < cols.len() && (#[trigger] cols[j].ents().contains(x)) ==> (x as int) < j && cols[
            x as int
        ].dim() + 1 == cols[j].dim()
}

/// The output of an R=DV decomposition: read-only access to the columns of R
/// and (when maintained) V, and the persistence diagram read off them.
pub trait Decomposition<C: Column>: Sized {
    /// The columns of R.
    spec fn r_seq(&self) -> Seq<C>;

    /// The columns of V (empty when V was not maintained).
    spec fn v_seq(&self) -> Seq<C>;

    /// Whether the decomposition carries a V matrix.
    spec fn has_v_spec(&self) -> bool;

    /// Well-formedness of the decomposition.
    spec fn inv(&self) -> bool;

    /// A well-formed decomposition has well-formed columns, and a V matrix of
    /// matching size when V was maintained.
    proof fn lemma_inv(&self)
        requires
            self.inv(),
        ensures
            all_inv(self.r_seq()),
            self.has_v_spec() ==> self.v_seq().len() == self.r_seq().len() && all_inv(
                self.v_seq(),
            ),
    ;

    /// Returns a reference to the column in position `index` of R.
    fn get_r_col(&self, index: usize) -> (r: &C)
        requires
            self.inv(),
            index < self.r_seq().len(),
        ensures
            *r == self.r_seq()[index as int],
    ;

    /// Returns a reference to the column in position `index` of V, or an
    /// error if V was not maintained.
    fn get_v_col(&self, index: usize) -> (r: Result<&C, NoVMatrixError>)
        requires
            self.inv(),
            index < self.r_seq().len(),
        ensures
            self.has_v_spec() ==> (r matches Ok(c) && *c == self.v_seq()[index as int]),
            !self.has_v_spec() ==> r is Err,
    ;

    /// Returns the number of columns in R (equal to the number of columns of
    /// the decomposed matrix).
    fn n_cols(&self) -> (r: usize)
        ensures
            r == self.r_seq().len(),
    ;

    /// Reads off the column pairings which constitute the persistence
    /// diagram: every non-empty column of R is paired with its pivot row,
    /// and the indices missing from every pair are unpaired.
    fn diagram(&self) -> (dgm: crate::utils::PersistenceDiagram)
        requires
            self.inv(),
        ensures
            dgm.paired@ == crate::utils::pairs_of(
                crate::utils::pivots_of(ents_of(self.r_seq())),
            ),
            dgm.unpaired@ == crate::utils::unpaired_of(
                crate::utils::pivots_of(ents_of(self.r_seq())),
                self.r_seq().len() as int,
            ),
    ;

    /// Reports whether the V matrix was maintained for this decomposition.
    fn has_v(&self) -> (r: bool)
        requires
            self.inv(),
        ensures
            r == self.has_v_spec(),
    ;
}

/// Collects the pivots of a vector of columns.
pub fn pivots_of_cols<C: Column>(cols: &Vec<C>) -> (pivots: Vec<Option<usize>>)
    requires
        all_inv(cols@),
    ensures
        pivots@ == crate::utils::pivots_of(ents_of(cols@)),
{
    let ghost goal = crate::utils::pivots_of(ents_of(cols@));
    let n = cols.len();
    let mut pivots: Vec<Option<usize>> = Vec::new();
    let mut i: usize = 0;
    while i < n
        invariant
            i <= n,
            all_inv(cols@),
            n == cols@.len(),
            goal == crate::utils::pivots_of(ents_of(cols@)),
            goal.len() == n,
            pivots@ == goal.take(i as int),
        decreases n - i,
    {
        let p = cols[i].pivot();
        pivots.push(p);
        proof {
            assert(ents_of(cols@)[i as int] == cols@[i as int].ents());
            assert(goal[i as int] == p);
            assert(pivots@ =~= goal.take(i as int + 1));
        }
        i += 1;
    }
    proof {
        assert(goal.take(n as int) =~= goal);
    }
    pivots
}

/// All-zero input columns reduce to all-zero columns: anything in the span
/// of empty columns is empty.  Together with the diagram read-off, every
/// index of such an input ends up unpaired.
pub proof fn lemma_zero_matrix_reduces_to_zero(d_ents: Seq<Seq<usize>>, r_ents: Seq<Seq<usize>>)
    requires
        forall|j: int| 0 <= j < d_ents.len() ==> (#[trigger] d_ents[j]).len() == 0,
        spans_ok(d_ents, r_ents),
    ensures
        forall|i: int| 0 <= i < r_ents.len() ==> (#[trigger] r_ents[i]).len() == 0,
{
    assert forall|i: int| 0 <= i < r_ents.len() implies (#[trigger] r_ents[i]).len() == 0 by {
        assert(spanned(d_ents, r_ents[i], i as usize));
        let vs = choose|vs: Seq<usize>|
            strictly_sorted(vs) && unit_tri(vs, i as usize) && idxs_ok(d_ents, vs) && r_ents[i]
                == xor_sum(d_ents, vs);
        crate::f2::lemma_xor_sum_empty_cols(d_ents, vs);
    }
}

} // verus!
