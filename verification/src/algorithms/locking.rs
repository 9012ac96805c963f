use vstd::prelude::*;

use super::engine::{cells_pre, cells_r, cells_v, decompose_cells, push_cols, toggle_entries};
use super::serial::apply_entries;
use super::{
    all_inv, distinct_pivots, dv_ok, ents_of, height_of, rows_below, spans_ok, stratified,
    Decomposition, NoVMatrixError,
};
use crate::columns::Column;
use crate::options::LoPhatOptions;
use crate::utils::{diagram_from_pivots, pivots_of, PersistenceDiagram};

verus! {

/// A locking variant of the pivot-table reducer: rather than publishing
/// column snapshots through an atomic cell, each column cell is guarded for
/// exclusive update, with reads cloning under the guard.  The reduction
/// protocol, and so the contract, is the same as the lock-free reducer's.
pub struct LockingAlgorithm<C: Column> {
    matrix: Vec<(C, Option<C>)>,
    options: LoPhatOptions,
    max_dim: usize,
}

/// Return type of [`LockingAlgorithm::decompose`].
pub struct LockingDecomposition<C: Column> {
    cells: Vec<(C, Option<C>)>,
    has_v: bool,
}

impl<C: Column> LockingAlgorithm<C> {
    /// The columns of the matrix built up so far.
    pub closed spec fn r_seq(&self) -> Seq<C> {
        cells_r(self.matrix@)
    }

    /// The options the reducer was initialised with.
    pub closed spec fn opts(&self) -> LoPhatOptions {
        self.options
    }

    /// Whether the algorithm maintains the V matrix.
    pub open spec fn maintains_v(&self) -> bool {
        self.opts().maintain_v
    }

    /// Well-formedness during the build-up phase.
    pub closed spec fn wf_pre(&self) -> bool {
        &&& cells_pre(self.matrix@, self.options.maintain_v)
        &&& forall|i: int|
            0 <= i < self.matrix@.len() ==> (#[trigger] self.matrix@[i]).0.dim()
                <= self.max_dim as nat
    }

    /// An empty reducer with the provided options (or the default ones).
    pub fn init(options: Option<LoPhatOptions>) -> (r: Self)
        ensures
            r.wf_pre(),
            r.r_seq().len() == 0,
            r.opts() == match options {
                Some(o) => o,
                None => LoPhatOptions {
                    maintain_v: false,
                    num_threads: 0,
                    column_height: None,
                    min_chunk_len: 1,
                    clearing: true,
                },
            },
    {
        let options = match options {
            Some(o) => o,
            None => LoPhatOptions::default(),
        };
        Self { matrix: Vec::new(), options, max_dim: 0 }
    }

    /// Pushes the provided columns onto the end of the matrix; when V is
    /// maintained, each new column's V-column starts as the corresponding
    /// singleton.
    pub fn add_cols(self, cols: Vec<C>) -> (r: Self)
        requires
            self.wf_pre(),
            all_inv(cols@),
        ensures
            r.wf_pre(),
            r.r_seq() == self.r_seq() + cols@,
            r.opts() == self.opts(),
    {
        let mut this = self;
        let mut k: usize = 0;
        let ghost pre = this.matrix@;
        while k < cols.len()
            invariant
                k <= cols@.len(),
                all_inv(cols@),
                this.matrix@ == pre,
                this.options == self.opts(),
                forall|i: int|
                    0 <= i < this.matrix@.len() ==> (#[trigger] this.matrix@[i]).0.dim()
                        <= this.max_dim as nat,
                forall|i: int| 0 <= i < k ==> (#[trigger] cols@[i]).dim() <= this.max_dim as nat,
            decreases cols@.len() - k,
        {
            let d = cols[k].dimension();
            if d > this.max_dim {
                this.max_dim = d;
            }
            k += 1;
        }
        push_cols(&mut this.matrix, cols, this.options.maintain_v);
        proof {
            assert forall|i: int|
                0 <= i < this.matrix@.len() implies (#[trigger] this.matrix@[i]).0.dim()
                <= this.max_dim as nat by {
                assert(cells_r(this.matrix@)[i] == this.matrix@[i].0);
                assert(cells_r(this.matrix@)[i] == (cells_r(pre) + cols@)[i]);
                if i < pre.len() {
                    assert(cells_r(pre)[i] == pre[i].0);
                }
            }
            assert(this.r_seq() == self.r_seq() + cols@);
        }
        this
    }

    /// Toggles the provided (row, column) entries of the matrix.  Every
    /// column index must denote a column already added.
    pub fn add_entries(self, entries: Vec<(usize, usize)>) -> (r: Self)
        requires
            self.wf_pre(),
            forall|k: int|
                0 <= k < entries@.len() ==> (#[trigger] entries@[k]).1 < self.r_seq().len(),
        ensures
            r.wf_pre(),
            r.r_seq().len() == self.r_seq().len(),
            ents_of(r.r_seq()) == apply_entries(ents_of(self.r_seq()), entries@),
            forall|i: int|
                0 <= i < r.r_seq().len() ==> (#[trigger] r.r_seq()[i]).dim()
                    == self.r_seq()[i].dim(),
            r.opts() == self.opts(),
    {
        let mut this = self;
        let ghost pre = this.matrix@;
        toggle_entries(&mut this.matrix, entries, Ghost(this.options.maintain_v));
        proof {
            assert forall|i: int|
                0 <= i < this.matrix@.len() implies (#[trigger] this.matrix@[i]).0.dim()
                <= this.max_dim as nat by {
                assert(this.matrix@[i].0.dim() == pre[i].0.dim());
            }
            assert forall|i: int|
                0 <= i < this.r_seq().len() implies (#[trigger] this.r_seq()[i]).dim()
                == cells_r(pre)[i].dim() by {
                assert(this.r_seq()[i] == this.matrix@[i].0);
                assert(cells_r(pre)[i] == pre[i].0);
            }
        }
        this
    }

    /// Decomposes the built-up matrix with the same descending-dimension
    /// protocol as the lock-free reducer.
    pub fn decompose(self) -> (r: LockingDecomposition<C>)
        requires
            self.wf_pre(),
            rows_below(self.r_seq(), height_of(self.opts(), self.r_seq().len() as int)),
            self.opts().clearing ==> stratified(self.r_seq()),
        ensures
            r.inv(),
            r.r_seq().len() == self.r_seq().len(),
            forall|i: int|
                0 <= i < r.r_seq().len() ==> (#[trigger] r.r_seq()[i]).dim()
                    == self.r_seq()[i].dim(),
            distinct_pivots(r.r_seq()),
            r.has_v_spec() == self.maintains_v(),
            !self.opts().clearing ==> spans_ok(ents_of(self.r_seq()), ents_of(r.r_seq())),
            (!self.opts().clearing && self.maintains_v()) ==> dv_ok(
                ents_of(self.r_seq()),
                r.r_seq(),
                r.v_seq(),
            ),
    {
        let ghost pre = self.matrix@;
        let options = self.options;
        let max_dim = self.max_dim;
        proof {
            assert forall|j: int, x: usize|
                0 <= j < cells_r(pre).len() && (#[trigger] cells_r(pre)[j].ents().contains(x))
                    implies (x as int) < height_of(options, pre.len() as int) by {}
        }
        let cells = decompose_cells(self.matrix, options, max_dim);
        proof {
            assert forall|i: int|
                0 <= i < cells@.len() implies (#[trigger] cells_r(cells@)[i]).dim() == cells_r(
                pre,
            )[i].dim() by {
                assert(cells_r(cells@)[i] == cells@[i].0);
                assert(cells_r(pre)[i] == pre[i].0);
            }
        }
        LockingDecomposition { cells, has_v: options.maintain_v }
    }
}

impl<C: Column> Decomposition<C> for LockingDecomposition<C> {
    /// The columns of R.
    closed spec fn r_seq(&self) -> Seq<C> {
        cells_r(self.cells@)
    }

    /// The columns of V (meaningful only when V was maintained).
    closed spec fn v_seq(&self) -> Seq<C> {
        cells_v(self.cells@)
    }

    /// Whether the decomposition carries a V matrix.
    closed spec fn has_v_spec(&self) -> bool {
        self.has_v
    }

    /// Well-formedness of the decomposition.
    closed spec fn inv(&self) -> bool {
        forall|i: int|
            0 <= i < self.cells@.len() ==> {
                &&& (#[trigger] self.cells@[i]).0.inv()
                &&& (self.has_v <==> self.cells@[i].1 is Some)
                &&& (self.cells@[i].1 matches Some(vc) ==> vc.inv())
            }
    }

    proof fn lemma_inv(&self) {
        assert forall|i: int|
            0 <= i < self.r_seq().len() implies (#[trigger] self.r_seq()[i]).inv() by {
            assert(self.r_seq()[i] == self.cells@[i].0);
        }
        if self.has_v {
            assert forall|i: int|
                0 <= i < self.v_seq().len() implies (#[trigger] self.v_seq()[i]).inv() by {
                assert(self.cells@[i].1 is Some);
            }
        }
    }

    fn get_r_col(&self, index: usize) -> (r: &C) {
        proof {
            assert(self.r_seq()[index as int] == self.cells@[index as int].0);
        }
        &self.cells[index].0
    }

    fn get_v_col(&self, index: usize) -> (r: Result<&C, NoVMatrixError>) {
        match &self.cells[index].1 {
            Some(v) => {
                proof {
                    assert(self.v_seq()[index as int] == self.cells@[index as int].1->Some_0);
                }
                Ok(v)
            },
            None => Err(NoVMatrixError),
        }
    }

    fn n_cols(&self) -> (r: usize) {
        self.cells.len()
    }

    fn diagram(&self) -> (dgm: PersistenceDiagram) {
        let ghost goal = pivots_of(ents_of(self.r_seq()));
        let n = self.cells.len();
        let mut pivots: Vec<Option<usize>> = Vec::new();
        let mut i: usize = 0;
        while i < n
            invariant
                i <= n,
                self.inv(),
                n == self.cells@.len(),
                goal == pivots_of(ents_of(self.r_seq())),
                goal.len() == n,
                pivots@ == goal.take(i as int),
            decreases n - i,
        {
            let p = self.cells[i].0.pivot();
            pivots.push(p);
            proof {
                assert(self.r_seq()[i as int] == self.cells@[i as int].0);
                assert(ents_of(self.r_seq())[i as int] == self.r_seq()[i as int].ents());
                assert(goal[i as int] == p);
                assert(pivots@ =~= goal.take(i as int + 1));
            }
            i += 1;
        }
        proof {
            assert(goal.take(n as int) =~= goal);
        }
        diagram_from_pivots(&pivots)
    }

    fn has_v(&self) -> (r: bool) {
        self.has_v
    }
}

} // verus!
