//! The column-reduction protocol shared by the pivot-table based reducers.
//!
//! The state is a matrix of publishable (R, V) column cells together with a
//! pivot table mapping each row to the column currently claiming it (with a
//! sentinel for "unclaimed").  A column is reduced by repeatedly resolving
//! its pivot against the table: a lower-indexed claimant is added into the
//! working column; a higher-indexed claimant is preempted, after which the
//! worker re-drives the preempted column; an unclaimed pivot is claimed by a
//! compare-exchange, finishing the column.
//!
//! The protocol is verified as a deterministic state machine: one worker at a
//! time performs reads, publishes and compare-exchanges, so cells are owned
//! slots, and a compare-exchange can fail only where a proof shows it cannot.
//! The thread-count and chunking options are accepted and ignored.

use vstd::prelude::*;

use super::{ents_of, spanned, unit_tri};
use crate::columns::{Column, ColumnMode};
use crate::f2::{
    cols_sorted, idxs_ok, lemma_singleton_contains, lemma_sym_diff_pivot_lt, lemma_sym_diff_props,
    lemma_xor_linear, lemma_xor_singleton, pivot_rank, strictly_sorted, sym_diff, xor_sum,
};
use crate::options::LoPhatOptions;
use crate::utils::set_mode_of_pair;
use crate::{option_usize_to_usize, usize_to_option_usize};

verus! {

/// The shared reduction state: one publishable cell per column, and the
/// atomic pivot table with `usize::MAX` as the "unclaimed" sentinel.
pub(crate) struct Engine<C: Column> {
    pub matrix: Vec<(C, Option<C>)>,
    pub pivots: Vec<usize>,
    pub maintain_v: bool,
    /// The entry sequences of the input matrix, fixed when reduction starts.
    pub d_ents: Ghost<Seq<Seq<usize>>>,
    /// Whether every cell still relates R to the input through V; turned off
    /// by clearing, which rewrites cells wholesale.
    pub track_dv: Ghost<bool>,
    /// Whether the input is stratified: entries of a column lie strictly to
    /// its left, one dimension down.  Required for clearing.
    pub strat: Ghost<bool>,
}

impl<C: Column> Engine<C> {
    /// Number of columns.
    pub(crate) open spec fn n(&self) -> int {
        self.matrix@.len() as int
    }

    /// Height of the pivot table.
    pub(crate) open spec fn h(&self) -> int {
        self.pivots@.len() as int
    }

    /// The entries of the R column in cell `m`.
    pub(crate) open spec fn r_ents(&self, m: int) -> Seq<usize> {
        self.matrix@[m].0.ents()
    }

    /// The dimensions of the stored R columns.
    pub(crate) open spec fn dims(&self) -> Seq<nat> {
        Seq::new(self.matrix@.len(), |m: int| self.matrix@[m].0.dim())
    }

    /// Internal well-formedness of cell `m`.
    pub(crate) open spec fn cell_ok(&self, m: int) -> bool {
        &&& self.matrix@[m].0.inv()
        &&& (self.maintain_v <==> self.matrix@[m].1 is Some)
        &&& (self.matrix@[m].1 matches Some(vc) ==> vc.inv() && vc.dim() == self.matrix@[m].0.dim())
    }

    /// The pivot-table invariant: a claimed row is claimed by a real column
    /// whose published pivot is that row.
    pub(crate) open spec fn claim_ok(&self, l: int) -> bool {
        self.pivots@[l] != usize::MAX ==> {
            &&& (self.pivots@[l] as int) < self.n()
            &&& self.r_ents(self.pivots@[l] as int).len() > 0
            &&& self.r_ents(self.pivots@[l] as int).last() as int == l
        }
    }

    /// Every entry of every column lies below the pivot-table height.
    pub(crate) open spec fn heights_ok(&self) -> bool {
        forall|m: int, x: usize|
            0 <= m < self.n() && (#[trigger] self.r_ents(m).contains(x)) ==> (x as int) < self.h()
    }

    /// Cell `m` relates R to the input matrix through its V column.
    pub(crate) open spec fn dv_cell(&self, m: int) -> bool {
        match self.matrix@[m].1 {
            Some(vc) => unit_tri(vc.ents(), m as usize) && idxs_ok(self.d_ents@, vc.ents())
                && self.r_ents(m) == xor_sum(self.d_ents@, vc.ents()),
            None => true,
        }
    }

    /// Cell `m`'s R column lies in the left-to-right span of the input.
    pub(crate) open spec fn span_cell(&self, m: int) -> bool {
        spanned(self.d_ents@, self.r_ents(m), m as usize)
    }

    /// Stratification of cell `m`: entries lie strictly to the left, one
    /// dimension down.
    pub(crate) open spec fn strat_cell(&self, m: int) -> bool {
        forall|x: usize|
            (#[trigger] self.r_ents(m).contains(x)) ==> (x as int) < m && self.dims()[x as int] + 1
                == self.matrix@[m].0.dim()
    }

    /// The protocol invariant.
    pub(crate) open spec fn inv(&self) -> bool {
        &&& self.matrix@.len() <= usize::MAX
        &&& self.d_ents@.len() == self.n()
        &&& cols_sorted(self.d_ents@)
        &&& forall|m: int| 0 <= m < self.n() ==> self.cell_ok(m)
        &&& forall|l: int| 0 <= l < self.h() ==> self.claim_ok(l)
        &&& self.heights_ok()
        &&& (self.track_dv@ ==> forall|m: int|
            0 <= m < self.n() ==> self.span_cell(m) && self.dv_cell(m))
        &&& (self.strat@ ==> forall|m: int| 0 <= m < self.n() ==> self.strat_cell(m))
    }

    /// Every claim in the pivot table points into `t`.
    pub(crate) open spec fn claims_in(&self, t: Set<int>) -> bool {
        forall|l: int|
            0 <= l < self.h() && (#[trigger] self.pivots@[l]) != usize::MAX ==> t.contains(
                self.pivots@[l] as int,
            )
    }

    /// No claim in the pivot table points to column `m`.
    pub(crate) open spec fn unclaimed(&self, m: int) -> bool {
        forall|l: int| 0 <= l < self.h() ==> (#[trigger] self.pivots@[l]) as int != m || self.pivots@[l] == usize::MAX
    }

    /// A non-empty column is settled when it claims its own pivot.
    pub(crate) open spec fn settled(&self, m: int) -> bool {
        self.r_ents(m).len() > 0 ==> {
            &&& (self.r_ents(m).last() as int) < self.h()
            &&& self.pivots@[self.r_ents(m).last() as int] as int == m
            &&& self.pivots@[self.r_ents(m).last() as int] != usize::MAX
        }
    }

    /// Every column of `t` is settled.
    pub(crate) open spec fn settled_on(&self, t: Set<int>) -> bool {
        forall|m: int| 0 <= m < self.n() && t.contains(m) ==> self.settled(m)
    }

    /// The parts of the state that the protocol never changes.
    pub(crate) open spec fn frame_ok(&self, prev: &Self) -> bool {
        &&& self.matrix@.len() == prev.matrix@.len()
        &&& self.pivots@.len() == prev.pivots@.len()
        &&& self.maintain_v == prev.maintain_v
        &&& self.d_ents == prev.d_ents
        &&& self.dims() == prev.dims()
        &&& self.strat == prev.strat
        &&& (self.track_dv@ ==> prev.track_dv@)
    }

    /// Reads the pivot table at `idx`, mapping the sentinel to `None`.
    pub(crate) fn get_pivot(&self, idx: usize) -> (r: Option<usize>)
        requires
            (idx as int) < self.h(),
        ensures
            r == if self.pivots@[idx as int] == usize::MAX {
                None::<usize>
            } else {
                Some(self.pivots@[idx as int])
            },
    {
        let piv = self.pivots[idx];
        usize_to_option_usize(piv)
    }

    /// Attempts to compare-exchange position `idx` of the pivot table, and
    /// returns whether the exchange took place.
    pub(crate) fn cew_pivot_succeeds(
        &mut self,
        idx: usize,
        current: Option<usize>,
        new: Option<usize>,
    ) -> (r: bool)
        requires
            (idx as int) < old(self).h(),
            (current matches Some(c) ==> c != usize::MAX),
            (new matches Some(c) ==> c != usize::MAX),
        ensures
            final(self).matrix == old(self).matrix,
            final(self).maintain_v == old(self).maintain_v,
            final(self).d_ents == old(self).d_ents,
            final(self).track_dv == old(self).track_dv,
            final(self).strat == old(self).strat,
            r == (old(self).pivots@[idx as int] == match current {
                Some(c) => c,
                None => usize::MAX,
            }),
            r ==> final(self).pivots@ == old(self).pivots@.update(
                idx as int,
                match new {
                    Some(c) => c,
                    None => usize::MAX,
                },
            ),
            !r ==> final(self).pivots@ == old(self).pivots@,
    {
        let current = option_usize_to_usize(current);
        let new = option_usize_to_usize(new);
        let observed = self.pivots[idx];
        if observed == current {
            let slot = vstd::std_specs::vec::vec_index_mut(&mut self.pivots, idx);
            *slot = new;
            true
        } else {
            false
        }
    }

    /// An owned snapshot of cell `m`.
    pub(crate) fn read_cell(&self, m: usize) -> (pair: (C, Option<C>))
        requires
            self.inv(),
            (m as int) < self.n(),
        ensures
            pair.0.inv(),
            pair.0.ents() == self.r_ents(m as int),
            pair.0.dim() == self.matrix@[m as int].0.dim(),
            self.maintain_v <==> pair.1 is Some,
            (pair.1 matches Some(vc) ==> self.matrix@[m as int].1 matches Some(wc) && vc.inv()
                && vc.ents() == wc.ents() && vc.dim() == wc.dim()),
    {
        proof {
            assert(self.cell_ok(m as int));
        }
        let r = self.matrix[m].0.cloned();
        let v = match &self.matrix[m].1 {
            Some(vc) => Some(vc.cloned()),
            None => None,
        };
        (r, v)
    }

    /// Publishes a pair to cell `index`, in storage mode.  The cell must be
    /// free of claims, and the pair must respect the protocol invariants.
    pub(crate) fn write_to_matrix(&mut self, index: usize, to_write: (C, Option<C>))
        requires
            old(self).inv(),
            (index as int) < old(self).n(),
            old(self).unclaimed(index as int),
            to_write.0.inv(),
            (old(self).maintain_v <==> to_write.1 is Some),
            (to_write.1 matches Some(vc) ==> vc.inv() && vc.dim() == to_write.0.dim()),
            to_write.0.dim() == old(self).dims()[index as int],
            forall|x: usize|
                #[trigger] to_write.0.ents().contains(x) ==> (x as int) < old(self).h(),
            old(self).track_dv@ ==> spanned(old(self).d_ents@, to_write.0.ents(), index) && (
            to_write.1 matches Some(vc) ==> unit_tri(vc.ents(), index) && idxs_ok(
                old(self).d_ents@,
                vc.ents(),
            ) && to_write.0.ents() == xor_sum(old(self).d_ents@, vc.ents())),
            old(self).strat@ ==> forall|x: usize|
                #[trigger] to_write.0.ents().contains(x) ==> (x as int) < index && old(
                    self,
                ).dims()[x as int] + 1 == to_write.0.dim(),
        ensures
            final(self).inv(),
            final(self).frame_ok(old(self)),
            final(self).pivots == old(self).pivots,
            final(self).track_dv == old(self).track_dv,
            final(self).r_ents(index as int) == to_write.0.ents(),
            (final(self).matrix@[index as int].1 matches Some(vc) ==> to_write.1 matches Some(wc)
                && vc.ents() == wc.ents() && vc.dim() == wc.dim()),
            forall|m: int|
                0 <= m < final(self).n() && m != index ==> final(self).matrix@[m] == old(
                    self,
                ).matrix@[m],
    {
        let ghost prev = *self;
        let mut to_write = to_write;
        set_mode_of_pair(&mut to_write, ColumnMode::Storage);
        let slot = vstd::std_specs::vec::vec_index_mut(&mut self.matrix, index);
        *slot = to_write;
        proof {
            assert(self.matrix@ == prev.matrix@.update(index as int, to_write));
            assert(self.matrix@[index as int] == to_write);
            assert forall|m: int| 0 <= m < self.n() implies self.cell_ok(m) by {
                if m != index {
                    assert(self.matrix@[m] == prev.matrix@[m]);
                    assert(prev.cell_ok(m));
                }
            }
            assert forall|l: int| 0 <= l < self.h() implies self.claim_ok(l) by {
                assert(prev.claim_ok(l));
                if self.pivots@[l] != usize::MAX {
                    assert((self.pivots@[l] as int) != index as int);
                    assert(self.matrix@[self.pivots@[l] as int] == prev.matrix@[self.pivots@[
                        l
                    ] as int]);
                }
            }
            assert(self.heights_ok()) by {
                assert forall|m: int, x: usize|
                    0 <= m < self.n() && (#[trigger] self.r_ents(m).contains(x)) implies (x as int)
                    < self.h() by {
                    if m != index {
                        assert(self.matrix@[m] == prev.matrix@[m]);
                        assert(prev.r_ents(m).contains(x));
                    }
                }
            }
            assert(self.dims() =~= prev.dims()) by {
                assert forall|m: int| 0 <= m < self.n() implies self.dims()[m] == prev.dims()[m] by {
                    if m != index {
                        assert(self.matrix@[m] == prev.matrix@[m]);
                    }
                }
            }
            if self.track_dv@ {
                assert forall|m: int|
                    0 <= m < self.n() implies self.span_cell(m) && self.dv_cell(m) by {
                    if m != index {
                        assert(self.matrix@[m] == prev.matrix@[m]);
                        assert(prev.span_cell(m) && prev.dv_cell(m));
                    }
                }
            }
            if self.strat@ {
                assert forall|m: int| 0 <= m < self.n() implies self.strat_cell(m) by {
                    if m != index {
                        assert(self.matrix@[m] == prev.matrix@[m]);
                        assert(prev.strat_cell(m));
                        assert forall|x: usize|
                            (#[trigger] self.r_ents(m).contains(x)) implies (x as int) < m
                            && self.dims()[x as int] + 1 == self.matrix@[m].0.dim() by {
                            assert(prev.r_ents(m).contains(x));
                        }
                    }
                }
            }
        }
    }

    /// The working pair held by a reducer for column `wj`, together with its
    /// ghost selection witness `gvs`.
    pub(crate) open spec fn working_ok(&self, wj: int, curr: (C, Option<C>), gvs: Seq<usize>) -> bool {
        &&& curr.0.inv()
        &&& curr.0.dim() == self.dims()[wj]
        &&& (self.maintain_v <==> curr.1 is Some)
        &&& (curr.1 matches Some(vc) ==> vc.inv() && vc.dim() == curr.0.dim() && vc.ents() == gvs)
        &&& forall|x: usize| (#[trigger] curr.0.ents().contains(x)) ==> (x as int) < self.h()
        &&& (self.track_dv@ ==> strictly_sorted(gvs) && unit_tri(gvs, wj as usize) && idxs_ok(
            self.d_ents@,
            gvs,
        ) && curr.0.ents() == xor_sum(self.d_ents@, gvs))
        &&& (self.strat@ ==> forall|x: usize|
            (#[trigger] curr.0.ents().contains(x)) ==> (x as int) < wj && self.dims()[x as int] + 1
                == curr.0.dim())
    }

    /// One when the working column is about to preempt a claimant to its
    /// right; the re-drive that follows drops this back to zero.
    pub(crate) open spec fn redrive_flag(&self, ents: Seq<usize>, wj: int) -> int {
        if ents.len() > 0 && (ents.last() as int) < self.h() && self.pivots@[ents.last() as int]
            != usize::MAX && (self.pivots@[ents.last() as int] as int) > wj {
            1
        } else {
            0
        }
    }


    /// The invariant is insensitive to the pivot table except through
    /// `claim_ok`: a state with the same cells and valid claims is valid.
    proof fn lemma_inv_after_pivot_change(pre: &Self, post: &Self)
        requires
            pre.inv(),
            post.matrix == pre.matrix,
            post.maintain_v == pre.maintain_v,
            post.d_ents == pre.d_ents,
            post.track_dv@ ==> pre.track_dv@,
            post.strat == pre.strat,
            post.h() == pre.h(),
            forall|l: int| 0 <= l < post.h() ==> post.claim_ok(l),
        ensures
            post.inv(),
    {
        assert(post.dims() =~= pre.dims()) by {
            assert forall|m: int| 0 <= m < post.n() implies post.dims()[m] == pre.dims()[m] by {
                assert(post.matrix@[m] == pre.matrix@[m]);
            }
        }
        assert forall|m: int| 0 <= m < post.n() implies post.cell_ok(m) by {
            assert(pre.cell_ok(m));
        }
        assert(post.heights_ok()) by {
            assert forall|m: int, x: usize|
                0 <= m < post.n() && (#[trigger] post.r_ents(m).contains(x)) implies (x as int)
                < post.h() by {
                assert(pre.r_ents(m).contains(x));
            }
        }
        if post.track_dv@ {
            assert forall|m: int|
                0 <= m < post.n() implies post.span_cell(m) && post.dv_cell(m) by {
                assert(pre.span_cell(m));
                assert(pre.dv_cell(m));
            }
        }
        if post.strat@ {
            assert forall|m: int| 0 <= m < post.n() implies post.strat_cell(m) by {
                assert(pre.strat_cell(m));
                assert forall|x: usize|
                    (#[trigger] post.r_ents(m).contains(x)) implies (x as int) < m && post.dims()[
                    x as int
                ] + 1 == post.matrix@[m].0.dim() by {
                    assert(pre.r_ents(m).contains(x));
                    assert(post.dims()[x as int] == pre.dims()[x as int]);
                }
            }
        }
    }

    /// Returns the claimant of row `l` together with a snapshot of its cell,
    /// re-validated to still have pivot `l`; `None` when the row is
    /// unclaimed.
    pub(crate) fn get_col_with_pivot(&self, l: usize) -> (r: Option<(usize, (C, Option<C>))>)
        requires
            self.inv(),
            (l as int) < self.h(),
        ensures
            match r {
                None => self.pivots@[l as int] == usize::MAX,
                Some(res) => {
                    &&& self.pivots@[l as int] == res.0
                    &&& self.pivots@[l as int] != usize::MAX
                    &&& (res.0 as int) < self.n()
                    &&& res.1.0.inv()
                    &&& res.1.0.ents() == self.r_ents(res.0 as int)
                    &&& res.1.0.dim() == self.matrix@[res.0 as int].0.dim()
                    &&& res.1.0.ents().len() > 0
                    &&& res.1.0.ents().last() == l
                    &&& (self.maintain_v <==> res.1.1 is Some)
                    &&& (res.1.1 matches Some(vc) ==> self.matrix@[res.0 as int].1 matches Some(wc)
                        && vc.inv() && vc.ents() == wc.ents() && vc.dim() == wc.dim())
                },
            },
    {
        let piv = self.get_pivot(l);
        match piv {
            Some(piv) => {
                proof {
                    assert(self.claim_ok(l as int));
                }
                let cols = self.read_cell(piv);
                let piv_of_col = cols.0.pivot();
                let still_valid = match piv_of_col {
                    Some(x) => x == l,
                    None => false,
                };
                if !still_valid {
                    // A claimant's published column always carries the
                    // claimed pivot; the protocol invariant rules a stale
                    // claim out.
                    proof {
                        assert(false);
                    }
                    return None;
                }
                Some((piv, cols))
            },
            None => None,
        }
    }

    /// Reduces the column at `j` as far as possible.  If a pivot claim to the
    /// right of the working column is preempted, the worker switches to
    /// reducing the preempted column.  The ghost set `t` collects the columns
    /// settled by earlier calls.
    pub(crate) fn reduce_column(&mut self, j: usize, Ghost(t): Ghost<Set<int>>) -> (t2: Ghost<
        Set<int>,
    >)
        requires
            old(self).inv(),
            (j as int) < old(self).n(),
            old(self).claims_in(t),
            old(self).settled_on(t),
            !t.contains(j as int),
        ensures
            final(self).inv(),
            final(self).frame_ok(old(self)),
            final(self).track_dv == old(self).track_dv,
            t2@ == t.insert(j as int),
            final(self).claims_in(t2@),
            final(self).settled_on(t2@),
    {
        let ghost t2 = t.insert(j as int);
        let ghost de = self.d_ents@;
        let mut working_j = j;
        let mut curr = self.read_cell(working_j);
        set_mode_of_pair(&mut curr, ColumnMode::Working);
        let ghost mut gvs: Seq<usize> = match &curr.1 {
            Some(vc) => vc.ents(),
            None => choose|vs: Seq<usize>|
                strictly_sorted(vs) && unit_tri(vs, j as usize) && idxs_ok(de, vs) && curr.0.ents()
                    == xor_sum(de, vs),
        };
        proof {
            assert(self.cell_ok(j as int));
            if self.track_dv@ {
                assert(self.span_cell(j as int));
                assert(self.dv_cell(j as int));
                assert(spanned(de, curr.0.ents(), j as usize));
                match &curr.1 {
                    Some(vc) => {
                        assert(self.matrix@[j as int].1 matches Some(wc) && vc.ents() == wc.ents());
                        vc.lemma_inv_sorted();
                    },
                    None => {
                        assert(strictly_sorted(gvs) && unit_tri(gvs, j as usize) && idxs_ok(de, gvs)
                            && curr.0.ents() == xor_sum(de, gvs));
                    },
                }
            }
            if self.strat@ {
                assert(self.strat_cell(j as int));
            }
            assert(self.dims()[j as int] == self.matrix@[j as int].0.dim());
            assert forall|x: usize|
                (#[trigger] curr.0.ents().contains(x)) implies (x as int) < self.h() by {
                assert(self.r_ents(j as int).contains(x));
            }
            assert(self.working_ok(j as int, curr, gvs));
        }
        loop
            invariant
                self.inv(),
                self.frame_ok(old(self)),
                self.track_dv == old(self).track_dv,
                de == self.d_ents@,
                (j as int) < self.n(),
                (working_j as int) < self.n(),
                working_j as int == j as int || t.contains(working_j as int),
                t2 == t.insert(j as int),
                self.claims_in(t2),
                forall|m: int|
                    0 <= m < self.n() && t2.contains(m) && m != working_j as int ==> self.settled(
                        m,
                    ),
                forall|l: int|
                    0 <= l < self.h() ==> (#[trigger] self.pivots@[l]) as int != working_j as int
                        || self.pivots@[l] == usize::MAX,
                self.working_ok(working_j as int, curr, gvs),
            decreases pivot_rank(curr.0.ents()), self.redrive_flag(curr.0.ents(), working_j as int),
        {
            let ghost pre_self = *self;
            let piv = curr.0.pivot();
            let l: usize;
            match piv {
                Some(q) => {
                    l = q;
                },
                None => {
                    // The working column is a cycle: publish it and finish.
                    proof {
                        if self.track_dv@ {
                            assert(spanned(de, curr.0.ents(), working_j as usize)) by {
                                assert(strictly_sorted(gvs) && unit_tri(gvs, working_j as usize)
                                    && idxs_ok(de, gvs) && curr.0.ents() == xor_sum(de, gvs));
                            }
                        }
                    }
                    self.write_to_matrix(working_j, curr);
                    proof {
                        assert forall|m: int|
                            0 <= m < self.n() && t2.contains(m) implies self.settled(m) by {
                            if m != working_j as int {
                                assert(self.matrix@[m] == pre_self.matrix@[m]);
                                assert(pre_self.settled(m));
                            } else {
                                assert(self.r_ents(m).len() == 0);
                            }
                        }
                    }
                    return Ghost(t2);
                },
            }
            proof {
                curr.0.lemma_inv_sorted();
                assert(curr.0.ents().contains(l)) by {
                    assert(curr.0.ents()[curr.0.ents().len() - 1] == l);
                }
            }
            let resolved = self.get_col_with_pivot(l);
            match resolved {
                Some((piv_idx, piv_column)) => {
                    if piv_idx < working_j {
                        // A claimant to the left: add it into the working column.
                        proof {
                            assert(self.cell_ok(piv_idx as int));
                            self.matrix@[piv_idx as int].0.lemma_inv_sorted();
                        }
                        let ghost pre_ents = curr.0.ents();
                        let ghost vk: Seq<usize> = match &piv_column.1 {
                            Some(vc) => vc.ents(),
                            None => choose|vs: Seq<usize>|
                                strictly_sorted(vs) && unit_tri(vs, piv_idx as usize) && idxs_ok(
                                    de,
                                    vs,
                                ) && piv_column.0.ents() == xor_sum(de, vs),
                        };
                        curr.0.add_col(&piv_column.0);
                        match (&mut curr.1, &piv_column.1) {
                            (Some(vc), Some(wc)) => {
                                vc.add_col(wc);
                            },
                            _ => {},
                        }
                        proof {
                            lemma_sym_diff_pivot_lt(pre_ents, piv_column.0.ents());
                            lemma_sym_diff_props(pre_ents, piv_column.0.ents());
                            let gvs2 = sym_diff(gvs, vk);
                            if self.track_dv@ {
                                assert(self.span_cell(piv_idx as int));
                                assert(self.dv_cell(piv_idx as int));
                                match &piv_column.1 {
                                    Some(vc) => {
                                        assert(self.matrix@[piv_idx as int].1 matches Some(wc)
                                            && vc.ents() == wc.ents());
                                        vc.lemma_inv_sorted();
                                    },
                                    None => {
                                        assert(spanned(de, piv_column.0.ents(), piv_idx as usize));
                                        assert(strictly_sorted(vk) && unit_tri(vk, piv_idx as usize)
                                            && idxs_ok(de, vk) && piv_column.0.ents() == xor_sum(
                                            de,
                                            vk,
                                        ));
                                    },
                                }
                                lemma_xor_linear(de, gvs, vk);
                                lemma_sym_diff_props(gvs, vk);
                                assert(unit_tri(gvs2, working_j)) by {
                                    assert(gvs.contains(working_j));
                                    if vk.contains(working_j) {
                                        assert(working_j <= piv_idx);
                                    }
                                    assert(gvs2.contains(working_j));
                                    assert forall|x: usize|
                                        #[trigger] gvs2.contains(x) implies x <= working_j by {
                                        assert(gvs.contains(x) || vk.contains(x));
                                        if vk.contains(x) {
                                            assert(x <= piv_idx);
                                        }
                                    }
                                }
                                assert(idxs_ok(de, gvs2)) by {
                                    assert forall|m: int|
                                        0 <= m < gvs2.len() implies (#[trigger] gvs2[m])
                                        < de.len() by {
                                        let y = gvs2[m];
                                        assert(gvs2.contains(y));
                                        assert(gvs.contains(y) || vk.contains(y));
                                        if gvs.contains(y) {
                                            let w = choose|w: int| 0 <= w < gvs.len() && gvs[w] == y;
                                        } else {
                                            let w = choose|w: int| 0 <= w < vk.len() && vk[w] == y;
                                        }
                                    }
                                }
                            }
                            gvs = gvs2;
                            // entries stay below the pivot-table height
                            assert forall|x: usize|
                                (#[trigger] curr.0.ents().contains(x)) implies (x as int)
                                < self.h() by {
                                assert(pre_ents.contains(x) || piv_column.0.ents().contains(x));
                                if piv_column.0.ents().contains(x) {
                                    assert(self.r_ents(piv_idx as int).contains(x));
                                }
                            }
                            if self.strat@ {
                                assert(self.strat_cell(piv_idx as int));
                                assert(self.dims()[l as int] + 1 == curr.0.dim()) by {
                                    assert(pre_ents.contains(l));
                                }
                                assert(self.dims()[l as int] + 1 == self.matrix@[
                                    piv_idx as int
                                ].0.dim()) by {
                                    assert(self.r_ents(piv_idx as int).contains(l)) by {
                                        assert(self.r_ents(piv_idx as int)[self.r_ents(
                                            piv_idx as int,
                                        ).len() - 1] == l);
                                    }
                                }
                                assert forall|x: usize|
                                    (#[trigger] curr.0.ents().contains(x)) implies (x as int)
                                    < working_j as int && self.dims()[x as int] + 1
                                    == curr.0.dim() by {
                                    assert(pre_ents.contains(x) || piv_column.0.ents().contains(x));
                                    if piv_column.0.ents().contains(x) {
                                        assert(self.r_ents(piv_idx as int).contains(x));
                                    }
                                }
                            }
                            assert(self.working_ok(working_j as int, curr, gvs));
                        }
                    } else if piv_idx > working_j {
                        // A claimant to the right: publish, preempt its claim,
                        // and re-drive the preempted column.
                        let ghost pre_pub = *self;
                        let ghost curr_snap = curr;
                        proof {
                            if self.track_dv@ {
                                assert(spanned(de, curr.0.ents(), working_j as usize)) by {
                                    assert(strictly_sorted(gvs) && unit_tri(gvs, working_j as usize)
                                        && idxs_ok(de, gvs) && curr.0.ents() == xor_sum(de, gvs));
                                }
                            }
                        }
                        self.write_to_matrix(working_j, curr);
                        let ghost mid = *self;
                        let ok = self.cew_pivot_succeeds(l, Some(piv_idx), Some(working_j));
                        proof {
                            assert(ok);
                            assert(self.pivots@ == mid.pivots@.update(l as int, working_j));
                            assert forall|l2: int| 0 <= l2 < self.h() implies self.claim_ok(l2) by {
                                if l2 == l as int {
                                    assert(self.r_ents(working_j as int) == curr_snap.0.ents());
                                } else {
                                    assert(self.pivots@[l2] == mid.pivots@[l2]);
                                    assert(mid.claim_ok(l2));
                                }
                            }
                            Self::lemma_inv_after_pivot_change(&mid, self);
                            assert(self.inv());
                            assert(self.claims_in(t2)) by {
                                assert forall|l2: int|
                                    0 <= l2 < self.h() && (#[trigger] self.pivots@[l2])
                                        != usize::MAX implies t2.contains(
                                    self.pivots@[l2] as int,
                                ) by {
                                    if l2 != l as int {
                                        assert(self.pivots@[l2] == mid.pivots@[l2]);
                                    }
                                }
                            }
                            // every settled column other than the preempted
                            // one stays settled, and the old working column
                            // is settled now
                            assert forall|m: int|
                                0 <= m < self.n() && t2.contains(m) && m != piv_idx as int implies self.settled(
                                m,
                            ) by {
                                if m == working_j as int {
                                    assert(self.r_ents(m) == curr_snap.0.ents());
                                    assert(self.pivots@[l as int] as int == m);
                                } else {
                                    assert(pre_pub.settled(m));
                                    assert(self.matrix@[m] == pre_pub.matrix@[m]);
                                    if self.r_ents(m).len() > 0 {
                                        let lm = self.r_ents(m).last();
                                        assert(pre_pub.pivots@[lm as int] as int == m);
                                        if lm == l {
                                            assert(mid.pivots@[l as int] as int == m);
                                            assert(mid.pivots@[l as int] == piv_idx);
                                        }
                                        assert(self.pivots@[lm as int] as int == m);
                                        assert(self.pivots@[lm as int] != usize::MAX);
                                    }
                                }
                            }
                            // the preempted column now holds no claim
                            assert forall|l2: int|
                                0 <= l2 < self.h() implies (#[trigger] self.pivots@[l2]) as int
                                != piv_idx as int || self.pivots@[l2] == usize::MAX by {
                                if l2 != l as int && self.pivots@[l2] != usize::MAX && self.pivots@[
                                    l2
                                ] as int == piv_idx as int {
                                    assert(mid.pivots@[l2] == self.pivots@[l2]);
                                    assert(mid.claim_ok(l2));
                                    assert(mid.r_ents(piv_idx as int).last() as int == l2);
                                    assert(mid.r_ents(piv_idx as int).last() == l);
                                }
                            }
                        }
                        working_j = piv_idx;
                        curr = self.read_cell(working_j);
                        set_mode_of_pair(&mut curr, ColumnMode::Working);
                        proof {
                            gvs = match &curr.1 {
                                Some(vc) => vc.ents(),
                                None => choose|vs: Seq<usize>|
                                    strictly_sorted(vs) && unit_tri(vs, working_j as usize)
                                        && idxs_ok(de, vs) && curr.0.ents() == xor_sum(de, vs),
                            };
                            assert(self.cell_ok(working_j as int));
                            if self.track_dv@ {
                                assert(self.span_cell(working_j as int));
                                assert(self.dv_cell(working_j as int));
                                match &curr.1 {
                                    Some(vc) => {
                                        assert(self.matrix@[working_j as int].1 matches Some(wc)
                                            && vc.ents() == wc.ents());
                                        vc.lemma_inv_sorted();
                                    },
                                    None => {
                                        assert(spanned(de, curr.0.ents(), working_j as usize));
                                        assert(strictly_sorted(gvs) && unit_tri(
                                            gvs,
                                            working_j as usize,
                                        ) && idxs_ok(de, gvs) && curr.0.ents() == xor_sum(de, gvs));
                                    },
                                }
                            }
                            if self.strat@ {
                                assert(self.strat_cell(working_j as int));
                            }
                            assert forall|x: usize|
                                (#[trigger] curr.0.ents().contains(x)) implies (x as int)
                                < self.h() by {
                                assert(self.r_ents(working_j as int).contains(x));
                            }
                            assert(self.working_ok(working_j as int, curr, gvs));
                            // the measure: the pivot is unchanged and the
                            // re-drive flag has dropped
                            assert(curr.0.ents() == self.r_ents(working_j as int));
                            assert(curr.0.ents().last() == l);
                            assert(self.pivots@[l as int] as int != working_j as int);
                        }
                    } else {
                        // The working column holds no claim, so it can never
                        // find itself as the claimant of its own pivot.
                        proof {
                            assert(false);
                        }
                        return Ghost(t2);
                    }
                },
                None => {
                    // The pivot is unclaimed: publish and claim it.
                    let ghost pre_pub = *self;
                    let ghost curr_snap = curr;
                    proof {
                        if self.track_dv@ {
                            assert(spanned(de, curr.0.ents(), working_j as usize)) by {
                                assert(strictly_sorted(gvs) && unit_tri(gvs, working_j as usize)
                                    && idxs_ok(de, gvs) && curr.0.ents() == xor_sum(de, gvs));
                            }
                        }
                    }
                    self.write_to_matrix(working_j, curr);
                    let ghost mid = *self;
                    let ok = self.cew_pivot_succeeds(l, None, Some(working_j));
                    proof {
                        assert(ok);
                        assert(self.pivots@ == mid.pivots@.update(l as int, working_j));
                        assert forall|l2: int| 0 <= l2 < self.h() implies self.claim_ok(l2) by {
                            if l2 == l as int {
                                assert(self.r_ents(working_j as int) == curr_snap.0.ents());
                            } else {
                                assert(self.pivots@[l2] == mid.pivots@[l2]);
                                assert(mid.claim_ok(l2));
                            }
                        }
                        Self::lemma_inv_after_pivot_change(&mid, self);
                        assert(self.inv());
                        assert(self.claims_in(t2)) by {
                            assert forall|l2: int|
                                0 <= l2 < self.h() && (#[trigger] self.pivots@[l2])
                                    != usize::MAX implies t2.contains(self.pivots@[l2] as int) by {
                                if l2 != l as int {
                                    assert(self.pivots@[l2] == mid.pivots@[l2]);
                                }
                            }
                        }
                        assert forall|m: int|
                            0 <= m < self.n() && t2.contains(m) implies self.settled(m) by {
                            if m == working_j as int {
                                assert(self.r_ents(m) == curr_snap.0.ents());
                                assert(self.pivots@[l as int] as int == m);
                            } else {
                                assert(pre_pub.settled(m));
                                assert(self.matrix@[m] == pre_pub.matrix@[m]);
                                if self.r_ents(m).len() > 0 {
                                    let lm = self.r_ents(m).last();
                                    assert(pre_pub.pivots@[lm as int] as int == m);
                                    if lm == l {
                                        assert(mid.pivots@[l as int] as int == m);
                                        assert(mid.pivots@[l as int] == usize::MAX);
                                    }
                                    assert(self.pivots@[lm as int] as int == m);
                                    assert(self.pivots@[lm as int] != usize::MAX);
                                }
                            }
                        }
                    }
                    return Ghost(t2);
                },
            }
        }
    }

    /// Uses the boundary accumulated in column `boundary_idx` to clear the
    /// column at its pivot: that column is known to reduce to zero, and its
    /// V-column (when maintained) is the boundary's R-column.  Requires the
    /// stratified input shape, under which the cleared column is unclaimed.
    pub(crate) fn clear_with_column(&mut self, boundary_idx: usize, Ghost(t): Ghost<Set<int>>)
        requires
            old(self).inv(),
            (boundary_idx as int) < old(self).n(),
            old(self).r_ents(boundary_idx as int).len() > 0,
            old(self).strat@,
            old(self).claims_in(t),
            old(self).settled_on(t),
            !t.contains(old(self).r_ents(boundary_idx as int).last() as int),
        ensures
            final(self).inv(),
            final(self).frame_ok(old(self)),
            final(self).pivots == old(self).pivots,
            final(self).claims_in(t),
            final(self).settled_on(t),
            final(self).r_ents(old(self).r_ents(boundary_idx as int).last() as int).len() == 0,
            forall|m: int|
                0 <= m < final(self).n() && m != old(self).r_ents(boundary_idx as int).last() as int
                    ==> final(self).matrix@[m] == old(self).matrix@[m],
    {
        let ghost pre = *self;
        let boundary = self.read_cell(boundary_idx);
        let boundary_r = boundary.0;
        let clearing_idx: usize;
        match boundary_r.pivot() {
            Some(p) => {
                clearing_idx = p;
            },
            None => {
                proof {
                    assert(false);
                }
                clearing_idx = 0;
            },
        }
        proof {
            // under stratification the pivot is a column strictly to the left
            assert(self.strat_cell(boundary_idx as int));
            assert(self.r_ents(boundary_idx as int).contains(clearing_idx)) by {
                assert(self.r_ents(boundary_idx as int)[self.r_ents(boundary_idx as int).len() - 1]
                    == clearing_idx);
            }
            assert((clearing_idx as int) < boundary_idx as int);
            // it is unclaimed, because every claim points into `t`
            assert forall|l: int|
                0 <= l < self.h() implies (#[trigger] self.pivots@[l]) as int
                != clearing_idx as int || self.pivots@[l] == usize::MAX by {
                if self.pivots@[l] != usize::MAX && self.pivots@[l] as int == clearing_idx as int {
                    assert(t.contains(clearing_idx as int));
                }
            }
        }
        proof {
            assert(self.cell_ok(clearing_idx as int));
        }
        let clearing_dimension = self.matrix[clearing_idx].0.dimension();
        // the cleared R column is empty; the corresponding V column is the
        // R column of the boundary, re-tagged with the cleared dimension
        let r_col = C::new_with_dimension(clearing_dimension);
        let v_col: Option<C> = if self.maintain_v {
            let mut br = boundary_r;
            br.set_dimension(clearing_dimension);
            Some(br)
        } else {
            None
        };
        self.track_dv = Ghost(false);
        proof {
            assert forall|l: int| 0 <= l < self.h() implies self.claim_ok(l) by {
                assert(pre.claim_ok(l));
            }
            Self::lemma_inv_after_pivot_change(&pre, self);
            assert(self.inv());
            assert(r_col.ents().len() == 0);
            assert forall|x: usize| #[trigger] r_col.ents().contains(x) implies (x as int)
                < self.h() by {
                let w = choose|w: int| 0 <= w < r_col.ents().len() && r_col.ents()[w] == x;
            }
            assert(self.dims()[clearing_idx as int] == clearing_dimension as nat);
        }
        let ghost mid = *self;
        self.write_to_matrix(clearing_idx, (r_col, v_col));
        proof {
            assert forall|m: int|
                0 <= m < self.n() && t.contains(m) implies self.settled(m) by {
                if m != clearing_idx as int {
                    assert(self.matrix@[m] == mid.matrix@[m]);
                    assert(mid.settled(m));
                } else {
                    assert(self.r_ents(m).len() == 0);
                }
            }
        }
    }

    /// Reduces every column of the given dimension; `t` holds the columns of
    /// the dimensions already processed.
    pub(crate) fn reduce_dimension(&mut self, dimension: usize, Ghost(t): Ghost<Set<int>>) -> (t2:
        Ghost<Set<int>>)
        requires
            old(self).inv(),
            old(self).claims_in(t),
            old(self).settled_on(t),
            forall|m: int|
                0 <= m < old(self).n() && old(self).dims()[m] == dimension as nat ==> !t.contains(
                    m,
                ),
        ensures
            final(self).inv(),
            final(self).frame_ok(old(self)),
            final(self).track_dv == old(self).track_dv,
            t2@ == t.union(
                Set::new(
                    |m: int|
                        0 <= m < final(self).n() && final(self).dims()[m] == dimension as nat,
                ),
            ),
            final(self).claims_in(t2@),
            final(self).settled_on(t2@),
    {
        let n = self.matrix.len();
        let ghost mut t_cur: Set<int> = t;
        let mut j: usize = 0;
        while j < n
            invariant
                n == self.matrix@.len(),
                j <= n,
                self.inv(),
                self.frame_ok(old(self)),
                self.track_dv == old(self).track_dv,
                self.claims_in(t_cur),
                self.settled_on(t_cur),
                t_cur =~= t.union(
                    Set::new(
                        |m: int| 0 <= m < j as int && self.dims()[m] == dimension as nat,
                    ),
                ),
                forall|m: int|
                    0 <= m < self.n() && self.dims()[m] == dimension as nat && m >= j as int
                        ==> !t_cur.contains(m),
            decreases n - j,
        {
            proof {
                assert(self.cell_ok(j as int));
                assert(self.dims()[j as int] == self.matrix@[j as int].0.dim());
            }
            let dim_j = self.matrix[j].0.dimension();
            if dim_j == dimension {
                let ghost pre_dims = self.dims();
                let tr = self.reduce_column(j, Ghost(t_cur));
                proof {
                    t_cur = tr@;
                    assert(t_cur =~= t.union(
                        Set::new(
                            |m: int|
                                0 <= m < (j + 1) as int && self.dims()[m] == dimension as nat,
                        ),
                    ));
                }
            } else {
                proof {
                    assert(t_cur =~= t.union(
                        Set::new(
                            |m: int|
                                0 <= m < (j + 1) as int && self.dims()[m] == dimension as nat,
                        ),
                    ));
                }
            }
            j += 1;
        }
        proof {
            assert(t_cur =~= t.union(
                Set::new(
                    |m: int| 0 <= m < self.n() && self.dims()[m] == dimension as nat,
                ),
            ));
        }
        Ghost(t_cur)
    }

    /// Clears, for every boundary column of the given dimension, the column
    /// at its pivot.  Requires the stratified input shape; `t` must hold no
    /// column of a smaller dimension.
    pub(crate) fn clear_dimension(&mut self, dimension: usize, Ghost(t): Ghost<Set<int>>)
        requires
            old(self).inv(),
            old(self).strat@,
            old(self).claims_in(t),
            old(self).settled_on(t),
            forall|m: int|
                0 <= m < old(self).n() && old(self).dims()[m] < dimension as nat ==> !t.contains(m),
        ensures
            final(self).inv(),
            final(self).frame_ok(old(self)),
            final(self).pivots == old(self).pivots,
            final(self).claims_in(t),
            final(self).settled_on(t),
            forall|m: int|
                0 <= m < final(self).n() && final(self).dims()[m] >= dimension as nat
                    ==> final(self).matrix@[m] == old(self).matrix@[m],
    {
        let n = self.matrix.len();
        let mut j: usize = 0;
        while j < n
            invariant
                n == self.matrix@.len(),
                j <= n,
                self.inv(),
                self.strat@ == old(self).strat@,
                self.strat@,
                self.frame_ok(old(self)),
                self.pivots == old(self).pivots,
                self.claims_in(t),
                self.settled_on(t),
                forall|m: int|
                    0 <= m < self.n() && self.dims()[m] < dimension as nat ==> !t.contains(m),
                forall|m: int|
                    0 <= m < self.n() && self.dims()[m] >= dimension as nat ==> self.matrix@[m]
                        == old(self).matrix@[m],
            decreases n - j,
        {
            proof {
                assert(self.cell_ok(j as int));
                assert(self.dims()[j as int] == self.matrix@[j as int].0.dim());
            }
            let dim_j = self.matrix[j].0.dimension();
            if dim_j == dimension {
                let is_boundary = self.matrix[j].0.is_boundary();
                if is_boundary {
                    proof {
                        assert(self.strat_cell(j as int));
                        let p = self.r_ents(j as int).last();
                        assert(self.r_ents(j as int).contains(p)) by {
                            assert(self.r_ents(j as int)[self.r_ents(j as int).len() - 1] == p);
                        }
                        assert(self.dims()[p as int] + 1 == dimension as nat);
                        assert(!t.contains(p as int));
                    }
                    let ghost pre = *self;
                    self.clear_with_column(j, Ghost(t));
                    proof {
                        let p = pre.r_ents(j as int).last();
                        assert forall|m: int|
                            0 <= m < self.n() && self.dims()[m] >= dimension as nat implies self.matrix@[m]
                            == old(self).matrix@[m] by {
                            if m != p as int {
                                assert(self.matrix@[m] == pre.matrix@[m]);
                            } else {
                                assert(pre.dims()[p as int] + 1 == dimension as nat);
                            }
                        }
                    }
                }
            }
            j += 1;
        }
    }

    /// Runs the descending-dimension driver: each dimension from `max_dim`
    /// down to zero is reduced, interleaved (when `clearing` is set) with
    /// clearing the pivots of the boundaries just found.  Afterwards every
    /// non-empty column claims its own pivot.
    pub(crate) fn run(&mut self, clearing: bool, max_dim: usize)
        requires
            old(self).inv(),
            forall|l: int| 0 <= l < old(self).h() ==> old(self).pivots@[l] == usize::MAX,
            forall|m: int| 0 <= m < old(self).n() ==> old(self).dims()[m] <= max_dim as nat,
            clearing ==> old(self).strat@,
        ensures
            final(self).inv(),
            final(self).frame_ok(old(self)),
            forall|m: int| 0 <= m < final(self).n() ==> final(self).settled(m),
            !clearing ==> final(self).track_dv == old(self).track_dv,
    {
        let ghost mut t: Set<int> = Set::empty();
        proof {
            assert(self.claims_in(t));
            assert(self.settled_on(t));
        }
        let mut d = max_dim;
        loop
            invariant_except_break
                t =~= Set::new(
                    |m: int| 0 <= m < self.n() && self.dims()[m] > d as nat,
                ),
            invariant
                self.inv(),
                self.frame_ok(old(self)),
                clearing ==> self.strat@,
                !clearing ==> self.track_dv == old(self).track_dv,
                d <= max_dim,
                self.claims_in(t),
                self.settled_on(t),
            ensures
                forall|m: int| 0 <= m < self.n() ==> self.settled(m),
            decreases d + 1,
        {
            let tr = self.reduce_dimension(d, Ghost(t));
            proof {
                t = tr@;
                assert(t =~= Set::new(
                    |m: int| 0 <= m < self.n() && self.dims()[m] >= d as nat,
                ));
            }
            if clearing && d > 0 {
                self.clear_dimension(d, Ghost(t));
            }
            if d == 0 {
                proof {
                    assert forall|m: int| 0 <= m < self.n() implies self.settled(m) by {
                        assert(t.contains(m));
                    }
                }
                break ;
            }
            proof {
                assert(t =~= Set::new(
                    |m: int| 0 <= m < self.n() && self.dims()[m] > (d - 1) as nat,
                ));
            }
            d = d - 1;
        }
    }

}

/// The R columns of a vector of (R, V) cells.
pub(crate) open spec fn cells_r<C: Column>(cells: Seq<(C, Option<C>)>) -> Seq<C> {
    Seq::new(cells.len(), |i: int| cells[i].0)
}

/// The V columns of a vector of (R, V) cells (the R column standing in where
/// no V column is held; guarded by `has_v` wherever it matters).
pub(crate) open spec fn cells_v<C: Column>(cells: Seq<(C, Option<C>)>) -> Seq<C> {
    Seq::new(
        cells.len(),
        |i: int|
            match cells[i].1 {
                Some(v) => v,
                None => cells[i].0,
            },
    )
}

/// Build-up phase invariant of a cell vector: well-formed R columns, and V
/// columns initialised to the identity when V is maintained.
pub(crate) open spec fn cells_pre<C: Column>(cells: Seq<(C, Option<C>)>, maintain_v: bool) -> bool {
    forall|i: int|
        0 <= i < cells.len() ==> {
            &&& (#[trigger] cells[i]).0.inv()
            &&& (maintain_v <==> cells[i].1 is Some)
            &&& (cells[i].1 matches Some(vc) ==> vc.inv() && vc.ents() == seq![i as usize]
                && vc.dim() == cells[i].0.dim())
        }
}

/// Pushes the provided columns onto the cell vector, initialising V columns
/// to singletons when V is maintained.
pub(crate) fn push_cols<C: Column>(cells: &mut Vec<(C, Option<C>)>, cols: Vec<C>, maintain_v: bool)
    requires
        cells_pre(old(cells)@, maintain_v),
        super::all_inv(cols@),
    ensures
        cells_pre(final(cells)@, maintain_v),
        cells_r(final(cells)@) =~= cells_r(old(cells)@) + cols@,
{
    let ghost cols0 = cols@;
    let ghost pre = cells@;
    let mut cols = cols;
    let cols_len = cols.len();
    let mut k: usize = 0;
    proof {
        assert(cols0.take(0) =~= Seq::<C>::empty());
        assert(cells_r(pre) + cols0.take(0) =~= cells_r(pre));
        assert(cols0.skip(0) =~= cols0);
    }
    while k < cols_len
        invariant
            cols_len == cols0.len(),
            k <= cols0.len(),
            cols@ == cols0.skip(k as int),
            super::all_inv(cols0),
            cells_pre(cells@, maintain_v),
            cells_r(cells@) == cells_r(pre) + cols0.take(k as int),
        decreases cols0.len() - k,
    {
        let ghost before = cells@;
        proof {
            assert(cells_r(before) == cells_r(pre) + cols0.take(k as int));
        }
        let r_col = cols.remove(0);
        proof {
            assert(r_col == cols0[k as int]);
            assert(cols0.contains(cols0[k as int])) by {
                assert(cols0[k as int] == cols0[k as int]);
            }
            assert(r_col.inv());
        }
        let idx = cells.len();
        let v_col: Option<C> = if maintain_v {
            let dim = r_col.dimension();
            let mut vc = C::new_with_dimension(dim);
            vc.add_entry(idx);
            proof {
                crate::f2::lemma_singleton_contains(idx);
                crate::f2::lemma_sym_diff_props(Seq::<usize>::empty(), seq![idx]);
                assert(strictly_sorted(seq![idx]));
                crate::f2::lemma_sorted_same_membership(vc.ents(), seq![idx]);
            }
            Some(vc)
        } else {
            None
        };
        proof {
            assert(before == cells@);
        }
        cells.push((r_col, v_col));
        proof {
            assert forall|i: int| 0 <= i < cells@.len() implies {
                &&& (#[trigger] cells@[i]).0.inv()
                &&& (maintain_v <==> cells@[i].1 is Some)
                &&& (cells@[i].1 matches Some(vc) ==> vc.inv() && vc.ents() == seq![i as usize]
                    && vc.dim() == cells@[i].0.dim())
            } by {
                if i < before.len() {
                    assert(cells@[i] == before[i]);
                }
            }
            assert(cols@ =~= cols0.skip(k as int + 1)) by {
                assert(cols@ == cols0.skip(k as int).remove(0));
                assert(cols0.skip(k as int).remove(0) =~= cols0.skip(k as int).skip(1));
                assert(cols0.skip(k as int).skip(1) =~= cols0.skip(k as int + 1));
            }
            assert(cells_r(before).len() == before.len());
            assert(cells_r(pre).len() == pre.len());
            assert(cols0.take(k as int).len() == k as int);
            assert(before.len() == pre.len() + k);
            assert(r_col == cols0.skip(k as int)[0]);
            assert(r_col == cols0[k as int]);
            assert forall|i: int|
                0 <= i < cells@.len() implies cells_r(cells@)[i] == (cells_r(pre) + cols0.take(
                k as int + 1,
            ))[i] by {
                assert(cells_r(cells@)[i] == cells@[i].0);
                if i < before.len() {
                    assert(cells@[i] == before[i]);
                    assert(cells_r(before)[i] == before[i].0);
                    if i < pre.len() {
                        assert((cells_r(pre) + cols0.take(k as int))[i] == cells_r(pre)[i]);
                        assert((cells_r(pre) + cols0.take(k as int + 1))[i] == cells_r(pre)[i]);
                    } else {
                        assert((cells_r(pre) + cols0.take(k as int))[i] == cols0.take(k as int)[i
                            - pre.len()]);
                        assert(cols0.take(k as int)[i - pre.len()] == cols0[i - pre.len()]);
                        assert((cells_r(pre) + cols0.take(k as int + 1))[i] == cols0.take(
                            k as int + 1,
                        )[i - pre.len()]);
                        assert(cols0.take(k as int + 1)[i - pre.len()] == cols0[i - pre.len()]);
                    }
                } else {
                    assert(i == before.len());
                    assert(cells@[i] == (r_col, v_col));
                    assert((cells_r(pre) + cols0.take(k as int + 1))[i] == cols0.take(
                        k as int + 1,
                    )[k as int]);
                    assert(cols0.take(k as int + 1)[k as int] == cols0[k as int]);
                }
            }
            assert(cells_r(cells@) =~= cells_r(pre) + cols0.take(k as int + 1));
        }
        k += 1;
    }
    proof {
        assert(cols0.take(k as int) =~= cols0);
    }
}

/// Toggles the provided (row, column) entries in the R columns of the cells.
pub(crate) fn toggle_entries<C: Column>(
    cells: &mut Vec<(C, Option<C>)>,
    entries: Vec<(usize, usize)>,
    Ghost(maintain_v): Ghost<bool>,
)
    requires
        cells_pre(old(cells)@, maintain_v),
        forall|k: int|
            0 <= k < entries@.len() ==> (#[trigger] entries@[k]).1 < old(cells)@.len(),
    ensures
        cells_pre(final(cells)@, maintain_v),
        final(cells)@.len() == old(cells)@.len(),
        super::ents_of(cells_r(final(cells)@)) == crate::algorithms::serial::apply_entries(
            super::ents_of(cells_r(old(cells)@)),
            entries@,
        ),
        forall|i: int|
            0 <= i < final(cells)@.len() ==> (#[trigger] final(cells)@[i]).0.dim() == old(
                cells,
            )@[i].0.dim(),
{
    let ghost pre = cells@;
    let mut k: usize = 0;
    proof {
        assert(entries@.take(0) =~= Seq::<(usize, usize)>::empty());
    }
    while k < entries.len()
        invariant
            k <= entries@.len(),
            forall|j: int| 0 <= j < entries@.len() ==> (#[trigger] entries@[j]).1 < pre.len(),
            cells@.len() == pre.len(),
            cells_pre(pre, maintain_v),
            cells_pre(cells@, maintain_v),
            super::ents_of(cells_r(cells@)) == crate::algorithms::serial::apply_entries(
                super::ents_of(cells_r(pre)),
                entries@.take(k as int),
            ),
            forall|i: int| 0 <= i < cells@.len() ==> (#[trigger] cells@[i]).0.dim() == pre[i].0.dim(),
            forall|i: int| 0 <= i < cells@.len() ==> (#[trigger] cells@[i]).1 == pre[i].1,
        decreases entries@.len() - k,
    {
        let (row, col) = entries[k];
        let ghost mid = cells@;
        let slot = vstd::std_specs::vec::vec_index_mut(cells, col);
        slot.0.add_entry(row);
        proof {
            assert(entries@.take(k as int + 1).drop_last() =~= entries@.take(k as int));
            assert(entries@.take(k as int + 1).last() == entries@[k as int]);
            assert(super::ents_of(cells_r(cells@)) =~= crate::algorithms::serial::apply_entries(
                super::ents_of(cells_r(pre)),
                entries@.take(k as int + 1),
            ));
            assert forall|i: int| 0 <= i < cells@.len() implies {
                &&& (#[trigger] cells@[i]).0.inv()
                &&& (maintain_v <==> cells@[i].1 is Some)
                &&& (cells@[i].1 matches Some(vc) ==> vc.inv() && vc.ents() == seq![i as usize]
                    && vc.dim() == cells@[i].0.dim())
            } by {
                if i != col {
                    assert(cells@[i] == mid[i]);
                }
            }
        }
        k += 1;
    }
    proof {
        assert(entries@.take(entries@.len() as int) =~= entries@);
    }
}

/// Reduces the cell vector with the pivot-table protocol, dimension by
/// dimension from `max_dim` downwards, and returns the reduced cells.
pub(crate) fn decompose_cells<C: Column>(
    cells: Vec<(C, Option<C>)>,
    options: LoPhatOptions,
    max_dim: usize,
) -> (out: Vec<(C, Option<C>)>)
    requires
        cells_pre(cells@, options.maintain_v),
        forall|i: int| 0 <= i < cells@.len() ==> (#[trigger] cells@[i]).0.dim() <= max_dim as nat,
        super::rows_below(
            cells_r(cells@),
            super::height_of(options, cells@.len() as int),
        ),
        options.clearing ==> super::stratified(cells_r(cells@)),
    ensures
        out@.len() == cells@.len(),
        forall|i: int|
            0 <= i < out@.len() ==> (#[trigger] out@[i]).0.inv() && out@[i].0.dim() == cells@[
                i
            ].0.dim() && (options.maintain_v <==> out@[i].1 is Some) && (out@[i].1 matches Some(vc)
                ==> vc.inv() && vc.dim() == out@[i].0.dim()),
        super::distinct_pivots(cells_r(out@)),
        !options.clearing ==> super::spans_ok(
            super::ents_of(cells_r(cells@)),
            super::ents_of(cells_r(out@)),
        ),
        (!options.clearing && options.maintain_v) ==> super::dv_ok(
            super::ents_of(cells_r(cells@)),
            cells_r(out@),
            cells_v(out@),
        ),
{
    let n = cells.len();
    let column_height = match options.column_height {
        Some(h) => h,
        None => n,
    };
    let pivots: Vec<usize> = vec![usize::MAX; column_height];
    let ghost de = super::ents_of(cells_r(cells@));
    let mut eng = Engine {
        matrix: cells,
        pivots,
        maintain_v: options.maintain_v,
        d_ents: Ghost(de),
        track_dv: Ghost(true),
        strat: Ghost(options.clearing),
    };
    proof {
        assert(super::all_inv(cells_r(eng.matrix@))) by {
            assert forall|i: int|
                0 <= i < cells_r(eng.matrix@).len() implies (#[trigger] cells_r(eng.matrix@)[
                i
            ]).inv() by {}
        }
        super::lemma_ents_sorted(cells_r(eng.matrix@));
        assert(de.len() == eng.n());
        assert forall|m: int| 0 <= m < eng.n() implies eng.cell_ok(m) by {}
        assert forall|l: int| 0 <= l < eng.h() implies eng.claim_ok(l) by {}
        assert(eng.heights_ok()) by {
            assert forall|m: int, x: usize|
                0 <= m < eng.n() && (#[trigger] eng.r_ents(m).contains(x)) implies (x as int)
                < eng.h() by {
                assert(cells_r(eng.matrix@)[m].ents().contains(x));
            }
        }
        assert forall|m: int| 0 <= m < eng.n() implies eng.span_cell(m) && eng.dv_cell(m) by {
            crate::f2::lemma_singleton_contains(m as usize);
            crate::f2::lemma_xor_singleton(de, m as usize);
            assert(strictly_sorted(seq![m as usize]));
            assert(unit_tri(seq![m as usize], m as usize));
            assert(idxs_ok(de, seq![m as usize]));
            assert(de[m] == cells_r(eng.matrix@)[m].ents());
            assert(eng.r_ents(m) == xor_sum(de, seq![m as usize]));
            assert(spanned(de, eng.r_ents(m), m as usize));
        }
        if eng.strat@ {
            assert forall|m: int| 0 <= m < eng.n() implies eng.strat_cell(m) by {
                assert forall|x: usize|
                    (#[trigger] eng.r_ents(m).contains(x)) implies (x as int) < m && eng.dims()[
                    x as int
                ] + 1 == eng.matrix@[m].0.dim() by {
                    assert(cells_r(eng.matrix@)[m].ents().contains(x));
                }
            }
        }
        assert(eng.inv());
        assert forall|m: int|
            0 <= m < eng.n() implies (#[trigger] eng.dims()[m]) <= max_dim as nat by {}
    }
    let ghost eng0 = eng;
    eng.run(options.clearing, max_dim);
    proof {
        assert(eng0.matrix@ == cells@);
        assert forall|i: int|
            0 <= i < eng.matrix@.len() implies (#[trigger] eng.matrix@[i]).0.inv()
            && eng.matrix@[i].0.dim() == cells@[i].0.dim() && (options.maintain_v <==> eng.matrix@[
            i
        ].1 is Some) && (eng.matrix@[i].1 matches Some(vc) ==> vc.inv() && vc.dim() == eng.matrix@[
            i
        ].0.dim()) by {
            assert(eng.cell_ok(i));
            assert(eng.dims()[i] == eng0.dims()[i]);
            assert(eng.dims()[i] == eng.matrix@[i].0.dim());
            assert(eng0.dims()[i] == eng0.matrix@[i].0.dim());
        }
        // settled columns have pairwise distinct pivots
        assert(super::distinct_pivots(cells_r(eng.matrix@))) by {
            assert forall|a: int, b: int|
                0 <= a < b < cells_r(eng.matrix@).len() && (#[trigger] cells_r(eng.matrix@)[
                a
            ]).ents().len() > 0 && (#[trigger] cells_r(eng.matrix@)[b]).ents().len()
                > 0 implies cells_r(eng.matrix@)[a].ents().last() != cells_r(eng.matrix@)[
                b
            ].ents().last() by {
                assert(eng.settled(a));
                assert(eng.settled(b));
                assert(eng.r_ents(a) == cells_r(eng.matrix@)[a].ents());
                assert(eng.r_ents(b) == cells_r(eng.matrix@)[b].ents());
            }
        }
        if !options.clearing {
            assert(eng.track_dv@);
            assert forall|i: int|
                0 <= i < cells_r(eng.matrix@).len() implies spanned(
                de,
                #[trigger] super::ents_of(cells_r(eng.matrix@))[i],
                i as usize,
            ) by {
                assert(eng.span_cell(i));
                assert(super::ents_of(cells_r(eng.matrix@))[i] == eng.r_ents(i));
            }
            if options.maintain_v {
                assert forall|i: int|
                    0 <= i < cells_r(eng.matrix@).len() implies {
                    &&& unit_tri((#[trigger] cells_v(eng.matrix@)[i]).ents(), i as usize)
                    &&& idxs_ok(de, cells_v(eng.matrix@)[i].ents())
                    &&& cells_r(eng.matrix@)[i].ents() == xor_sum(
                        de,
                        cells_v(eng.matrix@)[i].ents(),
                    )
                } by {
                    assert(eng.dv_cell(i));
                    assert(eng.cell_ok(i));
                    assert(eng.matrix@[i].1 is Some);
                }
            }
        }
    }
    eng.matrix
}

} // verus!
