use vstd::prelude::*;

use std::collections::HashMap;

use super::{
    all_inv, distinct_pivots, dv_ok, ents_of, lemma_ents_sorted, spanned, spans_ok, unit_tri,
    Decomposition, NoVMatrixError,
};
use crate::columns::{Column, ColumnMode};
use crate::f2::{
    cols_sorted, idxs_ok, lemma_singleton_contains, lemma_sorted_same_membership,
    lemma_sym_diff_pivot_lt, lemma_sym_diff_props, lemma_xor_linear, lemma_xor_singleton,
    pivot_rank, strictly_sorted, sym_diff, xor_sum,
};
use crate::options::LoPhatOptions;

verus! {

broadcast use vstd::std_specs::hash::group_hash_axioms;

/// The standard left-to-right column addition algorithm.
///
/// Columns are reduced in insertion order; a map from pivot rows to the
/// columns claiming them drives the reduction.
pub struct SerialAlgorithm<C: Column> {
    r: Vec<C>,
    v: Option<Vec<C>>,
    low_inverse: HashMap<usize, usize>,
}

/// Return type of [`SerialAlgorithm::decompose`].
pub struct SerialDecomposition<C: Column> {
    r: Vec<C>,
    v: Option<Vec<C>>,
}

/// The map `low` records, for the first `bound` columns of `r`, exactly the
/// pivots of the non-empty columns and the index claiming each.
pub open spec fn low_inv_ok<C: Column>(r: Seq<C>, low: Map<usize, usize>, bound: int) -> bool {
    &&& forall|k: int|
        0 <= k < bound && (#[trigger] r[k]).ents().len() > 0 ==> low.contains_key(
            r[k].ents().last(),
        ) && low[r[k].ents().last()] == k as usize
    &&& forall|l: usize|
        #[trigger] low.contains_key(l) ==> low[l] < bound && r[low[l] as int].ents().len() > 0
            && r[low[l] as int].ents().last() == l
}

/// The entry sequences after toggling each (row, column) pair in turn.
pub open spec fn apply_entries(rents: Seq<Seq<usize>>, entries: Seq<(usize, usize)>) -> Seq<
    Seq<usize>,
>
    decreases entries.len(),
{
    if entries.len() == 0 {
        rents
    } else {
        let prev = apply_entries(rents, entries.drop_last());
        let e = entries.last();
        prev.update(e.1 as int, sym_diff(prev[e.1 as int], seq![e.0]))
    }
}


/// Well-formedness of a reduction state for the functional description of
/// the serial reduction: the pivot map points at non-empty sorted columns
/// carrying the claimed pivot.
pub open spec fn red_wf(rents: Seq<Seq<usize>>, low: Map<usize, usize>) -> bool {
    forall|l: usize|
        #[trigger] low.contains_key(l) ==> (low[l] as int) < rents.len() && strictly_sorted(
            rents[low[l] as int],
        ) && rents[low[l] as int].len() > 0 && rents[low[l] as int].last() == l
}

/// The left-to-right reduction of a single column: while its pivot is
/// recorded in the map, the recorded column is added in.
pub open spec fn spec_reduce_col(rents: Seq<Seq<usize>>, low: Map<usize, usize>, c: Seq<usize>) -> Seq<usize>
    decreases pivot_rank(c),
    when red_wf(rents, low) && strictly_sorted(c)
    via spec_reduce_col_dec
{
    if c.len() > 0 && low.contains_key(c.last()) {
        spec_reduce_col(rents, low, sym_diff(c, rents[low[c.last()] as int]))
    } else {
        c
    }
}

#[via_fn]
proof fn spec_reduce_col_dec(rents: Seq<Seq<usize>>, low: Map<usize, usize>, c: Seq<usize>) {
    if c.len() > 0 && low.contains_key(c.last()) {
        lemma_sym_diff_pivot_lt(c, rents[low[c.last()] as int]);
    }
}

/// The serial reduction after the first `k` columns have been processed: the
/// entry sequences of the partially reduced matrix together with the pivot
/// map accumulated so far.
pub open spec fn spec_reduce_state(d: Seq<Seq<usize>>, k: int) -> (Seq<Seq<usize>>, Map<
    usize,
    usize,
>)
    decreases k,
{
    if k <= 0 {
        (d, Map::empty())
    } else {
        let prev = spec_reduce_state(d, k - 1);
        let reduced = spec_reduce_col(prev.0, prev.1, prev.0[k - 1]);
        let rents = prev.0.update(k - 1, reduced);
        let low = match crate::f2::spec_pivot(reduced) {
            Some(p) => prev.1.insert(p, (k - 1) as usize),
            None => prev.1,
        };
        (rents, low)
    }
}

/// The entry sequences of R produced by the serial reduction of a matrix
/// with entry sequences `d`.
pub open spec fn spec_serial_r(d: Seq<Seq<usize>>) -> Seq<Seq<usize>> {
    spec_reduce_state(d, d.len() as int).0
}


/// One step of the functional reduction: adding the recorded column with the
/// same pivot leaves the end result unchanged.
proof fn lemma_spec_reduce_col_step(rents: Seq<Seq<usize>>, low: Map<usize, usize>, c: Seq<usize>)
    requires
        red_wf(rents, low),
        strictly_sorted(c),
        c.len() > 0,
        low.contains_key(c.last()),
    ensures
        spec_reduce_col(rents, low, c) == spec_reduce_col(
            rents,
            low,
            sym_diff(c, rents[low[c.last()] as int]),
        ),
{
    crate::f2::lemma_sym_diff_props(c, rents[low[c.last()] as int]);
    reveal_with_fuel(spec_reduce_col, 2);
}

/// The functional reduction stops on an empty column or an unclaimed pivot.
proof fn lemma_spec_reduce_col_fix(rents: Seq<Seq<usize>>, low: Map<usize, usize>, c: Seq<usize>)
    requires
        red_wf(rents, low),
        strictly_sorted(c),
        c.len() == 0 || !low.contains_key(c.last()),
    ensures
        spec_reduce_col(rents, low, c) == c,
{
}


/// Column-representation equivalence: two serial decompositions whose inputs
/// carry the same entry sequences produce the same reduced entry sequences,
/// and so the same persistence diagram, whatever the column representations.
pub proof fn lemma_column_representation_equivalence<C1: Column, C2: Column>(
    d1: Seq<C1>,
    r1: Seq<C1>,
    d2: Seq<C2>,
    r2: Seq<C2>,
)
    requires
        ents_of(d1) == ents_of(d2),
        ents_of(r1) == spec_serial_r(ents_of(d1)),
        ents_of(r2) == spec_serial_r(ents_of(d2)),
    ensures
        ents_of(r1) == ents_of(r2),
        crate::utils::pairs_of(crate::utils::pivots_of(ents_of(r1))) == crate::utils::pairs_of(
            crate::utils::pivots_of(ents_of(r2)),
        ),
        crate::utils::unpaired_of(
            crate::utils::pivots_of(ents_of(r1)),
            r1.len() as int,
        ) == crate::utils::unpaired_of(crate::utils::pivots_of(ents_of(r2)), r2.len() as int),
{
    assert(ents_of(r1).len() == r1.len());
    assert(ents_of(r2).len() == r2.len());
}

impl<C: Column> SerialAlgorithm<C> {
    /// The columns of the matrix held by the algorithm (the input matrix D
    /// before decomposition).
    pub closed spec fn r_seq(&self) -> Seq<C> {
        self.r@
    }

    /// Whether the algorithm maintains the V matrix.
    pub closed spec fn maintains_v(&self) -> bool {
        self.v is Some
    }

    /// Well-formedness during the build-up phase: all columns well-formed, no
    /// pivots recorded yet, and V (if maintained) the identity.
    pub closed spec fn wf_pre(&self) -> bool {
        &&& all_inv(self.r@)
        &&& self.low_inverse@ =~= Map::<usize, usize>::empty()
        &&& match self.v {
            Some(v) => {
                &&& v@.len() == self.r@.len()
                &&& forall|i: int|
                    0 <= i < v@.len() ==> (#[trigger] v@[i]).inv() && v@[i].ents() == seq![
                        i as usize,
                    ] && v@[i].dim() == self.r@[i].dim()
            },
            None => true,
        }
    }

    /// Invariant of the decomposition phase after the first `k` columns have
    /// been reduced; `d` is the input matrix.
    pub closed spec fn mid_inv(&self, d: Seq<C>, k: int) -> bool {
        &&& 0 <= k <= d.len()
        &&& self.r@.len() == d.len()
        &&& all_inv(d)
        &&& all_inv(self.r@)
        &&& forall|i: int| k <= i < d.len() ==> self.r@[i] == d[i]
        &&& forall|i: int| 0 <= i < d.len() ==> (#[trigger] self.r@[i]).dim() == d[i].dim()
        &&& low_inv_ok(self.r@, self.low_inverse@, k)
        &&& forall|i: int|
            0 <= i < k ==> spanned(ents_of(d), (#[trigger] self.r@[i]).ents(), i as usize)
        &&& match self.v {
            Some(v) => {
                &&& v@.len() == d.len()
                &&& forall|i: int|
                    0 <= i < d.len() ==> (#[trigger] v@[i]).inv() && v@[i].dim() == d[i].dim()
                &&& forall|i: int|
                    0 <= i < k ==> unit_tri((#[trigger] v@[i]).ents(), i as usize) && idxs_ok(
                        ents_of(d),
                        v@[i].ents(),
                    ) && self.r@[i].ents() == xor_sum(ents_of(d), v@[i].ents())
                &&& forall|i: int|
                    k <= i < d.len() ==> (#[trigger] v@[i]).ents() == seq![i as usize]
            },
            None => true,
        }
    }

    /// An empty reducer, maintaining V exactly when the options ask for it.
    pub fn init(options: Option<LoPhatOptions>) -> (r: Self)
        ensures
            r.wf_pre(),
            r.r_seq().len() == 0,
            r.maintains_v() == match options {
                Some(o) => o.maintain_v,
                None => false,
            },
    {
        let options = match options {
            Some(o) => o,
            None => LoPhatOptions::default(),
        };
        Self {
            r: Vec::new(),
            v: if options.maintain_v {
                Some(Vec::new())
            } else {
                None
            },
            low_inverse: HashMap::new(),
        }
    }

    /// Pushes the provided columns onto the end of the matrix; when V is
    /// maintained, each new column's V-column starts as the corresponding
    /// singleton.
    pub fn add_cols(self, cols: Vec<C>) -> (r: Self)
        requires
            self.wf_pre(),
            all_inv(cols@),
        ensures
            r.wf_pre(),
            r.r_seq() == self.r_seq() + cols@,
            r.maintains_v() == self.maintains_v(),
    {
        let ghost cols0 = cols@;
        let mut this = self;
        let mut cols = cols;
        let ghost r0 = this.r@;
        let first_idx = this.r.len();
        this.r.append(&mut cols);
        proof {
            assert(all_inv(this.r@)) by {
                assert forall|i: int| 0 <= i < this.r@.len() implies (#[trigger] this.r@[i]).inv() by {
                    if i < first_idx {
                        assert(this.r@[i] == r0[i]);
                    } else {
                        assert(this.r@[i] == cols0[i - first_idx]);
                    }
                }
            }
        }
        match &mut this.v {
            Some(v) => {
                let ghost rr = this.r@;
                let n = this.r.len();
                let mut i = first_idx;
                while i < n
                    invariant
                        first_idx <= i <= n,
                        n == rr.len(),
                        this.r@ == rr,
                        all_inv(rr),
                        v@.len() == i,
                        forall|j: int|
                            0 <= j < i ==> (#[trigger] v@[j]).inv() && v@[j].ents() == seq![
                                j as usize,
                            ] && v@[j].dim() == rr[j].dim(),
                    decreases n - i,
                {
                    let dim = this.r[i].dimension();
                    let mut v_col = C::new_with_dimension(dim);
                    v_col.add_entry(i);
                    proof {
                        lemma_singleton_contains(i);
                        lemma_sym_diff_props(Seq::<usize>::empty(), seq![i]);
                        assert(strictly_sorted(seq![i as usize]));
                        lemma_sorted_same_membership(v_col.ents(), seq![i]);
                    }
                    v.push(v_col);
                    i += 1;
                }
            },
            None => {},
        }
        this
    }

    /// The V matrix field, exposed for stating invariants.
    pub closed spec fn v_opt(&self) -> Option<Vec<C>> {
        self.v
    }

    /// The pivot map field, exposed for stating invariants.
    pub closed spec fn low_map(&self) -> Map<usize, usize> {
        self.low_inverse@
    }

    /// Toggles the provided (row, column) entries of the matrix.  Every
    /// column index must denote a column already added.
    pub fn add_entries(self, entries: Vec<(usize, usize)>) -> (r: Self)
        requires
            self.wf_pre(),
            forall|k: int|
                0 <= k < entries@.len() ==> (#[trigger] entries@[k]).1 < self.r_seq().len(),
        ensures
            r.wf_pre(),
            r.r_seq().len() == self.r_seq().len(),
            ents_of(r.r_seq()) == apply_entries(ents_of(self.r_seq()), entries@),
            forall|i: int|
                0 <= i < r.r_seq().len() ==> (#[trigger] r.r_seq()[i]).dim()
                    == self.r_seq()[i].dim(),
            r.maintains_v() == self.maintains_v(),
    {
        let mut this = self;
        let ghost r0 = this.r@;
        let ghost v0 = this.v;
        let ghost low0 = this.low_inverse@;
        let mut k: usize = 0;
        proof {
            assert(entries@.take(0) =~= Seq::<(usize, usize)>::empty());
        }
        while k < entries.len()
            invariant
                k <= entries@.len(),
                forall|j: int| 0 <= j < entries@.len() ==> (#[trigger] entries@[j]).1 < r0.len(),
                this.r@.len() == r0.len(),
                all_inv(r0),
                all_inv(this.r@),
                ents_of(this.r@) == apply_entries(ents_of(r0), entries@.take(k as int)),
                forall|i: int| 0 <= i < r0.len() ==> (#[trigger] this.r@[i]).dim() == r0[i].dim(),
                this.v_opt() == v0,
                this.low_map() == low0,
            decreases entries@.len() - k,
        {
            let (row, col) = entries[k];
            let ghost pre = this.r@;
            let slot = vstd::std_specs::vec::vec_index_mut(&mut this.r, col);
            slot.add_entry(row);
            proof {
                assert(entries@.take(k as int + 1).drop_last() =~= entries@.take(k as int));
                assert(entries@.take(k as int + 1).last() == entries@[k as int]);
                assert(ents_of(this.r@) =~= apply_entries(
                    ents_of(r0),
                    entries@.take(k as int + 1),
                ));
                assert(all_inv(this.r@)) by {
                    assert forall|i: int|
                        0 <= i < this.r@.len() implies (#[trigger] this.r@[i]).inv() by {
                        if i != col {
                            assert(this.r@[i] == pre[i]);
                        }
                    }
                }
                assert forall|i: int|
                    0 <= i < r0.len() implies (#[trigger] this.r@[i]).dim() == r0[i].dim() by {
                    if i != col {
                        assert(this.r@[i] == pre[i]);
                    }
                }
            }
            k += 1;
        }
        proof {
            assert(entries@.take(entries@.len() as int) =~= entries@);
        }
        this
    }

    /// Reduces the column at `idx` with left-to-right column additions,
    /// recording its final pivot.
    fn reduce_column_at_index(&mut self, idx: usize, Ghost(d): Ghost<Seq<C>>)
        requires
            old(self).mid_inv(d, idx as int),
            idx < d.len(),
        ensures
            final(self).mid_inv(d, idx as int + 1),
            final(self).maintains_v() == old(self).maintains_v(),
            ents_of(final(self).r_seq()) == ents_of(old(self).r_seq()).update(
                idx as int,
                spec_reduce_col(
                    ents_of(old(self).r_seq()),
                    old(self).low_map(),
                    ents_of(old(self).r_seq())[idx as int],
                ),
            ),
            final(self).low_map() == match crate::f2::spec_pivot(
                spec_reduce_col(
                    ents_of(old(self).r_seq()),
                    old(self).low_map(),
                    ents_of(old(self).r_seq())[idx as int],
                ),
            ) {
                Some(p) => old(self).low_map().insert(p, idx),
                None => old(self).low_map(),
            },
    {
        let ghost re0 = ents_of(old(self).r_seq());
        let ghost low0 = old(self).low_map();
        proof {
            assert(red_wf(re0, low0)) by {
                assert forall|l: usize| #[trigger] low0.contains_key(l) implies (low0[l] as int)
                    < re0.len() && strictly_sorted(re0[low0[l] as int]) && re0[low0[l] as int].len()
                    > 0 && re0[low0[l] as int].last() == l by {
                    assert(low0[l] < idx);
                    assert(re0[low0[l] as int] == old(self).r_seq()[low0[l] as int].ents());
                    old(self).r_seq()[low0[l] as int].lemma_inv_sorted();
                }
            }
            assert(re0[idx as int] == old(self).r_seq()[idx as int].ents());
        }
        proof {
            lemma_ents_sorted(d);
        }
        let ghost de = ents_of(d);
        let mut col = self.r[idx].cloned();
        col.set_mode(ColumnMode::Working);
        let maintain_v = match &self.v {
            Some(_) => true,
            None => false,
        };
        let mut v_col_opt: Option<C> = None;
        if maintain_v {
            match &self.v {
                Some(v) => {
                    let mut vc = v[idx].cloned();
                    vc.set_mode(ColumnMode::Working);
                    v_col_opt = Some(vc);
                },
                None => {},
            }
        }
        let ghost mut gvs: Seq<usize> = seq![idx];
        proof {
            lemma_singleton_contains(idx);
            lemma_xor_singleton(de, idx);
            assert(de[idx as int] == d[idx as int].ents());
            assert(self.r@[idx as int] == d[idx as int]);
            assert(col.ents() == xor_sum(de, gvs));
            if maintain_v {
                match self.v_opt() {
                    Some(v) => {
                        assert(v@[idx as int].ents() == seq![idx]);
                    },
                    None => {},
                }
            }
        }
        loop
            invariant
                *self == *old(self),
                self.mid_inv(d, idx as int),
                idx < d.len(),
                de == ents_of(d),
                cols_sorted(de),
                col.inv(),
                col.dim() == d[idx as int].dim(),
                strictly_sorted(gvs),
                unit_tri(gvs, idx),
                idxs_ok(de, gvs),
                col.ents() == xor_sum(de, gvs),
                re0 == ents_of(old(self).r_seq()),
                low0 == old(self).low_map(),
                red_wf(re0, low0),
                spec_reduce_col(re0, low0, col.ents()) == spec_reduce_col(
                    re0,
                    low0,
                    re0[idx as int],
                ),
                maintain_v == self.maintains_v(),
                match v_col_opt {
                    Some(vc) => maintain_v && vc.inv() && vc.ents() == gvs && vc.dim()
                        == d[idx as int].dim(),
                    None => !maintain_v,
                },
            ensures
                *self == *old(self),
                col.inv(),
                col.dim() == d[idx as int].dim(),
                strictly_sorted(gvs),
                unit_tri(gvs, idx),
                idxs_ok(de, gvs),
                col.ents() == xor_sum(de, gvs),
                match v_col_opt {
                    Some(vc) => maintain_v && vc.inv() && vc.ents() == gvs && vc.dim()
                        == d[idx as int].dim(),
                    None => !maintain_v,
                },
                col.ents().len() == 0 || !self.low_map().contains_key(col.ents().last()),
                col.ents() == spec_reduce_col(re0, low0, re0[idx as int]),
            decreases pivot_rank(col.ents()),
        {
            let piv = col.pivot();
            let p: usize;
            match piv {
                Some(q) => {
                    p = q;
                },
                None => {
                    proof {
                        col.lemma_inv_sorted();
                        lemma_spec_reduce_col_fix(re0, low0, col.ents());
                    }
                    break ;
                },
            }
            let k_opt = self.low_inverse.get(&p);
            let k: usize;
            match k_opt {
                Some(kref) => {
                    k = *kref;
                },
                None => {
                    proof {
                        assert(!self.low_map().contains_key(p));
                        assert(!low0.contains_key(p));
                        col.lemma_inv_sorted();
                        assert(col.ents().last() == p);
                        lemma_spec_reduce_col_fix(re0, low0, col.ents());
                    }
                    break ;
                },
            }
            proof {
                assert(self.low_map().contains_key(p) && self.low_map()[p] == k);
                assert(k < idx);
                assert(self.r@[k as int].ents().len() > 0);
                assert(self.r@[k as int].ents().last() == p);
                self.r@[k as int].lemma_inv_sorted();
                col.lemma_inv_sorted();
                assert(col.ents().last() == p);
            }
            let ghost col_pre = col.ents();
            let ghost rk = self.r@[k as int].ents();
            col.add_col(&self.r[k]);
            proof {
                lemma_sym_diff_pivot_lt(col_pre, rk);
                assert(spec_reduce_col(re0, low0, col_pre) == spec_reduce_col(
                    re0,
                    low0,
                    col.ents(),
                )) by {
                    assert(red_wf(re0, low0) && strictly_sorted(col_pre));
                    assert(col_pre.last() == p);
                    assert(low0.contains_key(p) && low0[p] == k);
                    assert(rk == re0[low0[p] as int]);
                    lemma_spec_reduce_col_step(re0, low0, col_pre);
                    assert(col.ents() == sym_diff(col_pre, re0[low0[col_pre.last()] as int]));
                }
                let vs_k: Seq<usize> = if maintain_v {
                    match self.v_opt() {
                        Some(v) => v@[k as int].ents(),
                        None => arbitrary(),
                    }
                } else {
                    choose|vs: Seq<usize>|
                        strictly_sorted(vs) && unit_tri(vs, k as usize) && idxs_ok(de, vs) && rk
                            == xor_sum(de, vs)
                };
                assert(spanned(de, rk, k));
                if maintain_v {
                    match self.v_opt() {
                        Some(v) => {
                            v@[k as int].lemma_inv_sorted();
                        },
                        None => {},
                    }
                }
                assert(strictly_sorted(vs_k) && unit_tri(vs_k, k) && idxs_ok(de, vs_k) && rk
                    == xor_sum(de, vs_k));
                lemma_xor_linear(de, gvs, vs_k);
                lemma_sym_diff_props(gvs, vs_k);
                let gvs2 = sym_diff(gvs, vs_k);
                assert(unit_tri(gvs2, idx)) by {
                    assert(gvs.contains(idx));
                    if vs_k.contains(idx) {
                        assert(idx <= k);
                    }
                    assert(gvs2.contains(idx));
                    assert forall|x: usize| #[trigger] gvs2.contains(x) implies x <= idx by {
                        assert(gvs.contains(x) || vs_k.contains(x));
                        if vs_k.contains(x) {
                            assert(x <= k);
                        }
                    }
                }
                assert(idxs_ok(de, gvs2)) by {
                    assert forall|m: int| 0 <= m < gvs2.len() implies (#[trigger] gvs2[m])
                        < de.len() by {
                        let y = gvs2[m];
                        assert(gvs2.contains(y));
                        assert(gvs.contains(y) || vs_k.contains(y));
                        if gvs.contains(y) {
                            let w = choose|w: int| 0 <= w < gvs.len() && gvs[w] == y;
                        } else {
                            let w = choose|w: int| 0 <= w < vs_k.len() && vs_k[w] == y;
                        }
                    }
                }
                gvs = gvs2;
            }
            if maintain_v {
                match (&mut v_col_opt, &self.v) {
                    (Some(vc), Some(v)) => {
                        vc.add_col(&v[k]);
                    },
                    _ => {},
                }
            }
        }
        // Store the reduced column (and its V column), recording the pivot.
        let final_pivot = col.pivot();
        col.set_mode(ColumnMode::Storage);
        let ghost pre_r = self.r@;
        let ghost pre_low = self.low_inverse@;
        let ghost pre_v = self.v;
        proof {
            col.lemma_inv_sorted();
        }
        match final_pivot {
            Some(p) => {
                self.low_inverse.insert(p, idx);
            },
            None => {},
        }
        let slot = vstd::std_specs::vec::vec_index_mut(&mut self.r, idx);
        *slot = col;
        if maintain_v {
            match (v_col_opt, &mut self.v) {
                (Some(mut vc), Some(v)) => {
                    vc.set_mode(ColumnMode::Storage);
                    let vslot = vstd::std_specs::vec::vec_index_mut(v, idx);
                    *vslot = vc;
                },
                _ => {},
            }
        }
        proof {
            let k1 = idx as int + 1;
            let rr = self.r@;
            let low = self.low_inverse@;
            assert(rr == pre_r.update(idx as int, col));
            assert(rr[idx as int] == col);
            assert forall|i: int| 0 <= i < rr.len() && i != idx implies rr[i] == pre_r[i] by {}
            assert(all_inv(rr)) by {
                assert forall|i: int| 0 <= i < rr.len() implies (#[trigger] rr[i]).inv() by {
                    if i != idx {
                        assert(rr[i] == pre_r[i]);
                    }
                }
            }
            assert forall|i: int| k1 <= i < d.len() implies rr[i] == d[i] by {
                assert(pre_r[i] == d[i]);
            }
            assert forall|i: int|
                0 <= i < d.len() implies (#[trigger] rr[i]).dim() == d[i].dim() by {
                if i != idx {
                    assert(rr[i] == pre_r[i]);
                }
            }
            // the pivot map
            assert(low_inv_ok(rr, low, k1)) by {
                match crate::f2::spec_pivot(col.ents()) {
                    Some(p) => {
                        assert(col.ents().len() > 0);
                        assert(col.ents().last() == p);
                        assert(!pre_low.contains_key(p));
                        assert(low == pre_low.insert(p, idx));
                        assert forall|k: int|
                            0 <= k < k1 && (#[trigger] rr[k]).ents().len() > 0 implies low
                            .contains_key(rr[k].ents().last()) && low[rr[k].ents().last()]
                            == k as usize by {
                            if k < idx {
                                assert(rr[k] == pre_r[k]);
                                assert(pre_low.contains_key(pre_r[k].ents().last()));
                                assert(pre_r[k].ents().last() != p);
                            } else {
                                assert(rr[k].ents().last() == p);
                            }
                        }
                        assert forall|l: usize| #[trigger] low.contains_key(l) implies low[l] < k1
                            && rr[low[l] as int].ents().len() > 0 && rr[low[l] as int].ents().last()
                            == l by {
                            if l == p {
                                assert(low[l] == idx);
                            } else {
                                assert(pre_low.contains_key(l));
                                assert(pre_low[l] < idx);
                                assert(rr[pre_low[l] as int] == pre_r[pre_low[l] as int]);
                            }
                        }
                    },
                    None => {
                        assert(col.ents().len() == 0);
                        assert(low == pre_low);
                        assert forall|k: int|
                            0 <= k < k1 && (#[trigger] rr[k]).ents().len() > 0 implies low
                            .contains_key(rr[k].ents().last()) && low[rr[k].ents().last()]
                            == k as usize by {
                            assert(k != idx);
                            assert(rr[k] == pre_r[k]);
                        }
                        assert forall|l: usize| #[trigger] low.contains_key(l) implies low[l] < k1
                            && rr[low[l] as int].ents().len() > 0 && rr[low[l] as int].ents().last()
                            == l by {
                            assert(pre_low[l] < idx);
                            assert(rr[pre_low[l] as int] == pre_r[pre_low[l] as int]);
                        }
                    },
                }
            }
            // spans
            assert forall|i: int|
                0 <= i < k1 implies spanned(de, (#[trigger] rr[i]).ents(), i as usize) by {
                if i < idx {
                    assert(rr[i] == pre_r[i]);
                    assert(spanned(de, pre_r[i].ents(), i as usize));
                } else {
                    assert(strictly_sorted(gvs) && unit_tri(gvs, idx) && idxs_ok(de, gvs)
                        && col.ents() == xor_sum(de, gvs));
                    assert(spanned(de, col.ents(), idx));
                }
            }
            // the functional description of the reduction
            assert(ents_of(rr) =~= re0.update(
                idx as int,
                spec_reduce_col(re0, low0, re0[idx as int]),
            )) by {
                assert forall|i: int| 0 <= i < rr.len() implies ents_of(rr)[i] == re0.update(
                    idx as int,
                    spec_reduce_col(re0, low0, re0[idx as int]),
                )[i] by {
                    assert(ents_of(rr)[i] == rr[i].ents());
                    if i != idx {
                        assert(rr[i] == pre_r[i]);
                        assert(re0[i] == pre_r[i].ents());
                    }
                }
            }
            assert(self.low_inverse@ == match crate::f2::spec_pivot(
                spec_reduce_col(re0, low0, re0[idx as int]),
            ) {
                Some(p) => low0.insert(p, idx),
                None => low0,
            }) by {
                assert(crate::f2::spec_pivot(col.ents()) == crate::f2::spec_pivot(
                    spec_reduce_col(re0, low0, re0[idx as int]),
                ));
            }
            // the V matrix
            match &self.v {
                Some(v) => {
                    let pv = match pre_v {
                        Some(pv) => pv@,
                        None => Seq::empty(),
                    };
                    assert(v@ == pv.update(idx as int, v@[idx as int]));
                    assert(v@.len() == d.len());
                    assert(unit_tri(v@[idx as int].ents(), idx));
                    assert forall|i: int|
                        0 <= i < d.len() implies (#[trigger] v@[i]).inv() && v@[i].dim()
                        == d[i].dim() by {
                        if i != idx {
                            assert(v@[i] == pv[i]);
                        }
                    }
                    assert forall|i: int|
                        0 <= i < k1 implies unit_tri((#[trigger] v@[i]).ents(), i as usize)
                            && idxs_ok(de, v@[i].ents()) && rr[i].ents() == xor_sum(
                            de,
                            v@[i].ents(),
                        ) by {
                        if i != idx {
                            assert(v@[i] == pv[i]);
                            assert(rr[i] == pre_r[i]);
                        }
                    }
                    assert forall|i: int|
                        k1 <= i < d.len() implies (#[trigger] v@[i]).ents() == seq![i as usize] by {
                        assert(v@[i] == pv[i]);
                    }
                },
                None => {},
            }
        }
    }

    /// Reduces every column in turn and yields the read-only decomposition.
    pub fn decompose(self) -> (r: SerialDecomposition<C>)
        requires
            self.wf_pre(),
        ensures
            r.inv(),
            r.r_seq().len() == self.r_seq().len(),
            forall|i: int|
                0 <= i < r.r_seq().len() ==> (#[trigger] r.r_seq()[i]).dim()
                    == self.r_seq()[i].dim(),
            distinct_pivots(r.r_seq()),
            r.has_v_spec() == self.maintains_v(),
            self.maintains_v() ==> dv_ok(ents_of(self.r_seq()), r.r_seq(), r.v_seq()),
            spans_ok(ents_of(self.r_seq()), ents_of(r.r_seq())),
            ents_of(r.r_seq()) == spec_serial_r(ents_of(self.r_seq())),
    {
        let mut this = self;
        let ghost d = this.r@;
        let ghost de = ents_of(d);
        proof {
            assert(this.mid_inv(d, 0));
            assert(this.low_map() =~= Map::<usize, usize>::empty());
            assert(spec_reduce_state(de, 0) == (de, Map::<usize, usize>::empty()));
        }
        let n = this.r.len();
        let mut idx: usize = 0;
        while idx < n
            invariant
                n == d.len(),
                idx <= n,
                this.mid_inv(d, idx as int),
                this.maintains_v() == self.maintains_v(),
                d == self.r_seq(),
                de == ents_of(d),
                ents_of(this.r_seq()) == spec_reduce_state(de, idx as int).0,
                this.low_map() == spec_reduce_state(de, idx as int).1,
            decreases n - idx,
        {
            let ghost pre_ents = ents_of(this.r_seq());
            let ghost pre_low = this.low_map();
            this.reduce_column_at_index(idx, Ghost(d));
            proof {
                let reduced = spec_reduce_col(pre_ents, pre_low, pre_ents[idx as int]);
                assert(spec_reduce_state(de, idx as int + 1).0 == pre_ents.update(
                    idx as int,
                    reduced,
                ));
                assert(spec_reduce_state(de, idx as int + 1).1 == match crate::f2::spec_pivot(
                    reduced,
                ) {
                    Some(p) => pre_low.insert(p, idx),
                    None => pre_low,
                });
            }
            idx += 1;
        }
        proof {
            assert(ents_of(this.r_seq()) == spec_serial_r(de));
        }
        proof {
            assert(distinct_pivots(this.r@)) by {
                assert forall|a: int, b: int|
                    0 <= a < b < this.r@.len() && (#[trigger] this.r@[a]).ents().len() > 0 && (
                    #[trigger] this.r@[b]).ents().len() > 0 implies this.r@[a].ents().last()
                    != this.r@[b].ents().last() by {
                    let low = this.low_map();
                    assert(low.contains_key(this.r@[a].ents().last()) && low[this.r@[
                        a
                    ].ents().last()] == a as usize);
                    assert(low.contains_key(this.r@[b].ents().last()) && low[this.r@[
                        b
                    ].ents().last()] == b as usize);
                }
            }
            assert forall|i: int|
                0 <= i < this.r@.len() implies spanned(
                ents_of(d),
                #[trigger] ents_of(this.r@)[i],
                i as usize,
            ) by {
                assert(ents_of(this.r@)[i] == this.r@[i].ents());
            }
        }
        SerialDecomposition { r: this.r, v: this.v }
    }
}

impl<C: Column> super::Decomposition<C> for SerialDecomposition<C> {
    /// The columns of R.
    closed spec fn r_seq(&self) -> Seq<C> {
        self.r@
    }

    /// The columns of V (empty when V was not maintained).
    closed spec fn v_seq(&self) -> Seq<C> {
        match self.v {
            Some(v) => v@,
            None => Seq::empty(),
        }
    }

    /// Whether the decomposition carries a V matrix.
    closed spec fn has_v_spec(&self) -> bool {
        self.v is Some
    }

    /// Well-formedness of the decomposition.
    closed spec fn inv(&self) -> bool {
        &&& all_inv(self.r@)
        &&& match self.v {
            Some(v) => v@.len() == self.r@.len() && all_inv(v@),
            None => true,
        }
    }

    proof fn lemma_inv(&self) {
    }

    fn get_r_col(&self, index: usize) -> (r: &C) {
        &self.r[index]
    }

    fn get_v_col(&self, index: usize) -> (r: Result<&C, NoVMatrixError>) {
        match &self.v {
            Some(v) => Ok(&v[index]),
            None => Err(NoVMatrixError),
        }
    }

    fn n_cols(&self) -> (r: usize) {
        self.r.len()
    }

    fn diagram(&self) -> (dgm: crate::utils::PersistenceDiagram) {
        let pivots = super::pivots_of_cols(&self.r);
        crate::utils::diagram_from_pivots(&pivots)
    }

    fn has_v(&self) -> (r: bool) {
        match &self.v {
            Some(_) => true,
            None => false,
        }
    }
}

} // verus!
