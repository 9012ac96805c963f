use vstd::prelude::*;

use super::{Column, ColumnMode};
use crate::f2::{
    lemma_singleton_contains, lemma_sorted_same_membership, lemma_sym_diff_props,
    lemma_sym_diff_step, lemma_toggle_all_push, strictly_sorted, sym_diff, toggle_all,
};

verus! {

/// A column represented by an increasing vector of the non-zero row indices.
///
/// To construct, call [`VecColumn::from`] or use
/// [`Column::new_with_dimension`] and [`Column::add_entries`].
#[derive(Debug)]
pub struct VecColumn {
    boundary: Vec<usize>,
    dimension: usize,
}

impl VecColumn {
    /// Constructs a `VecColumn` from a dimension together with the vector of
    /// non-zero row indices, sorted in increasing order.
    pub fn from(value: (usize, Vec<usize>)) -> (r: Self)
        requires
            strictly_sorted(value.1@),
        ensures
            r.inv(),
            r.ents() == value.1@,
            r.dim() == value.0 as nat,
    {
        let (dimension, boundary) = value;
        Self { boundary, dimension }
    }

    /// Overrides the entries of the column; the provided vector must be
    /// sorted in increasing order.
    pub fn set_entries(&mut self, entries: Vec<usize>)
        requires
            old(self).inv(),
            strictly_sorted(entries@),
        ensures
            final(self).inv(),
            final(self).ents() == entries@,
            final(self).dim() == old(self).dim(),
    {
        self.boundary = entries;
    }

    /// Toggles `entry`, starting the search at position `starting_idx`, all
    /// entries before which must be smaller than `entry`.  Returns the
    /// position where the search for the next larger entry should resume.
    fn add_entry_starting_at(&mut self, entry: usize, starting_idx: usize) -> (r: usize)
        requires
            old(self).inv(),
            starting_idx <= old(self).boundary@.len(),
            forall|i: int| 0 <= i < starting_idx ==> old(self).boundary@[i] < entry,
        ensures
            final(self).inv(),
            final(self).ents() == sym_diff(old(self).ents(), seq![entry]),
            final(self).dim() == old(self).dim(),
            r <= final(self).boundary@.len(),
            forall|i: int| 0 <= i < r ==> final(self).boundary@[i] <= entry,
    {
        let ghost s0 = self.boundary@;
        let mut working_idx = starting_idx;
        proof {
            lemma_singleton_contains(entry);
        }
        while working_idx < self.boundary.len()
            invariant
                self.boundary@ == s0,
                s0 == old(self).boundary@,
                self.dimension == old(self).dimension,
                strictly_sorted(s0),
                working_idx <= s0.len(),
                forall|i: int| 0 <= i < working_idx ==> s0[i] < entry,
                forall|x: usize| #[trigger] seq![entry].contains(x) <==> x == entry,
            decreases s0.len() - working_idx,
        {
            let value_at_idx = self.boundary[working_idx];
            if value_at_idx < entry {
                working_idx += 1;
            } else if value_at_idx == entry {
                self.boundary.remove(working_idx);
                proof {
                    let w = working_idx as int;
                    s0.remove_ensures(w);
                    let s1 = self.boundary@;
                    assert(s1 == s0.remove(w));
                    assert forall|i: int, j: int| 0 <= i < j < s1.len() implies s1[i] < s1[j] by {
                        if j < w {
                        } else if i < w {
                            assert(s1[j] == s0[j + 1]);
                        } else {
                            assert(s1[i] == s0[i + 1]);
                            assert(s1[j] == s0[j + 1]);
                        }
                    }
                    assert forall|x: usize|
                        #[trigger] s1.contains(x) <==> (s0.contains(x) != (x == entry)) by {
                        if s1.contains(x) {
                            let i = choose|i: int| 0 <= i < s1.len() && s1[i] == x;
                            if i < w {
                                assert(s0[i] == x);
                                assert(s0[i] < s0[w]);
                            } else {
                                assert(s0[i + 1] == x);
                                assert(s0[w] < s0[i + 1]);
                            }
                            assert(s0.contains(x));
                        } else {
                            if s0.contains(x) && x != entry {
                                let i = choose|i: int| 0 <= i < s0.len() && s0[i] == x;
                                if i < w {
                                    assert(s1[i] == x);
                                } else {
                                    assert(i != w);
                                    assert(s1[i - 1] == s0[i] == x);
                                }
                                assert(s1.contains(x));
                            }
                            if x == entry {
                                assert(s0[w] == x);
                                assert(s0.contains(x));
                            }
                        }
                    }
                    lemma_sym_diff_props(s0, seq![entry]);
                    lemma_sorted_same_membership(s1, sym_diff(s0, seq![entry]));
                    assert forall|i: int| 0 <= i < w implies s1[i] <= entry by {
                        assert(s1[i] == s0[i]);
                    }
                }
                return working_idx;
            } else {
                self.boundary.insert(working_idx, entry);
                proof {
                    let w = working_idx as int;
                    s0.insert_ensures(w, entry);
                    let s1 = self.boundary@;
                    assert(s1 == s0.insert(w, entry));
                    assert forall|i: int, j: int| 0 <= i < j < s1.len() implies s1[i] < s1[j] by {
                        if j < w {
                        } else if j == w {
                            assert(s1[i] == s0[i]);
                            assert(s0[i] < entry);
                        } else if i == w {
                            assert(s1[j] == s0[j - 1]);
                            assert(s0[w] <= s0[j - 1]);
                        } else if i < w {
                            assert(s1[i] == s0[i]);
                            assert(s1[j] == s0[j - 1]);
                            assert(s0[i] < entry);
                            assert(entry < s0[w]);
                            assert(s0[w] <= s0[j - 1]);
                        } else {
                            assert(s1[i] == s0[i - 1]);
                            assert(s1[j] == s0[j - 1]);
                        }
                    }
                    assert forall|x: usize|
                        #[trigger] s1.contains(x) <==> (s0.contains(x) != (x == entry)) by {
                        assert(!s0.contains(entry)) by {
                            if s0.contains(entry) {
                                let i = choose|i: int| 0 <= i < s0.len() && s0[i] == entry;
                                if i < w {
                                    assert(s0[i] < entry);
                                } else if i > w {
                                    assert(s0[w] < s0[i]);
                                    assert(entry < s0[w]);
                                }
                            }
                        }
                        if s1.contains(x) {
                            let i = choose|i: int| 0 <= i < s1.len() && s1[i] == x;
                            if i < w {
                                assert(s0[i] == x);
                                assert(s0.contains(x));
                            } else if i == w {
                                assert(x == entry);
                            } else {
                                assert(s0[i - 1] == x);
                                assert(s0.contains(x));
                            }
                        } else {
                            if s0.contains(x) {
                                let i = choose|i: int| 0 <= i < s0.len() && s0[i] == x;
                                if i < w {
                                    assert(s1[i] == x);
                                } else {
                                    assert(s1[i + 1] == x);
                                }
                                assert(s1.contains(x));
                            }
                            if x == entry {
                                assert(s1[w] == x);
                                assert(s1.contains(x));
                            }
                        }
                    }
                    lemma_sym_diff_props(s0, seq![entry]);
                    lemma_sorted_same_membership(s1, sym_diff(s0, seq![entry]));
                    assert forall|i: int| 0 <= i < w + 1 implies s1[i] <= entry by {
                        if i < w {
                            assert(s1[i] == s0[i]);
                        }
                    }
                }
                return working_idx + 1;
            }
        }
        // Bigger than all entries in the column - add to the end.
        self.boundary.push(entry);
        proof {
            let s1 = self.boundary@;
            assert(s1 == s0.push(entry));
            assert forall|i: int, j: int| 0 <= i < j < s1.len() implies s1[i] < s1[j] by {
                if j == s1.len() - 1 {
                    assert(s1[i] == s0[i]);
                    assert(s0[i] < entry);
                }
            }
            assert forall|x: usize|
                #[trigger] s1.contains(x) <==> (s0.contains(x) != (x == entry)) by {
                assert(!s0.contains(entry)) by {
                    if s0.contains(entry) {
                        let i = choose|i: int| 0 <= i < s0.len() && s0[i] == entry;
                    }
                }
                if s1.contains(x) {
                    let i = choose|i: int| 0 <= i < s1.len() && s1[i] == x;
                    if i < s1.len() - 1 {
                        assert(s0[i] == x);
                        assert(s0.contains(x));
                    }
                }
                if s0.contains(x) {
                    let i = choose|i: int| 0 <= i < s0.len() && s0[i] == x;
                    assert(s1[i] == x);
                    assert(s1.contains(x));
                }
                if x == entry {
                    assert(s1[s1.len() - 1] == x);
                    assert(s1.contains(x));
                }
            }
            lemma_sym_diff_props(s0, seq![entry]);
            lemma_sorted_same_membership(s1, sym_diff(s0, seq![entry]));
            assert forall|i: int| 0 <= i < s1.len() - 1 implies s1[i] <= entry by {
                assert(s1[i] == s0[i]);
            }
        }
        return self.boundary.len() - 1;
    }
}

impl Column for VecColumn {
    closed spec fn ents(&self) -> Seq<usize> {
        self.boundary@
    }

    closed spec fn dim(&self) -> nat {
        self.dimension as nat
    }

    closed spec fn inv(&self) -> bool {
        strictly_sorted(self.boundary@)
    }

    proof fn lemma_inv_sorted(&self) {
    }

    fn pivot(&self) -> (r: Option<usize>) {
        if self.boundary.len() == 0 {
            None
        } else {
            Some(self.boundary[self.boundary.len() - 1])
        }
    }

    fn add_col(&mut self, other: &Self) {
        let ghost s0 = self.boundary@;
        let ghost t = other.boundary@;
        let mut working_idx: usize = 0;
        let mut k: usize = 0;
        proof {
            assert(t.take(0) =~= Seq::<usize>::empty());
            assert(sym_diff(s0, t.take(0)) == s0) by {
                if s0.len() == 0 {
                    assert(sym_diff(s0, t.take(0)) =~= s0);
                }
            }
        }
        while k < other.boundary.len()
            invariant
                strictly_sorted(s0),
                s0 == old(self).boundary@,
                strictly_sorted(t),
                other.boundary@ == t,
                k <= t.len(),
                self.boundary@ == sym_diff(s0, t.take(k as int)),
                strictly_sorted(self.boundary@),
                self.dimension == old(self).dimension,
                working_idx <= self.boundary@.len(),
                k == 0 ==> working_idx == 0,
                k > 0 ==> forall|i: int| 0 <= i < working_idx ==> self.boundary@[i] <= t[k - 1],
            decreases t.len() - k,
        {
            let entry = other.boundary[k];
            proof {
                if k > 0 {
                    assert forall|i: int| 0 <= i < working_idx implies self.boundary@[i] < entry by {
                        assert(self.boundary@[i] <= t[k as int - 1]);
                        assert(t[k as int - 1] < t[k as int]);
                    }
                }
            }
            working_idx = self.add_entry_starting_at(entry, working_idx);
            proof {
                lemma_sym_diff_step(s0, t, k as int);
            }
            k += 1;
        }
        proof {
            assert(t.take(t.len() as int) =~= t);
        }
    }

    fn add_entry(&mut self, entry: usize) {
        self.add_entry_starting_at(entry, 0);
    }

    fn has_entry(&self, entry: &usize) -> (r: bool) {
        let mut i: usize = 0;
        while i < self.boundary.len()
            invariant
                i <= self.boundary@.len(),
                forall|j: int| 0 <= j < i ==> self.boundary@[j] != *entry,
            decreases self.boundary@.len() - i,
        {
            if self.boundary[i] == *entry {
                assert(self.boundary@[i as int] == *entry);
                return true;
            }
            i += 1;
        }
        false
    }

    fn entries(&self) -> (r: Vec<usize>) {
        let mut out: Vec<usize> = Vec::new();
        let mut i: usize = 0;
        while i < self.boundary.len()
            invariant
                i <= self.boundary@.len(),
                out@ == self.boundary@.take(i as int),
            decreases self.boundary@.len() - i,
        {
            out.push(self.boundary[i]);
            proof {
                assert(out@ =~= self.boundary@.take(i as int + 1));
            }
            i += 1;
        }
        proof {
            assert(self.boundary@.take(i as int) =~= self.boundary@);
        }
        out
    }

    fn dimension(&self) -> (r: usize) {
        self.dimension
    }

    fn set_dimension(&mut self, dimension: usize) {
        self.dimension = dimension;
    }

    // No difference for this representation.
    fn set_mode(&mut self, mode: ColumnMode) {
    }

    fn is_cycle(&self) -> (r: bool) {
        self.boundary.len() == 0
    }

    fn is_boundary(&self) -> (r: bool) {
        self.boundary.len() != 0
    }

    fn add_entries(&mut self, entries: &Vec<usize>) {
        let ghost s0 = self.boundary@;
        let ghost es = entries@;
        let mut k: usize = 0;
        proof {
            assert(es.take(0) =~= Seq::<usize>::empty());
        }
        while k < entries.len()
            invariant
                old(self).inv(),
                entries@ == es,
                k <= es.len(),
                self.inv(),
                self.ents() == toggle_all(s0, es.take(k as int)),
                self.dim() == old(self).dim(),
                s0 == old(self).ents(),
            decreases es.len() - k,
        {
            let entry = entries[k];
            let ghost pre = self.ents();
            self.add_entry(entry);
            proof {
                assert(es.take(k as int).push(es[k as int]) =~= es.take(k as int + 1));
                lemma_toggle_all_push(s0, es.take(k as int), es[k as int]);
            }
            k += 1;
        }
        proof {
            assert(es.take(es.len() as int) =~= es);
        }
    }

    fn new_with_dimension(dimension: usize) -> (r: Self) {
        Self { boundary: Vec::new(), dimension }
    }

    fn clear_entries(&mut self) {
        self.boundary = Vec::new();
    }

    fn cloned(&self) -> (r: Self) {
        let boundary = self.entries();
        Self { boundary, dimension: self.dimension }
    }
}

} // verus!
