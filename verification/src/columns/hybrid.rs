use vstd::prelude::*;

use super::{BitSetColumn, Column, ColumnMode, VecColumn};
use crate::f2::{
    lemma_sorted_same_membership, lemma_sym_diff_props, lemma_toggle_all_sorted, strictly_sorted,
};

verus! {

enum HybridColumnInternal {
    BitSet(BitSetColumn),
    Vec(VecColumn),
}

/// A hybrid column which changes representation depending on the current
/// [`ColumnMode`]:
///
/// * during [`ColumnMode::Working`], the representation is a [`BitSetColumn`];
/// * during [`ColumnMode::Storage`], the representation is a [`VecColumn`].
pub struct BitSetVecHybridColumn {
    internal: HybridColumnInternal,
}

impl Column for BitSetVecHybridColumn {
    closed spec fn ents(&self) -> Seq<usize> {
        match self.internal {
            HybridColumnInternal::BitSet(x) => x.ents(),
            HybridColumnInternal::Vec(x) => x.ents(),
        }
    }

    closed spec fn dim(&self) -> nat {
        match self.internal {
            HybridColumnInternal::BitSet(x) => x.dim(),
            HybridColumnInternal::Vec(x) => x.dim(),
        }
    }

    closed spec fn inv(&self) -> bool {
        match self.internal {
            HybridColumnInternal::BitSet(x) => x.inv(),
            HybridColumnInternal::Vec(x) => x.inv(),
        }
    }

    proof fn lemma_inv_sorted(&self) {
        match self.internal {
            HybridColumnInternal::BitSet(x) => x.lemma_inv_sorted(),
            HybridColumnInternal::Vec(x) => x.lemma_inv_sorted(),
        }
    }

    fn pivot(&self) -> (r: Option<usize>) {
        match &self.internal {
            HybridColumnInternal::BitSet(x) => x.pivot(),
            HybridColumnInternal::Vec(x) => x.pivot(),
        }
    }

    // Adding a storage column into a working column crosses representations,
    // so the addition goes entry by entry.
    fn add_col(&mut self, other: &Self) {
        let entries = other.entries();
        proof {
            self.lemma_inv_sorted();
            other.lemma_inv_sorted();
        }
        self.add_entries(&entries);
        proof {
            lemma_toggle_all_sorted(old(self).ents(), other.ents());
        }
    }

    fn add_entry(&mut self, entry: usize) {
        match &mut self.internal {
            HybridColumnInternal::BitSet(x) => x.add_entry(entry),
            HybridColumnInternal::Vec(x) => x.add_entry(entry),
        }
    }

    fn has_entry(&self, entry: &usize) -> (r: bool) {
        match &self.internal {
            HybridColumnInternal::BitSet(x) => x.has_entry(entry),
            HybridColumnInternal::Vec(x) => x.has_entry(entry),
        }
    }

    fn entries(&self) -> (r: Vec<usize>) {
        match &self.internal {
            HybridColumnInternal::BitSet(x) => x.entries(),
            HybridColumnInternal::Vec(x) => x.entries(),
        }
    }

    fn dimension(&self) -> (r: usize) {
        match &self.internal {
            HybridColumnInternal::BitSet(x) => x.dimension(),
            HybridColumnInternal::Vec(x) => x.dimension(),
        }
    }

    fn set_dimension(&mut self, dimension: usize) {
        match &mut self.internal {
            HybridColumnInternal::BitSet(x) => x.set_dimension(dimension),
            HybridColumnInternal::Vec(x) => x.set_dimension(dimension),
        }
    }

    // Rebuild the representation fitting the upcoming usage pattern.
    fn set_mode(&mut self, mode: ColumnMode) {
        match mode {
            ColumnMode::Working => {
                let rebuild = match &self.internal {
                    HybridColumnInternal::Vec(_) => true,
                    HybridColumnInternal::BitSet(_) => false,
                };
                if rebuild {
                    let dim = self.dimension();
                    let entries = self.entries();
                    proof {
                        self.lemma_inv_sorted();
                    }
                    let mut set_column = BitSetColumn::new_with_dimension(dim);
                    set_column.add_entries(&entries);
                    proof {
                        lemma_toggle_all_sorted(Seq::<usize>::empty(), entries@);
                        lemma_sym_diff_props(Seq::<usize>::empty(), entries@);
                        lemma_sorted_same_membership(set_column.ents(), entries@);
                    }
                    self.internal = HybridColumnInternal::BitSet(set_column);
                }
            },
            ColumnMode::Storage => {
                let rebuild = match &self.internal {
                    HybridColumnInternal::BitSet(_) => true,
                    HybridColumnInternal::Vec(_) => false,
                };
                if rebuild {
                    let dim = self.dimension();
                    let entries = self.entries();
                    proof {
                        self.lemma_inv_sorted();
                    }
                    let vec_column = VecColumn::from((dim, entries));
                    self.internal = HybridColumnInternal::Vec(vec_column);
                }
            },
        }
    }

    fn is_cycle(&self) -> (r: bool) {
        match &self.internal {
            HybridColumnInternal::BitSet(x) => x.is_cycle(),
            HybridColumnInternal::Vec(x) => x.is_cycle(),
        }
    }

    fn is_boundary(&self) -> (r: bool) {
        match &self.internal {
            HybridColumnInternal::BitSet(x) => x.is_boundary(),
            HybridColumnInternal::Vec(x) => x.is_boundary(),
        }
    }

    fn add_entries(&mut self, entries: &Vec<usize>) {
        match &mut self.internal {
            HybridColumnInternal::BitSet(x) => x.add_entries(entries),
            HybridColumnInternal::Vec(x) => x.add_entries(entries),
        }
    }

    // Construction happens in the storage representation.
    fn new_with_dimension(dimension: usize) -> (r: Self) {
        Self { internal: HybridColumnInternal::Vec(VecColumn::new_with_dimension(dimension)) }
    }

    fn clear_entries(&mut self) {
        match &mut self.internal {
            HybridColumnInternal::BitSet(x) => x.clear_entries(),
            HybridColumnInternal::Vec(x) => x.clear_entries(),
        }
    }

    fn cloned(&self) -> (r: Self) {
        match &self.internal {
            HybridColumnInternal::BitSet(x) => Self {
                internal: HybridColumnInternal::BitSet(x.cloned()),
            },
            HybridColumnInternal::Vec(x) => Self {
                internal: HybridColumnInternal::Vec(x.cloned()),
            },
        }
    }
}

impl BitSetVecHybridColumn {
    /// Constructs a hybrid column, in storage representation, from a
    /// dimension together with the vector of non-zero row indices, sorted in
    /// increasing order.
    pub fn from(value: (usize, Vec<usize>)) -> (r: Self)
        requires
            strictly_sorted(value.1@),
        ensures
            r.inv(),
            r.ents() == value.1@,
            r.dim() == value.0 as nat,
    {
        Self { internal: HybridColumnInternal::Vec(VecColumn::from(value)) }
    }
}

} // verus!
