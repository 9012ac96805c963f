//! Representations of columns of a matrix over the two-element field,
//! complying to a common interface.

use vstd::prelude::*;

use crate::f2::{spec_pivot, strictly_sorted, sym_diff, toggle_all};

mod bit_set;
mod hybrid;
mod vec;

pub use self::bit_set::BitSetColumn;
pub use self::hybrid::BitSetVecHybridColumn;
pub use self::vec::VecColumn;

verus! {

/// The different modes that a column can be in, which may affect the optimal
/// physical representation.
#[derive(Clone, Copy, Debug)]
pub enum ColumnMode {
    /// A column in this mode is about to be mutated regularly, e.g. through
    /// [`add_col`](Column::add_col).
    Working,
    /// A column in this mode will not be mutated much but may be regularly
    /// read from.
    Storage,
}

/// A sparse column of a `usize`-indexed matrix over the two-element field.
///
/// Every implementation is modelled by the strictly increasing sequence of
/// its non-zero row indices ([`ents`](Column::ents)) together with a
/// dimension tag ([`dim`](Column::dim)).  Entries obey XOR semantics: adding
/// an entry twice cancels it.
pub trait Column: Sized {
    /// The entries of the column, as a strictly increasing sequence of row
    /// indices.
    spec fn ents(&self) -> Seq<usize>;

    /// The dimension tag carried by the column.
    spec fn dim(&self) -> nat;

    /// Internal well-formedness of the representation.
    spec fn inv(&self) -> bool;

    /// A well-formed column's entries are strictly increasing.
    proof fn lemma_inv_sorted(&self)
        requires
            self.inv(),
        ensures
            strictly_sorted(self.ents()),
    ;

    /// Returns the largest non-zero row index, or `None` if the column is
    /// empty.
    fn pivot(&self) -> (r: Option<usize>)
        requires
            self.inv(),
        ensures
            r == spec_pivot(self.ents()),
    ;

    /// Adds one copy of `other` into `self` (symmetric difference of the
    /// entries).
    fn add_col(&mut self, other: &Self)
        requires
            old(self).inv(),
            other.inv(),
        ensures
            final(self).inv(),
            final(self).ents() == sym_diff(old(self).ents(), other.ents()),
            final(self).dim() == old(self).dim(),
    ;

    /// Toggles the single row `entry`.
    fn add_entry(&mut self, entry: usize)
        requires
            old(self).inv(),
        ensures
            final(self).inv(),
            final(self).ents() == sym_diff(old(self).ents(), seq![entry]),
            final(self).dim() == old(self).dim(),
    ;

    /// Returns whether `entry` appears with value 1 in the column.
    fn has_entry(&self, entry: &usize) -> (r: bool)
        requires
            self.inv(),
        ensures
            r == self.ents().contains(*entry),
    ;

    /// Returns the entries of the column, in increasing order.
    fn entries(&self) -> (r: Vec<usize>)
        requires
            self.inv(),
        ensures
            r@ == self.ents(),
    ;

    /// Returns the dimension tag of this column.
    fn dimension(&self) -> (r: usize)
        requires
            self.inv(),
        ensures
            r as nat == self.dim(),
    ;

    /// Changes the column's dimension tag.
    fn set_dimension(&mut self, dimension: usize)
        requires
            old(self).inv(),
        ensures
            final(self).inv(),
            final(self).ents() == old(self).ents(),
            final(self).dim() == dimension as nat,
    ;

    /// Advises the column of its upcoming usage pattern; must not change the
    /// column's contents.
    fn set_mode(&mut self, mode: ColumnMode)
        requires
            old(self).inv(),
        ensures
            final(self).inv(),
            final(self).ents() == old(self).ents(),
            final(self).dim() == old(self).dim(),
    ;

    /// Returns whether the column is a cycle, i.e. has no entries.
    fn is_cycle(&self) -> (r: bool)
        requires
            self.inv(),
        ensures
            r == (self.ents().len() == 0),
    ;

    /// Returns whether the column is a boundary, i.e. is non-empty.
    fn is_boundary(&self) -> (r: bool)
        requires
            self.inv(),
        ensures
            r == (self.ents().len() != 0),
    ;

    /// Toggles each listed row in turn.
    fn add_entries(&mut self, entries: &Vec<usize>)
        requires
            old(self).inv(),
        ensures
            final(self).inv(),
            final(self).ents() == toggle_all(old(self).ents(), entries@),
            final(self).dim() == old(self).dim(),
    ;

    /// An empty column with the given dimension tag.
    fn new_with_dimension(dimension: usize) -> (r: Self)
        ensures
            r.inv(),
            r.ents() == Seq::<usize>::empty(),
            r.dim() == dimension as nat,
    ;

    /// Removes all entries from the column.
    fn clear_entries(&mut self)
        requires
            old(self).inv(),
        ensures
            final(self).inv(),
            final(self).ents() == Seq::<usize>::empty(),
            final(self).dim() == old(self).dim(),
    ;

    /// An owned copy of the column.
    fn cloned(&self) -> (r: Self)
        requires
            self.inv(),
        ensures
            r.inv(),
            r.ents() == self.ents(),
            r.dim() == self.dim(),
    ;
}

} // verus!
