use vstd::prelude::*;

use super::{Column, ColumnMode};
use crate::f2::{
    lemma_singleton_contains, lemma_sorted_same_membership, lemma_sym_diff_props,
    lemma_toggle_all_push, spec_pivot, strictly_sorted, sym_diff, toggle_all,
};

verus! {

/// A dense set of row indices, backed by `bit_set::BitSet`.
#[verifier::external_body]
pub struct Bits {
    set: bit_set::BitSet,
}

/// The contents of a bit set, as the increasing sequence of its set bits
/// (the order in which `bit_set::BitSet` iterates).
pub uninterp spec fn bitset_entries(b: Bits) -> Seq<usize>;

/// Relies on `bit_set::BitSet::new`: creates a set with no bits set.
#[verifier::external_body]
fn bs_new() -> (r: Bits)
    ensures
        bitset_entries(r) == Seq::<usize>::empty(),
{
    Bits { set: bit_set::BitSet::new() }
}

/// Relies on `bit_set::BitSet::clone`: copies the underlying bit vector, so
/// the set bits are unchanged.
#[verifier::external_body]
fn bs_clone(b: &Bits) -> (r: Bits)
    ensures
        bitset_entries(r) == bitset_entries(*b),
{
    Bits { set: b.set.clone() }
}

/// Relies on `bit_set::BitSet::contains`: whether `value` is a set bit.
#[verifier::external_body]
fn bs_contains(b: &Bits, value: usize) -> (r: bool)
    ensures
        r == bitset_entries(*b).contains(value),
{
    b.set.contains(value)
}

/// Relies on `bit_set::BitSet::insert`: sets the bit `value`, leaving every
/// other bit unchanged; the contents stay in increasing order.
#[verifier::external_body]
fn bs_insert(b: &mut Bits, value: usize)
    ensures
        strictly_sorted(bitset_entries(*final(b))),
        forall|x: usize|
            #[trigger] bitset_entries(*final(b)).contains(x) <==> (bitset_entries(
                *old(b),
            ).contains(x) || x == value),
{
    b.set.insert(value);
}

/// Relies on `bit_set::BitSet::remove`: clears the bit `value`, leaving every
/// other bit unchanged; the contents stay in increasing order.
#[verifier::external_body]
fn bs_remove(b: &mut Bits, value: usize)
    ensures
        strictly_sorted(bitset_entries(*final(b))),
        forall|x: usize|
            #[trigger] bitset_entries(*final(b)).contains(x) <==> (bitset_entries(
                *old(b),
            ).contains(x) && x != value),
{
    b.set.remove(value);
}

/// Relies on `bit_set::BitSet::symmetric_difference_with`: XORs the blocks of
/// the two underlying bit vectors, so a bit ends up set exactly when it was
/// set in one of the two sets but not both.
#[verifier::external_body]
fn bs_symmetric_difference_with(b: &mut Bits, other: &Bits)
    ensures
        strictly_sorted(bitset_entries(*final(b))),
        forall|x: usize|
            #[trigger] bitset_entries(*final(b)).contains(x) <==> (bitset_entries(
                *old(b),
            ).contains(x) != bitset_entries(*other).contains(x)),
{
    b.set.symmetric_difference_with(&other.set);
}

/// Relies on `bit_set::BitSet::is_empty`: whether no bit is set.
#[verifier::external_body]
fn bs_is_empty(b: &Bits) -> (r: bool)
    ensures
        r == (bitset_entries(*b).len() == 0),
{
    b.set.is_empty()
}

/// Relies on `bit_set::BitSet::iter`: yields the set bits in increasing
/// order, block by block from the least significant bit.
#[verifier::external_body]
fn bs_iter_vec(b: &Bits) -> (r: Vec<usize>)
    ensures
        r@ == bitset_entries(*b),
{
    b.set.iter().collect()
}

/// Relies on `Iterator::max` over `bit_set::BitSet::iter`: the largest set
/// bit, i.e. the last entry of the ascending contents.
#[verifier::external_body]
fn bs_max(b: &Bits) -> (r: Option<usize>)
    ensures
        r == spec_pivot(bitset_entries(*b)),
{
    b.set.iter().max()
}

/// A column represented by a dense bit set of the non-zero row indices.
///
/// To construct, call [`BitSetColumn::from`] or use
/// [`Column::new_with_dimension`] and [`Column::add_entries`].
pub struct BitSetColumn {
    boundary: Bits,
    dimension: usize,
}

impl BitSetColumn {
    /// Constructs a `BitSetColumn` from a dimension together with the bit set
    /// of non-zero row indices.
    pub fn from(value: (usize, Bits)) -> (r: Self)
        requires
            strictly_sorted(bitset_entries(value.1)),
        ensures
            r.inv(),
            r.ents() == bitset_entries(value.1),
            r.dim() == value.0 as nat,
    {
        let (dimension, boundary) = value;
        Self { boundary, dimension }
    }

    /// Overrides the entries of the column with the given bit set.
    pub fn set_entries(&mut self, entries: Bits)
        requires
            old(self).inv(),
            strictly_sorted(bitset_entries(entries)),
        ensures
            final(self).inv(),
            final(self).ents() == bitset_entries(entries),
            final(self).dim() == old(self).dim(),
    {
        self.boundary = entries;
    }
}

impl Column for BitSetColumn {
    closed spec fn ents(&self) -> Seq<usize> {
        bitset_entries(self.boundary)
    }

    closed spec fn dim(&self) -> nat {
        self.dimension as nat
    }

    closed spec fn inv(&self) -> bool {
        strictly_sorted(bitset_entries(self.boundary))
    }

    proof fn lemma_inv_sorted(&self) {
    }

    fn pivot(&self) -> (r: Option<usize>) {
        bs_max(&self.boundary)
    }

    fn add_col(&mut self, other: &Self) {
        let ghost pre = self.ents();
        bs_symmetric_difference_with(&mut self.boundary, &other.boundary);
        proof {
            lemma_sym_diff_props(pre, other.ents());
            lemma_sorted_same_membership(self.ents(), sym_diff(pre, other.ents()));
        }
    }

    fn add_entry(&mut self, entry: usize) {
        let ghost pre = self.ents();
        proof {
            lemma_singleton_contains(entry);
            lemma_sym_diff_props(pre, seq![entry]);
        }
        if self.has_entry(&entry) {
            bs_remove(&mut self.boundary, entry);
        } else {
            bs_insert(&mut self.boundary, entry);
        }
        proof {
            lemma_sorted_same_membership(self.ents(), sym_diff(pre, seq![entry]));
        }
    }

    fn has_entry(&self, entry: &usize) -> (r: bool) {
        bs_contains(&self.boundary, *entry)
    }

    fn entries(&self) -> (r: Vec<usize>) {
        bs_iter_vec(&self.boundary)
    }

    fn dimension(&self) -> (r: usize) {
        self.dimension
    }

    fn set_dimension(&mut self, dimension: usize) {
        self.dimension = dimension;
    }

    // No difference for this representation.
    fn set_mode(&mut self, mode: ColumnMode) {
    }

    fn is_cycle(&self) -> (r: bool) {
        bs_is_empty(&self.boundary)
    }

    fn is_boundary(&self) -> (r: bool) {
        !bs_is_empty(&self.boundary)
    }

    fn add_entries(&mut self, entries: &Vec<usize>) {
        let ghost s0 = self.ents();
        let ghost es = entries@;
        let mut k: usize = 0;
        proof {
            assert(es.take(0) =~= Seq::<usize>::empty());
        }
        while k < entries.len()
            invariant
                old(self).inv(),
                entries@ == es,
                k <= es.len(),
                self.inv(),
                self.ents() == toggle_all(s0, es.take(k as int)),
                self.dim() == old(self).dim(),
                s0 == old(self).ents(),
            decreases es.len() - k,
        {
            let entry = entries[k];
            self.add_entry(entry);
            proof {
                assert(es.take(k as int).push(es[k as int]) =~= es.take(k as int + 1));
                lemma_toggle_all_push(s0, es.take(k as int), es[k as int]);
            }
            k += 1;
        }
        proof {
            assert(es.take(es.len() as int) =~= es);
        }
    }

    fn new_with_dimension(dimension: usize) -> (r: Self) {
        Self { boundary: bs_new(), dimension }
    }

    fn clear_entries(&mut self) {
        self.boundary = bs_new();
    }

    fn cloned(&self) -> (r: Self) {
        Self { boundary: bs_clone(&self.boundary), dimension: self.dimension }
    }
}

} // verus!
