use vstd::prelude::*;

use crate::f2::spec_pivot;

verus! {

/// Stores the pairings from a matrix decomposition, as well as those column
/// indices which did not appear in a pairing.
///
/// Two diagrams are equal when they hold the same set of pairings and the
/// same set of unpaired indices, regardless of order.
#[derive(Debug, Clone, Default)]
pub struct PersistenceDiagram {
    /// The unpaired column indices.
    pub unpaired: Vec<usize>,
    /// The column pairings, each a (birth, death) pair of indices.
    pub paired: Vec<(usize, usize)>,
}

/// The pivots of a matrix given by its entry sequences.
pub open spec fn pivots_of(rents: Seq<Seq<usize>>) -> Seq<Option<usize>> {
    Seq::new(rents.len(), |i: int| spec_pivot(rents[i]))
}

/// The pairings read off a pivot sequence: `(pivot, index)` for every
/// non-empty column, in index order.
pub open spec fn pairs_of(pivs: Seq<Option<usize>>) -> Seq<(usize, usize)>
    decreases pivs.len(),
{
    if pivs.len() == 0 {
        Seq::empty()
    } else {
        let prev = pairs_of(pivs.drop_last());
        match pivs.last() {
            Some(l) => prev.push((l, (pivs.len() - 1) as usize)),
            None => prev,
        }
    }
}

/// Whether index `i` occurs as a coordinate of some pairing.
pub open spec fn idx_in_pairs(ps: Seq<(usize, usize)>, i: usize) -> bool {
    exists|k: int| 0 <= k < ps.len() && ((#[trigger] ps[k]).0 == i || ps[k].1 == i)
}

/// The indices below `n` missing from every pairing, in increasing order.
pub open spec fn unpaired_of(pivs: Seq<Option<usize>>, n: int) -> Seq<usize>
    decreases n,
{
    if n <= 0 {
        Seq::empty()
    } else {
        let prev = unpaired_of(pivs, n - 1);
        if idx_in_pairs(pairs_of(pivs), (n - 1) as usize) {
            prev
        } else {
            prev.push((n - 1) as usize)
        }
    }
}

/// Whether a vector of pairings holds the given pair.
fn pairs_contain(ps: &Vec<(usize, usize)>, x: (usize, usize)) -> (r: bool)
    ensures
        r == ps@.contains(x),
{
    let mut k: usize = 0;
    while k < ps.len()
        invariant
            k <= ps@.len(),
            forall|j: int| 0 <= j < k ==> ps@[j] != x,
        decreases ps@.len() - k,
    {
        let y = ps[k];
        if y.0 == x.0 && y.1 == x.1 {
            assert(ps@[k as int] == x);
            return true;
        }
        k += 1;
    }
    false
}

/// Whether every pairing of `a` occurs in `b`.
fn pairs_subset(a: &Vec<(usize, usize)>, b: &Vec<(usize, usize)>) -> (r: bool)
    ensures
        r == forall|x: (usize, usize)| #[trigger] a@.contains(x) ==> b@.contains(x),
{
    let mut k: usize = 0;
    while k < a.len()
        invariant
            k <= a@.len(),
            forall|j: int| 0 <= j < k ==> b@.contains(#[trigger] a@[j]),
        decreases a@.len() - k,
    {
        let x = a[k];
        if !pairs_contain(b, x) {
            assert(a@.contains(x)) by {
                assert(a@[k as int] == x);
            }
            return false;
        }
        k += 1;
    }
    proof {
        assert forall|x: (usize, usize)| #[trigger] a@.contains(x) implies b@.contains(x) by {
            let j = choose|j: int| 0 <= j < a@.len() && a@[j] == x;
        }
    }
    true
}

/// Whether a vector of indices holds the given index.
fn idxs_contain(ps: &Vec<usize>, x: usize) -> (r: bool)
    ensures
        r == ps@.contains(x),
{
    let mut k: usize = 0;
    while k < ps.len()
        invariant
            k <= ps@.len(),
            forall|j: int| 0 <= j < k ==> ps@[j] != x,
        decreases ps@.len() - k,
    {
        if ps[k] == x {
            assert(ps@[k as int] == x);
            return true;
        }
        k += 1;
    }
    false
}

/// Whether every index of `a` occurs in `b`.
fn idxs_subset(a: &Vec<usize>, b: &Vec<usize>) -> (r: bool)
    ensures
        r == forall|x: usize| #[trigger] a@.contains(x) ==> b@.contains(x),
{
    let mut k: usize = 0;
    while k < a.len()
        invariant
            k <= a@.len(),
            forall|j: int| 0 <= j < k ==> b@.contains(#[trigger] a@[j]),
        decreases a@.len() - k,
    {
        let x = a[k];
        if !idxs_contain(b, x) {
            assert(a@.contains(x)) by {
                assert(a@[k as int] == x);
            }
            return false;
        }
        k += 1;
    }
    proof {
        assert forall|x: usize| #[trigger] a@.contains(x) implies b@.contains(x) by {
            let j = choose|j: int| 0 <= j < a@.len() && a@[j] == x;
        }
    }
    true
}

impl PartialEq for PersistenceDiagram {
    /// Diagrams compare as sets: the order in which pairings and unpaired
    /// indices are listed does not matter.
    fn eq(&self, other: &Self) -> (r: bool) {
        let r = pairs_subset(&self.paired, &other.paired) && pairs_subset(
            &other.paired,
            &self.paired,
        ) && idxs_subset(&self.unpaired, &other.unpaired) && idxs_subset(
            &other.unpaired,
            &self.unpaired,
        );
        proof {
            if r {
                assert(self.paired@.to_set() =~= other.paired@.to_set()) by {
                    assert forall|x: (usize, usize)|
                        self.paired@.to_set().contains(x)
                            == other.paired@.to_set().contains(x) by {
                        assert(self.paired@.to_set().contains(x) == self.paired@.contains(x));
                        assert(other.paired@.to_set().contains(x) == other.paired@.contains(x));
                    }
                }
                assert(self.unpaired@.to_set() =~= other.unpaired@.to_set()) by {
                    assert forall|x: usize|
                        self.unpaired@.to_set().contains(x)
                            == other.unpaired@.to_set().contains(x) by {
                        assert(self.unpaired@.to_set().contains(x) == self.unpaired@.contains(x));
                        assert(other.unpaired@.to_set().contains(x) == other.unpaired@.contains(
                            x,
                        ));
                    }
                }
            } else {
                if self.paired@.to_set() == other.paired@.to_set() && self.unpaired@.to_set()
                    == other.unpaired@.to_set() {
                    assert forall|x: (usize, usize)| #[trigger]
                        self.paired@.contains(x) implies other.paired@.contains(x) by {
                        assert(self.paired@.to_set().contains(x));
                        assert(other.paired@.to_set().contains(x));
                    }
                    assert forall|x: (usize, usize)| #[trigger]
                        other.paired@.contains(x) implies self.paired@.contains(x) by {
                        assert(other.paired@.to_set().contains(x));
                        assert(self.paired@.to_set().contains(x));
                    }
                    assert forall|x: usize| #[trigger]
                        self.unpaired@.contains(x) implies other.unpaired@.contains(x) by {
                        assert(self.unpaired@.to_set().contains(x));
                        assert(other.unpaired@.to_set().contains(x));
                    }
                    assert forall|x: usize| #[trigger]
                        other.unpaired@.contains(x) implies self.unpaired@.contains(x) by {
                        assert(other.unpaired@.to_set().contains(x));
                        assert(self.unpaired@.to_set().contains(x));
                    }
                    assert(false);
                }
            }
        }
        r
    }
}

impl vstd::std_specs::cmp::PartialEqSpecImpl for PersistenceDiagram {
    open spec fn obeys_eq_spec() -> bool {
        true
    }

    open spec fn eq_spec(&self, other: &Self) -> bool {
        self.paired@.to_set() == other.paired@.to_set() && self.unpaired@.to_set()
            == other.unpaired@.to_set()
    }
}

impl PersistenceDiagram {
    /// Re-indexes a persistence diagram, assuming that it was produced from
    /// an anti-transposed matrix of size `matrix_size`.
    pub fn anti_transpose(self, matrix_size: usize) -> (r: Self)
        requires
            forall|k: int|
                0 <= k < self.paired@.len() ==> (#[trigger] self.paired@[k]).0 < matrix_size
                    && self.paired@[k].1 < matrix_size,
            forall|k: int|
                0 <= k < self.unpaired@.len() ==> (#[trigger] self.unpaired@[k]) < matrix_size,
        ensures
            r.paired@ == Seq::new(
                self.paired@.len(),
                |k: int|
                    (
                        (matrix_size - 1 - self.paired@[k].1) as usize,
                        (matrix_size - 1 - self.paired@[k].0) as usize,
                    ),
            ),
            r.unpaired@ == Seq::new(
                self.unpaired@.len(),
                |k: int| (matrix_size - 1 - self.unpaired@[k]) as usize,
            ),
    {
        let mut new_paired: Vec<(usize, usize)> = Vec::new();
        let mut k: usize = 0;
        while k < self.paired.len()
            invariant
                k <= self.paired@.len(),
                forall|j: int|
                    0 <= j < self.paired@.len() ==> (#[trigger] self.paired@[j]).0 < matrix_size
                        && self.paired@[j].1 < matrix_size,
                new_paired@ == Seq::new(
                    k as nat,
                    |j: int|
                        (
                            (matrix_size - 1 - self.paired@[j].1) as usize,
                            (matrix_size - 1 - self.paired@[j].0) as usize,
                        ),
                ),
            decreases self.paired@.len() - k,
        {
            let (b, d) = self.paired[k];
            new_paired.push((matrix_size - 1 - d, matrix_size - 1 - b));
            proof {
                assert(new_paired@ =~= Seq::new(
                    (k + 1) as nat,
                    |j: int|
                        (
                            (matrix_size - 1 - self.paired@[j].1) as usize,
                            (matrix_size - 1 - self.paired@[j].0) as usize,
                        ),
                ));
            }
            k += 1;
        }
        let mut new_unpaired: Vec<usize> = Vec::new();
        let mut k: usize = 0;
        while k < self.unpaired.len()
            invariant
                k <= self.unpaired@.len(),
                forall|j: int|
                    0 <= j < self.unpaired@.len() ==> (#[trigger] self.unpaired@[j]) < matrix_size,
                new_unpaired@ == Seq::new(
                    k as nat,
                    |j: int| (matrix_size - 1 - self.unpaired@[j]) as usize,
                ),
            decreases self.unpaired@.len() - k,
        {
            let u = self.unpaired[k];
            new_unpaired.push(matrix_size - 1 - u);
            proof {
                assert(new_unpaired@ =~= Seq::new(
                    (k + 1) as nat,
                    |j: int| (matrix_size - 1 - self.unpaired@[j]) as usize,
                ));
            }
            k += 1;
        }
        proof {
            assert(new_paired@ =~= Seq::new(
                self.paired@.len(),
                |j: int|
                    (
                        (matrix_size - 1 - self.paired@[j].1) as usize,
                        (matrix_size - 1 - self.paired@[j].0) as usize,
                    ),
            ));
            assert(new_unpaired@ =~= Seq::new(
                self.unpaired@.len(),
                |j: int| (matrix_size - 1 - self.unpaired@[j]) as usize,
            ));
        }
        PersistenceDiagram { unpaired: new_unpaired, paired: new_paired }
    }

}

/// Reads the persistence pairings off a sequence of column pivots: every
/// non-empty column is paired with its pivot row, and the indices missing
/// from every pair are unpaired.
pub fn diagram_from_pivots(pivots: &Vec<Option<usize>>) -> (dgm: PersistenceDiagram)
    ensures
        dgm.paired@ == pairs_of(pivots@),
        dgm.unpaired@ == unpaired_of(pivots@, pivots@.len() as int),
{
    let n = pivots.len();
    let mut paired: Vec<(usize, usize)> = Vec::new();
    let mut idx: usize = 0;
    proof {
        assert(pivots@.take(0) =~= Seq::<Option<usize>>::empty());
    }
    while idx < n
        invariant
            n == pivots@.len(),
            idx <= n,
            paired@ == pairs_of(pivots@.take(idx as int)),
        decreases n - idx,
    {
        match pivots[idx] {
            Some(l) => {
                paired.push((l, idx));
            },
            None => {},
        }
        proof {
            assert(pivots@.take(idx as int + 1).drop_last() =~= pivots@.take(idx as int));
            assert(pivots@.take(idx as int + 1).last() == pivots@[idx as int]);
        }
        idx += 1;
    }
    proof {
        assert(pivots@.take(n as int) =~= pivots@);
    }
    let mut unpaired: Vec<usize> = Vec::new();
    let mut idx: usize = 0;
    while idx < n
        invariant
            n == pivots@.len(),
            idx <= n,
            paired@ == pairs_of(pivots@),
            unpaired@ == unpaired_of(pivots@, idx as int),
        decreases n - idx,
    {
        if !idx_in_pairs_exec(&paired, idx) {
            unpaired.push(idx);
        }
        idx += 1;
    }
    PersistenceDiagram { unpaired, paired }
}

/// Whether index `i` occurs as a coordinate of some pairing in the vector.
fn idx_in_pairs_exec(ps: &Vec<(usize, usize)>, i: usize) -> (r: bool)
    ensures
        r == idx_in_pairs(ps@, i),
{
    let mut k: usize = 0;
    while k < ps.len()
        invariant
            k <= ps@.len(),
            forall|j: int| 0 <= j < k ==> !((#[trigger] ps@[j]).0 == i || ps@[j].1 == i),
        decreases ps@.len() - k,
    {
        let y = ps[k];
        if y.0 == i || y.1 == i {
            assert(idx_in_pairs(ps@, i)) by {
                assert((ps@[k as int]).0 == i || (ps@[k as int]).1 == i);
            }
            return true;
        }
        k += 1;
    }
    false
}

/// Structure of the pairings read off a pivot sequence: each pairing records
/// a column and its pivot, deaths are strictly increasing, and every
/// non-empty column is paired.
pub proof fn lemma_pairs_of_props(pivs: Seq<Option<usize>>)
    requires
        pivs.len() <= usize::MAX,
    ensures
        forall|k: int|
            0 <= k < pairs_of(pivs).len() ==> ((#[trigger] pairs_of(pivs)[k]).1 as int)
                < pivs.len() && pivs[pairs_of(pivs)[k].1 as int] == Some(pairs_of(pivs)[k].0),
        forall|k1: int, k2: int|
            0 <= k1 < k2 < pairs_of(pivs).len() ==> (#[trigger] pairs_of(pivs)[k1]).1 < (
            #[trigger] pairs_of(pivs)[k2]).1,
        forall|i: int, p: usize|
            0 <= i < pivs.len() && pivs[i] == Some(p) ==> idx_in_pairs(pairs_of(pivs), i as usize),
    decreases pivs.len(),
{
    let ps = pairs_of(pivs);
    if pivs.len() > 0 {
        lemma_pairs_of_props(pivs.drop_last());
        let prev = pairs_of(pivs.drop_last());
        match pivs.last() {
            Some(l) => {
                assert(ps == prev.push((l, (pivs.len() - 1) as usize)));
            },
            None => {
                assert(ps == prev);
            },
        }
        assert forall|k: int|
            0 <= k < ps.len() implies ((#[trigger] ps[k]).1 as int) < pivs.len() && pivs[ps[
            k
        ].1 as int] == Some(ps[k].0) by {
            if k < prev.len() {
                assert(ps[k] == prev[k]);
                assert((prev[k].1 as int) < pivs.len() - 1);
                assert(pivs.drop_last()[prev[k].1 as int] == pivs[prev[k].1 as int]);
            } else {
                match pivs.last() {
                    Some(l) => {
                        assert(ps[k] == (l, (pivs.len() - 1) as usize));
                        assert(pivs[pivs.len() - 1] == Some(l));
                    },
                    None => {},
                }
            }
        }
        assert forall|k1: int, k2: int|
            0 <= k1 < k2 < ps.len() implies (#[trigger] ps[k1]).1 < (#[trigger] ps[k2]).1 by {
            if k2 < prev.len() {
                assert(ps[k1] == prev[k1]);
                assert(ps[k2] == prev[k2]);
            } else {
                if k1 < prev.len() {
                    assert(ps[k1] == prev[k1]);
                    assert((prev[k1].1 as int) < pivs.len() - 1);
                    match pivs.last() {
                        Some(l) => {
                            assert(ps[k2] == (l, (pivs.len() - 1) as usize));
                        },
                        None => {},
                    }
                }
            }
        }
        assert forall|i: int, p: usize|
            0 <= i < pivs.len() && pivs[i] == Some(p) implies idx_in_pairs(ps, i as usize) by {
            if i < pivs.len() - 1 {
                assert(pivs.drop_last()[i] == pivs[i]);
                assert(idx_in_pairs(prev, i as usize));
                let k = choose|k: int|
                    0 <= k < prev.len() && ((prev[k]).0 == i as usize || prev[k].1 == i as usize);
                assert(ps[k] == prev[k]);
                assert((ps[k]).0 == i as usize || ps[k].1 == i as usize);
            } else {
                assert(pivs.last() == Some(p));
                assert(ps[ps.len() - 1].1 == i as usize);
            }
        }
    }
}

/// The unpaired indices are listed in increasing order and are exactly the
/// indices below `n` missing from every pairing.
pub proof fn lemma_unpaired_of_props(pivs: Seq<Option<usize>>, n: int)
    requires
        0 <= n <= usize::MAX,
    ensures
        forall|a: int, b: int|
            0 <= a < b < unpaired_of(pivs, n).len() ==> unpaired_of(pivs, n)[a] < unpaired_of(
                pivs,
                n,
            )[b],
        forall|x: usize|
            #[trigger] unpaired_of(pivs, n).contains(x) <==> ((x as int) < n && !idx_in_pairs(
                pairs_of(pivs),
                x,
            )),
        forall|a: int|
            0 <= a < unpaired_of(pivs, n).len() ==> (#[trigger] unpaired_of(pivs, n)[a] as int) < n,
    decreases n,
{
    let u = unpaired_of(pivs, n);
    if n > 0 {
        lemma_unpaired_of_props(pivs, n - 1);
        let prev = unpaired_of(pivs, n - 1);
        if idx_in_pairs(pairs_of(pivs), (n - 1) as usize) {
            assert(u == prev);
        } else {
            assert(u == prev.push((n - 1) as usize));
        }
        assert forall|a: int|
            0 <= a < u.len() implies (#[trigger] u[a] as int) < n by {
            if a < prev.len() {
                assert(u[a] == prev[a]);
            } else {
                assert(u[a] == (n - 1) as usize);
            }
        }
        assert forall|a: int, b: int| 0 <= a < b < u.len() implies u[a] < u[b] by {
            if b < prev.len() {
                assert(u[a] == prev[a] && u[b] == prev[b]);
            } else {
                assert(u[b] == (n - 1) as usize);
                assert(u[a] == prev[a]);
                assert((prev[a] as int) < n - 1);
            }
        }
        assert forall|x: usize|
            #[trigger] u.contains(x) <==> ((x as int) < n && !idx_in_pairs(pairs_of(pivs), x)) by {
            if u.contains(x) {
                let a = choose|a: int| 0 <= a < u.len() && u[a] == x;
                if a < prev.len() {
                    assert(prev[a] == x);
                    assert(prev.contains(x));
                }
            }
            if (x as int) < n && !idx_in_pairs(pairs_of(pivs), x) {
                if (x as int) < n - 1 {
                    assert(prev.contains(x));
                    let a = choose|a: int| 0 <= a < prev.len() && prev[a] == x;
                    assert(u[a] == x);
                } else {
                    assert(u[u.len() - 1] == x);
                }
                assert(u.contains(x));
            }
        }
    } else {
        assert forall|x: usize| #[trigger] u.contains(x) implies false by {
            let a = choose|a: int| 0 <= a < u.len() && u[a] == x;
        }
    }
}

/// Empty input gives the empty diagram: no pairings and no unpaired indices.
pub proof fn lemma_empty_diagram()
    ensures
        pairs_of(pivots_of(Seq::<Seq<usize>>::empty())).len() == 0,
        unpaired_of(pivots_of(Seq::<Seq<usize>>::empty()), 0).len() == 0,
{
    assert(pivots_of(Seq::<Seq<usize>>::empty()).len() == 0);
}

/// A matrix of all-zero columns leaves every index unpaired: the diagram
/// holds no pairings and lists every index.
pub proof fn lemma_all_zero_unpaired(rents: Seq<Seq<usize>>)
    requires
        rents.len() <= usize::MAX,
        forall|i: int| 0 <= i < rents.len() ==> (#[trigger] rents[i]).len() == 0,
    ensures
        pairs_of(pivots_of(rents)).len() == 0,
        unpaired_of(pivots_of(rents), rents.len() as int).len() == rents.len(),
        forall|a: int|
            0 <= a < rents.len() ==> #[trigger] unpaired_of(pivots_of(rents), rents.len() as int)[a]
                == a,
{
    let pivs = pivots_of(rents);
    lemma_pairs_none_empty(pivs);
    lemma_unpaired_all(pivs, rents.len() as int);
}

/// A pivot sequence with no pivots produces no pairings.
proof fn lemma_pairs_none_empty(pivs: Seq<Option<usize>>)
    requires
        forall|i: int| 0 <= i < pivs.len() ==> (#[trigger] pivs[i]) is None,
    ensures
        pairs_of(pivs).len() == 0,
    decreases pivs.len(),
{
    if pivs.len() > 0 {
        assert forall|i: int|
            0 <= i < pivs.drop_last().len() implies (#[trigger] pivs.drop_last()[i]) is None by {
            assert(pivs.drop_last()[i] == pivs[i]);
        }
        lemma_pairs_none_empty(pivs.drop_last());
        assert(pivs.last() is None);
    }
}

/// With no pairings at all, every index below `n` is unpaired, in order.
proof fn lemma_unpaired_all(pivs: Seq<Option<usize>>, n: int)
    requires
        0 <= n <= usize::MAX,
        pairs_of(pivs).len() == 0,
    ensures
        unpaired_of(pivs, n).len() == n,
        forall|a: int| 0 <= a < n ==> #[trigger] unpaired_of(pivs, n)[a] == a,
    decreases n,
{
    if n > 0 {
        lemma_unpaired_all(pivs, n - 1);
        assert(!idx_in_pairs(pairs_of(pivs), (n - 1) as usize)) by {
            if idx_in_pairs(pairs_of(pivs), (n - 1) as usize) {
                let k = choose|k: int|
                    0 <= k < pairs_of(pivs).len() && ((#[trigger] pairs_of(pivs)[k]).0 == (n - 1)
                        as usize || pairs_of(pivs)[k].1 == (n - 1) as usize);
            }
        }
        assert(unpaired_of(pivs, n) == unpaired_of(pivs, n - 1).push((n - 1) as usize));
        assert forall|a: int|
            0 <= a < n implies #[trigger] unpaired_of(pivs, n)[a] == a by {
            if a < n - 1 {
                assert(unpaired_of(pivs, n)[a] == unpaired_of(pivs, n - 1)[a]);
            } else {
                assert(unpaired_of(pivs, n)[a] == (n - 1) as usize);
            }
        }
    }
}

/// The number of indices below `m` occurring as a coordinate of some pairing.
pub open spec fn count_idx(ps: Seq<(usize, usize)>, m: int) -> int
    decreases m,
{
    if m <= 0 {
        0
    } else {
        count_idx(ps, m - 1) + if idx_in_pairs(ps, (m - 1) as usize) {
            1int
        } else {
            0int
        }
    }
}

/// Dropping the last pairing drops exactly its two coordinates from the
/// count, provided they are fresh and distinct.
proof fn lemma_count_extend(ps: Seq<(usize, usize)>, m: int)
    requires
        0 <= m <= usize::MAX,
        ps.len() > 0,
        ps.last().0 != ps.last().1,
        !idx_in_pairs(ps.drop_last(), ps.last().0),
        !idx_in_pairs(ps.drop_last(), ps.last().1),
    ensures
        count_idx(ps, m) == count_idx(ps.drop_last(), m) + (
        if (ps.last().0 as int) < m {
            1int
        } else {
            0int
        }) + (
        if (ps.last().1 as int) < m {
            1int
        } else {
            0int
        }),
    decreases m,
{
    if m > 0 {
        lemma_count_extend(ps, m - 1);
        let i = (m - 1) as usize;
        assert(idx_in_pairs(ps, i) == (idx_in_pairs(ps.drop_last(), i) || i == ps.last().0 || i
            == ps.last().1)) by {
            if idx_in_pairs(ps, i) {
                let k = choose|k: int|
                    0 <= k < ps.len() && ((#[trigger] ps[k]).0 == i || ps[k].1 == i);
                if k < ps.len() - 1 {
                    assert(ps.drop_last()[k] == ps[k]);
                    assert(idx_in_pairs(ps.drop_last(), i));
                }
            }
            if idx_in_pairs(ps.drop_last(), i) {
                let k = choose|k: int|
                    0 <= k < ps.drop_last().len() && ((#[trigger] ps.drop_last()[k]).0 == i
                        || ps.drop_last()[k].1 == i);
                assert(ps[k] == ps.drop_last()[k]);
            }
            if i == ps.last().0 || i == ps.last().1 {
                assert(ps[ps.len() - 1].0 == i || ps[ps.len() - 1].1 == i);
            }
        }
    }
}

/// All coordinates of the pairings are pairwise distinct and below `n`.
pub open spec fn coords_distinct(ps: Seq<(usize, usize)>, n: int) -> bool {
    &&& forall|k: int|
        0 <= k < ps.len() ==> (#[trigger] ps[k]).0 != ps[k].1 && (ps[k].0 as int) < n && (ps[
            k
        ].1 as int) < n
    &&& forall|k1: int, k2: int|
        0 <= k1 < k2 < ps.len() ==> (#[trigger] ps[k1]).0 != (#[trigger] ps[k2]).0 && ps[k1].0
            != ps[k2].1 && ps[k1].1 != ps[k2].0 && ps[k1].1 != ps[k2].1
}

/// With pairwise distinct coordinates below `n`, the pairings cover exactly
/// twice their number of indices.
proof fn lemma_count_total(ps: Seq<(usize, usize)>, n: int)
    requires
        0 <= n <= usize::MAX,
        coords_distinct(ps, n),
    ensures
        count_idx(ps, n) == 2 * ps.len(),
    decreases ps.len(),
{
    if ps.len() == 0 {
        lemma_count_none(ps, n);
    } else {
        let prev = ps.drop_last();
        assert(coords_distinct(prev, n)) by {
            assert forall|k: int|
                0 <= k < prev.len() implies (#[trigger] prev[k]).0 != prev[k].1 && (prev[
                k
            ].0 as int) < n && (prev[k].1 as int) < n by {
                assert(prev[k] == ps[k]);
            }
            assert forall|k1: int, k2: int|
                0 <= k1 < k2 < prev.len() implies (#[trigger] prev[k1]).0 != (#[trigger] prev[
                k2
            ]).0 && prev[k1].0 != prev[k2].1 && prev[k1].1 != prev[k2].0 && prev[k1].1 != prev[
                k2
            ].1 by {
                assert(prev[k1] == ps[k1]);
                assert(prev[k2] == ps[k2]);
            }
        }
        lemma_count_total(prev, n);
        assert(!idx_in_pairs(prev, ps.last().0)) by {
            if idx_in_pairs(prev, ps.last().0) {
                let k = choose|k: int|
                    0 <= k < prev.len() && ((#[trigger] prev[k]).0 == ps.last().0 || prev[k].1
                        == ps.last().0);
                assert(ps[k] == prev[k]);
                assert(ps[ps.len() - 1] == ps.last());
            }
        }
        assert(!idx_in_pairs(prev, ps.last().1)) by {
            if idx_in_pairs(prev, ps.last().1) {
                let k = choose|k: int|
                    0 <= k < prev.len() && ((#[trigger] prev[k]).0 == ps.last().1 || prev[k].1
                        == ps.last().1);
                assert(ps[k] == prev[k]);
                assert(ps[ps.len() - 1] == ps.last());
            }
        }
        assert(ps.last() == ps[ps.len() - 1]);
        lemma_count_extend(ps, n);
    }
}

/// No pairings, no covered indices.
proof fn lemma_count_none(ps: Seq<(usize, usize)>, m: int)
    requires
        ps.len() == 0,
    ensures
        count_idx(ps, m) == 0,
    decreases m,
{
    if m > 0 {
        lemma_count_none(ps, m - 1);
        assert(!idx_in_pairs(ps, (m - 1) as usize)) by {
            if idx_in_pairs(ps, (m - 1) as usize) {
                let k = choose|k: int|
                    0 <= k < ps.len() && ((#[trigger] ps[k]).0 == (m - 1) as usize || ps[k].1 == (m
                        - 1) as usize);
            }
        }
    }
}

/// The unpaired indices number `n` minus the covered ones.
proof fn lemma_unpaired_count(pivs: Seq<Option<usize>>, n: int)
    requires
        0 <= n <= usize::MAX,
    ensures
        unpaired_of(pivs, n).len() == n - count_idx(pairs_of(pivs), n),
    decreases n,
{
    if n > 0 {
        lemma_unpaired_count(pivs, n - 1);
    }
}

/// Essential class count.  In a reduced decomposition of a boundary matrix
/// (no two non-empty columns share a pivot, and the column at every pivot
/// row has itself reduced to zero), the unpaired indices number the total
/// count of columns minus two for each pairing, and no index occurs twice
/// across the pairings and the unpaired list.
pub proof fn lemma_essential_class_count(pivs: Seq<Option<usize>>)
    requires
        pivs.len() <= usize::MAX,
        forall|i: int, j: int|
            0 <= i < j < pivs.len() && (#[trigger] pivs[i]) is Some && (#[trigger] pivs[j])
                is Some ==> pivs[i] != pivs[j],
        forall|i: int|
            0 <= i < pivs.len() ==> ((#[trigger] pivs[i]) matches Some(p) ==> (p as int)
                < pivs.len() && pivs[p as int] is None),
    ensures
        unpaired_of(pivs, pivs.len() as int).len() + 2 * pairs_of(pivs).len() == pivs.len(),
        coords_distinct(pairs_of(pivs), pivs.len() as int),
        forall|x: usize|
            #[trigger] unpaired_of(pivs, pivs.len() as int).contains(x) ==> !idx_in_pairs(
                pairs_of(pivs),
                x,
            ),
{
    let n = pivs.len() as int;
    let ps = pairs_of(pivs);
    lemma_pairs_of_props(pivs);
    assert(coords_distinct(ps, n)) by {
        assert forall|k: int|
            0 <= k < ps.len() implies (#[trigger] ps[k]).0 != ps[k].1 && ((ps[k].0 as int) < n) && (
        (ps[k].1 as int) < n) by {
            assert(pivs[ps[k].1 as int] == Some(ps[k].0));
        }
        assert forall|k1: int, k2: int|
            0 <= k1 < k2 < ps.len() implies (#[trigger] ps[k1]).0 != (#[trigger] ps[k2]).0 && ps[
            k1
        ].0 != ps[k2].1 && ps[k1].1 != ps[k2].0 && ps[k1].1 != ps[k2].1 by {
            assert(pivs[ps[k1].1 as int] == Some(ps[k1].0));
            assert(pivs[ps[k2].1 as int] == Some(ps[k2].0));
            assert(pivs[ps[k1].0 as int] is None);
            assert(pivs[ps[k2].0 as int] is None);
        }
    }
    lemma_count_total(ps, n);
    lemma_unpaired_count(pivs, n);
    lemma_unpaired_of_props(pivs, n);
}

/// Essential class count, stated over the columns of a reduced matrix: when
/// no two non-empty columns share a pivot and the column at every pivot row
/// has itself reduced to zero (as it has for a boundary matrix), the unpaired
/// indices number the total count of columns minus two for each pairing.
pub proof fn lemma_diagram_essential_count<C: crate::columns::Column>(r: Seq<C>)
    requires
        r.len() <= usize::MAX,
        crate::algorithms::distinct_pivots(r),
        forall|i: int|
            0 <= i < r.len() && (#[trigger] r[i]).ents().len() > 0 ==> (r[i].ents().last() as int)
                < r.len() && r[r[i].ents().last() as int].ents().len() == 0,
    ensures
        unpaired_of(pivots_of(crate::algorithms::ents_of(r)), r.len() as int).len() + 2 * pairs_of(
            pivots_of(crate::algorithms::ents_of(r)),
        ).len() == r.len(),
{
    let pivs = pivots_of(crate::algorithms::ents_of(r));
    assert(pivs.len() == r.len());
    assert forall|i: int|
        0 <= i < pivs.len() implies #[trigger] pivs[i] == crate::f2::spec_pivot(r[i].ents()) by {
        assert(crate::algorithms::ents_of(r)[i] == r[i].ents());
    }
    assert forall|i: int, j: int|
        0 <= i < j < pivs.len() && (#[trigger] pivs[i]) is Some && (#[trigger] pivs[j])
            is Some implies pivs[i] != pivs[j] by {
        assert(r[i].ents().len() > 0 && r[j].ents().len() > 0);
    }
    assert forall|i: int|
        0 <= i < pivs.len() implies ((#[trigger] pivs[i]) matches Some(p) ==> (p as int)
            < pivs.len() && pivs[p as int] is None) by {
        if pivs[i] is Some {
            assert(r[i].ents().len() > 0);
            assert(r[r[i].ents().last() as int].ents().len() == 0);
        }
    }
    lemma_essential_class_count(pivs);
}

} // verus!
