use vstd::prelude::*;

use crate::algorithms::all_inv;
use crate::columns::Column;
use crate::f2::{lemma_sorted_same_membership, lemma_sym_diff_props, lemma_toggle_all_sorted, strictly_sorted};
use crate::utils::PersistenceDiagram;

verus! {

/// The largest dimension tag occurring among the columns.
pub open spec fn max_dim_of<C: Column>(cols: Seq<C>) -> nat
    decreases cols.len(),
{
    if cols.len() == 0 {
        0
    } else {
        let m = max_dim_of(cols.drop_last());
        if cols.last().dim() > m {
            cols.last().dim()
        } else {
            m
        }
    }
}

/// The maximum dimension bounds every column's dimension.
pub proof fn lemma_max_dim_bound<C: Column>(cols: Seq<C>)
    ensures
        forall|i: int| 0 <= i < cols.len() ==> (#[trigger] cols[i]).dim() <= max_dim_of(cols),
    decreases cols.len(),
{
    if cols.len() > 0 {
        lemma_max_dim_bound(cols.drop_last());
        assert forall|i: int|
            0 <= i < cols.len() implies (#[trigger] cols[i]).dim() <= max_dim_of(cols) by {
            if i < cols.len() - 1 {
                assert(cols.drop_last()[i] == cols[i]);
            }
        }
    }
}

/// Every entry of every column lies below `n`.
pub open spec fn entries_below<C: Column>(cols: Seq<C>, n: int) -> bool {
    forall|j: int, x: usize|
        0 <= j < cols.len() && (#[trigger] cols[j].ents().contains(x)) ==> x < n
}

/// The anti-transpose relation: column `i` of `at` holds row `x` exactly
/// when column `n-1-x` of `m` holds row `n-1-i`, and dimensions are
/// reflected below the maximum dimension.
pub open spec fn at_rel<C: Column>(m: Seq<C>, at: Seq<C>) -> bool {
    &&& at.len() == m.len()
    &&& forall|i: int|
        0 <= i < at.len() ==> (#[trigger] at[i]).dim() == max_dim_of(m) - m[m.len() - 1 - i].dim()
    &&& forall|i: int, x: usize|
        0 <= i < at.len() ==> ((#[trigger] at[i].ents().contains(x)) <==> (x as int) < m.len()
            && m[m.len() - 1 - (x as int)].ents().contains((m.len() - 1 - i) as usize))
}

/// Anti-transposes a square input matrix (e.g. to compute cohomology):
/// column `i` of the result holds row `x` exactly when column `n-1-x` of the
/// input holds row `n-1-i`, and dimensions are reflected below the maximum
/// dimension.
pub fn anti_transpose<C: Column>(matrix: &Vec<C>) -> (at: Vec<C>)
    requires
        all_inv(matrix@),
        matrix@.len() > 0,
        entries_below(matrix@, matrix@.len() as int),
    ensures
        at@.len() == matrix@.len(),
        all_inv(at@),
        forall|i: int|
            0 <= i < at@.len() ==> (#[trigger] at@[i]).dim() == max_dim_of(matrix@) - matrix@[
                matrix@.len() - 1 - i
            ].dim(),
        forall|i: int, x: usize|
            0 <= i < at@.len() ==> ((#[trigger] at@[i].ents().contains(x)) <==> x < matrix@.len()
                && matrix@[matrix@.len() - 1 - x].ents().contains(
                (matrix@.len() - 1 - i) as usize,
            )),
        entries_below(at@, at@.len() as int),
        at_rel(matrix@, at@),
{
    let width = matrix.len();
    let ghost m = matrix@;
    // Find the maximum dimension.
    let mut max_dim: usize = 0;
    let mut j: usize = 0;
    proof {
        assert(m.take(0) =~= Seq::<C>::empty());
    }
    while j < width
        invariant
            j <= width,
            width == m.len(),
            matrix@ == m,
            all_inv(m),
            max_dim as nat == max_dim_of(m.take(j as int)),
        decreases width - j,
    {
        let d = matrix[j].dimension();
        proof {
            assert(m.take(j as int + 1).drop_last() =~= m.take(j as int));
            assert(m.take(j as int + 1).last() == m[j as int]);
        }
        if d > max_dim {
            max_dim = d;
        }
        j += 1;
    }
    proof {
        assert(m.take(width as int) =~= m);
        lemma_max_dim_bound(m);
    }
    let mut at: Vec<C> = Vec::new();
    let mut i: usize = 0;
    while i < width
        invariant
            i <= width,
            width == m.len(),
            matrix@ == m,
            all_inv(m),
            entries_below(m, m.len() as int),
            max_dim as nat == max_dim_of(m),
            forall|k: int| 0 <= k < m.len() ==> (#[trigger] m[k]).dim() <= max_dim as nat,
            at@.len() == i,
            all_inv(at@),
            forall|k: int|
                0 <= k < i ==> (#[trigger] at@[k]).dim() == max_dim_of(m) - m[m.len() - 1
                    - k].dim(),
            forall|k: int, x: usize|
                0 <= k < i ==> ((#[trigger] at@[k].ents().contains(x)) <==> x < m.len() && m[m.len()
                    - 1 - x].ents().contains((m.len() - 1 - k) as usize)),
        decreases width - i,
    {
        // Collect, in increasing order, the rows of the reflected column.
        let mut rows: Vec<usize> = Vec::new();
        let mut x: usize = 0;
        while x < width
            invariant
                x <= width,
                width == m.len(),
                matrix@ == m,
                all_inv(m),
                i < width,
                strictly_sorted(rows@),
                forall|a: int| 0 <= a < rows@.len() ==> (#[trigger] rows@[a]) < x,
                forall|y: usize|
                    (#[trigger] rows@.contains(y)) <==> y < x && m[m.len() - 1 - y].ents().contains(
                        (m.len() - 1 - i) as usize,
                    ),
            decreases width - x,
        {
            if matrix[width - 1 - x].has_entry(&(width - 1 - i)) {
                let ghost pre = rows@;
                rows.push(x);
                proof {
                    assert forall|y: usize|
                        (#[trigger] rows@.contains(y)) <==> (pre.contains(y) || y == x) by {
                        if rows@.contains(y) {
                            let a = choose|a: int| 0 <= a < rows@.len() && rows@[a] == y;
                            if a < pre.len() {
                                assert(pre[a] == y);
                            }
                        }
                        if pre.contains(y) {
                            let a = choose|a: int| 0 <= a < pre.len() && pre[a] == y;
                            assert(rows@[a] == y);
                        }
                        if y == x {
                            assert(rows@[rows@.len() - 1] == y);
                        }
                    }
                }
            }
            x += 1;
        }
        let dim = matrix[width - 1 - i].dimension();
        let mut c = C::new_with_dimension(max_dim - dim);
        let ghost empty_ents = c.ents();
        c.add_entries(&rows);
        proof {
            lemma_toggle_all_sorted(empty_ents, rows@);
            lemma_sym_diff_props(empty_ents, rows@);
            assert(c.ents() =~= rows@) by {
                crate::f2::lemma_sorted_same_membership(c.ents(), rows@);
            }
        }
        at.push(c);
        i += 1;
    }
    proof {
        assert forall|j2: int, x: usize|
            0 <= j2 < at@.len() && (#[trigger] at@[j2].ents().contains(x)) implies x < at@.len() by {}
    }
    at
}

/// Re-indexes a persistence diagram, assuming that it was produced from an
/// anti-transposed matrix of size `matrix_size`.
pub fn anti_transpose_diagram(diagram: PersistenceDiagram, matrix_size: usize) -> (r:
    PersistenceDiagram)
    requires
        forall|k: int|
            0 <= k < diagram.paired@.len() ==> (#[trigger] diagram.paired@[k]).0 < matrix_size
                && diagram.paired@[k].1 < matrix_size,
        forall|k: int|
            0 <= k < diagram.unpaired@.len() ==> (#[trigger] diagram.unpaired@[k]) < matrix_size,
    ensures
        r.paired@ == Seq::new(
            diagram.paired@.len(),
            |k: int|
                (
                    (matrix_size - 1 - diagram.paired@[k].1) as usize,
                    (matrix_size - 1 - diagram.paired@[k].0) as usize,
                ),
        ),
        r.unpaired@ == Seq::new(
            diagram.unpaired@.len(),
            |k: int| (matrix_size - 1 - diagram.unpaired@[k]) as usize,
        ),
{
    diagram.anti_transpose(matrix_size)
}

/// The maximum dimension is attained by some column.
pub proof fn lemma_max_dim_attained<C: Column>(cols: Seq<C>)
    requires
        cols.len() > 0,
    ensures
        exists|i: int| 0 <= i < cols.len() && (#[trigger] cols[i]).dim() == max_dim_of(cols),
    decreases cols.len(),
{
    if cols.len() == 1 {
        assert(cols.drop_last().len() == 0);
        assert(max_dim_of(cols.drop_last()) == 0);
        assert(cols[0].dim() == max_dim_of(cols));
    } else {
        lemma_max_dim_attained(cols.drop_last());
        let j = choose|j: int|
            0 <= j < cols.drop_last().len() && (#[trigger] cols.drop_last()[j]).dim()
                == max_dim_of(cols.drop_last());
        if cols.last().dim() > max_dim_of(cols.drop_last()) {
            assert(cols[cols.len() - 1].dim() == max_dim_of(cols));
        } else {
            assert(cols.drop_last()[j] == cols[j]);
            assert(cols[j].dim() == max_dim_of(cols));
        }
    }
}

/// Anti-transpose involution: applying the column anti-transpose twice gives
/// back the input matrix, entry for entry and dimension for dimension.
/// The matrix must be square (every entry a valid column index) and must
/// contain a column of dimension zero, as a boundary matrix does.
pub proof fn lemma_anti_transpose_involution<C: Column>(m: Seq<C>, a: Seq<C>, b: Seq<C>)
    requires
        all_inv(m),
        all_inv(b),
        m.len() > 0,
        m.len() <= usize::MAX,
        entries_below(m, m.len() as int),
        at_rel(m, a),
        at_rel(a, b),
        exists|i: int| 0 <= i < m.len() && (#[trigger] m[i]).dim() == 0,
    ensures
        forall|i: int|
            0 <= i < m.len() ==> (#[trigger] b[i]).ents() == m[i].ents() && b[i].dim()
                == m[i].dim(),
{
    let n = m.len() as int;
    let big = max_dim_of(m);
    lemma_max_dim_bound(m);
    lemma_max_dim_bound(a);
    // the maximum dimension is preserved by the reflection
    assert(max_dim_of(a) == big) by {
        let i0 = choose|i: int| 0 <= i < m.len() && (#[trigger] m[i]).dim() == 0;
        assert(a[n - 1 - i0].dim() == big - m[n - 1 - (n - 1 - i0)].dim());
        assert(a[n - 1 - i0].dim() == big);
        lemma_max_dim_attained(a);
        let j = choose|j: int| 0 <= j < a.len() && (#[trigger] a[j]).dim() == max_dim_of(a);
        assert(a[j].dim() == big - m[n - 1 - j].dim());
        assert(max_dim_of(a) <= big);
        assert(a[n - 1 - i0].dim() <= max_dim_of(a));
    }
    assert forall|i: int|
        0 <= i < m.len() implies (#[trigger] b[i]).ents() == m[i].ents() && b[i].dim()
        == m[i].dim() by {
        assert(b[i].dim() == max_dim_of(a) - a[n - 1 - i].dim());
        assert(a[n - 1 - i].dim() == big - m[i].dim());
        assert(m[i].dim() <= big);
        assert(b[i].dim() == m[i].dim());
        assert forall|x: usize| #[trigger] b[i].ents().contains(x) <==> m[i].ents().contains(
            x,
        ) by {
            if b[i].ents().contains(x) {
                assert((x as int) < n);
                assert(a[n - 1 - (x as int)].ents().contains((n - 1 - i) as usize));
                assert(m[n - 1 - ((n - 1 - i) as usize as int)].ents().contains(
                    (n - 1 - (n - 1 - (x as int))) as usize,
                ));
                assert(m[i].ents().contains(x));
            }
            if m[i].ents().contains(x) {
                assert((x as int) < n);
                assert(a[n - 1 - (x as int)].ents().contains((n - 1 - i) as usize)) by {
                    assert(((n - 1 - i) as usize as int) < n);
                    assert(m[n - 1 - ((n - 1 - i) as usize as int)].ents().contains(
                        (n - 1 - (n - 1 - (x as int))) as usize,
                    ));
                }
                assert(b[i].ents().contains(x));
            }
        }
        m[i].lemma_inv_sorted();
        b[i].lemma_inv_sorted();
        lemma_sorted_same_membership(b[i].ents(), m[i].ents());
    }
}

} // verus!
