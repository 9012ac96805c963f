//! Mathematical model of sparse columns over the two-element field.
//!
//! A column is modelled as the strictly increasing sequence of its non-zero
//! row indices.  Addition of columns is symmetric difference of those
//! sequences; the pivot of a column is its largest (last) entry.

use vstd::prelude::*;

verus! {

/// The entries of a column form a strictly increasing sequence.
pub open spec fn strictly_sorted(s: Seq<usize>) -> bool {
    forall|i: int, j: int| 0 <= i < j < s.len() ==> s[i] < s[j]
}

/// The pivot (largest non-zero row index) of a column, if any.
pub open spec fn spec_pivot(s: Seq<usize>) -> Option<usize> {
    if s.len() == 0 {
        None
    } else {
        Some(s.last())
    }
}

/// A measure that strictly decreases when a column's pivot decreases,
/// treating the empty column as the least element.
pub open spec fn pivot_rank(s: Seq<usize>) -> nat {
    if s.len() == 0 {
        0
    } else {
        s.last() as nat + 1
    }
}

/// Symmetric difference of two strictly increasing sequences, by merging.
pub open spec fn sym_diff(a: Seq<usize>, b: Seq<usize>) -> Seq<usize>
    decreases a.len() + b.len(),
{
    if a.len() == 0 {
        b
    } else if b.len() == 0 {
        a
    } else if a[0] < b[0] {
        seq![a[0]] + sym_diff(a.skip(1), b)
    } else if b[0] < a[0] {
        seq![b[0]] + sym_diff(a, b.skip(1))
    } else {
        sym_diff(a.skip(1), b.skip(1))
    }
}

/// Membership in a sequence is determined by the head and the tail.
pub proof fn lemma_head_contains(s: Seq<usize>, x: usize)
    requires
        s.len() > 0,
    ensures
        s.contains(x) <==> (x == s[0] || s.skip(1).contains(x)),
{
    if s.contains(x) {
        let i = choose|i: int| 0 <= i < s.len() && s[i] == x;
        if i > 0 {
            assert(s.skip(1)[i - 1] == x);
            assert(s.skip(1).contains(x));
        }
    }
    if s.skip(1).contains(x) {
        let i = choose|i: int| 0 <= i < s.skip(1).len() && s.skip(1)[i] == x;
        assert(s[i + 1] == x);
        assert(s.contains(x));
    }
    if x == s[0] {
        assert(s[0] == x);
        assert(s.contains(x));
    }
}

/// The tail of a strictly sorted sequence is strictly sorted, and every
/// element of the tail exceeds the head.
pub proof fn lemma_sorted_tail(s: Seq<usize>)
    requires
        strictly_sorted(s),
        s.len() > 0,
    ensures
        strictly_sorted(s.skip(1)),
        forall|x: usize| #[trigger] s.skip(1).contains(x) ==> x > s[0],
{
    assert forall|x: usize| #[trigger] s.skip(1).contains(x) implies x > s[0] by {
        let i = choose|i: int| 0 <= i < s.skip(1).len() && s.skip(1)[i] == x;
        assert(s[i + 1] == x);
    }
}

/// Every element of a strictly sorted sequence is at most its last element.
pub proof fn lemma_sorted_last_max(s: Seq<usize>)
    requires
        strictly_sorted(s),
        s.len() > 0,
    ensures
        forall|x: usize| #[trigger] s.contains(x) ==> x <= s.last(),
{
    assert forall|x: usize| #[trigger] s.contains(x) implies x <= s.last() by {
        let i = choose|i: int| 0 <= i < s.len() && s[i] == x;
        if i < s.len() - 1 {
            assert(s[i] < s[s.len() - 1]);
        }
    }
}

/// The merge computing `sym_diff` returns a strictly sorted sequence whose
/// members are exactly those lying in one input but not the other.
pub proof fn lemma_sym_diff_props(a: Seq<usize>, b: Seq<usize>)
    requires
        strictly_sorted(a),
        strictly_sorted(b),
    ensures
        strictly_sorted(sym_diff(a, b)),
        forall|x: usize|
            #[trigger] sym_diff(a, b).contains(x) <==> (a.contains(x) != b.contains(x)),
    decreases a.len() + b.len(),
{
    let c = sym_diff(a, b);
    if a.len() == 0 {
        assert forall|x: usize| #[trigger] c.contains(x) implies (a.contains(x) != b.contains(x)) by {
            assert(!a.contains(x));
        }
        assert forall|x: usize| (a.contains(x) != b.contains(x)) implies c.contains(x) by {
            assert(!a.contains(x));
        }
    } else if b.len() == 0 {
        assert forall|x: usize| #[trigger] c.contains(x) implies (a.contains(x) != b.contains(x)) by {
            assert(!b.contains(x));
        }
        assert forall|x: usize| (a.contains(x) != b.contains(x)) implies c.contains(x) by {
            assert(!b.contains(x));
        }
    } else if a[0] < b[0] {
        lemma_sorted_tail(a);
        lemma_sym_diff_props(a.skip(1), b);
        let t = sym_diff(a.skip(1), b);
        assert(c == seq![a[0]] + t);
        assert(c[0] == a[0]);
        assert forall|i: int, j: int| 0 <= i < j < c.len() implies c[i] < c[j] by {
            if i == 0 {
                let y = c[j];
                assert(t[j - 1] == y);
                assert(t.contains(y));
                if a.skip(1).contains(y) {
                    lemma_sorted_tail(a);
                } else {
                    assert(b.contains(y));
                    lemma_sorted_tail(b);
                    let k = choose|k: int| 0 <= k < b.len() && b[k] == y;
                    if k > 0 {
                        assert(b[0] < b[k]);
                    }
                    assert(y >= b[0]);
                    assert(y > a[0]);
                }
            } else {
                assert(t[i - 1] < t[j - 1]);
            }
        }
        assert forall|x: usize| #[trigger] c.contains(x) implies (a.contains(x) != b.contains(x)) by {
            lemma_head_contains(c, x);
            lemma_head_contains(a, x);
            if x == a[0] {
                lemma_sorted_tail(a);
                if b.contains(x) {
                    let k = choose|k: int| 0 <= k < b.len() && b[k] == x;
                    if k > 0 {
                        assert(b[0] < b[k]);
                    }
                }
                assert(!b.contains(x));
            } else {
                assert(c.skip(1) == t);
            }
        }
        assert forall|x: usize| (a.contains(x) != b.contains(x)) implies c.contains(x) by {
            lemma_head_contains(c, x);
            lemma_head_contains(a, x);
            assert(c.skip(1) == t);
            if x != a[0] {
                assert(a.contains(x) == a.skip(1).contains(x));
            }
        }
    } else if b[0] < a[0] {
        lemma_sorted_tail(b);
        lemma_sym_diff_props(a, b.skip(1));
        let t = sym_diff(a, b.skip(1));
        assert(c == seq![b[0]] + t);
        assert(c[0] == b[0]);
        assert forall|i: int, j: int| 0 <= i < j < c.len() implies c[i] < c[j] by {
            if i == 0 {
                let y = c[j];
                assert(t[j - 1] == y);
                assert(t.contains(y));
                if b.skip(1).contains(y) {
                    lemma_sorted_tail(b);
                } else {
                    assert(a.contains(y));
                    let k = choose|k: int| 0 <= k < a.len() && a[k] == y;
                    if k > 0 {
                        assert(a[0] < a[k]);
                    }
                    assert(y >= a[0]);
                    assert(y > b[0]);
                }
            } else {
                assert(t[i - 1] < t[j - 1]);
            }
        }
        assert forall|x: usize| #[trigger] c.contains(x) implies (a.contains(x) != b.contains(x)) by {
            lemma_head_contains(c, x);
            lemma_head_contains(b, x);
            if x == b[0] {
                lemma_sorted_tail(b);
                if a.contains(x) {
                    let k = choose|k: int| 0 <= k < a.len() && a[k] == x;
                    if k > 0 {
                        assert(a[0] < a[k]);
                    }
                }
                assert(!a.contains(x));
            } else {
                assert(c.skip(1) == t);
            }
        }
        assert forall|x: usize| (a.contains(x) != b.contains(x)) implies c.contains(x) by {
            lemma_head_contains(c, x);
            lemma_head_contains(b, x);
            assert(c.skip(1) == t);
            if x != b[0] {
                assert(b.contains(x) == b.skip(1).contains(x));
            }
        }
    } else {
        lemma_sorted_tail(a);
        lemma_sorted_tail(b);
        lemma_sym_diff_props(a.skip(1), b.skip(1));
        assert forall|x: usize| #[trigger] c.contains(x) implies (a.contains(x) != b.contains(x)) by {
            lemma_head_contains(a, x);
            lemma_head_contains(b, x);
            if x == a[0] {
                assert(!a.skip(1).contains(x));
                assert(!b.skip(1).contains(x));
            }
        }
        assert forall|x: usize| (a.contains(x) != b.contains(x)) implies c.contains(x) by {
            lemma_head_contains(a, x);
            lemma_head_contains(b, x);
            if x == a[0] {
                assert(!a.skip(1).contains(x));
                assert(!b.skip(1).contains(x));
            }
        }
    }
}

/// Two strictly sorted sequences with the same members are equal.
pub proof fn lemma_sorted_same_membership(a: Seq<usize>, b: Seq<usize>)
    requires
        strictly_sorted(a),
        strictly_sorted(b),
        forall|x: usize| #[trigger] a.contains(x) <==> #[trigger] b.contains(x),
    ensures
        a == b,
    decreases a.len() + b.len(),
{
    if a.len() == 0 {
        if b.len() > 0 {
            assert(b.contains(b[0]));
            assert(a.contains(b[0]));
            assert(false);
        }
        assert(a =~= b);
    } else if b.len() == 0 {
        assert(a.contains(a[0]));
        assert(b.contains(a[0]));
        assert(false);
        assert(a =~= b);
    } else {
        assert(a.contains(a[0]));
        assert(b.contains(b[0]));
        assert(b.contains(a[0]));
        assert(a.contains(b[0]));
        let i = choose|i: int| 0 <= i < b.len() && b[i] == a[0];
        assert(0 <= i < b.len() && b[i] == a[0]);
        if i > 0 {
            assert(b[0] < b[i]);
        }
        let j = choose|j: int| 0 <= j < a.len() && a[j] == b[0];
        assert(0 <= j < a.len() && a[j] == b[0]);
        if j > 0 {
            assert(a[0] < a[j]);
        }
        assert(a[0] == b[0]);
        lemma_sorted_tail(a);
        lemma_sorted_tail(b);
        assert forall|x: usize| #[trigger] a.skip(1).contains(x) <==> #[trigger] b.skip(1).contains(x) by {
            lemma_head_contains(a, x);
            lemma_head_contains(b, x);
            if a.skip(1).contains(x) {
                assert(x > a[0]);
                assert(a.contains(x));
            }
            if b.skip(1).contains(x) {
                assert(x > b[0]);
                assert(b.contains(x));
            }
        }
        lemma_sorted_same_membership(a.skip(1), b.skip(1));
        assert(a.len() == b.len());
        assert forall|k: int| 0 <= k < a.len() implies a[k] == b[k] by {
            if k > 0 {
                assert(a.skip(1)[k - 1] == b.skip(1)[k - 1]);
            }
        }
        assert(a =~= b);
    }
}

/// A strictly sorted sequence whose members are exactly "in one of `a`, `b`
/// but not both" is the symmetric difference of `a` and `b`.
pub proof fn lemma_sym_diff_char(a: Seq<usize>, b: Seq<usize>, c: Seq<usize>)
    requires
        strictly_sorted(a),
        strictly_sorted(b),
        strictly_sorted(c),
        forall|x: usize| #[trigger] c.contains(x) <==> (a.contains(x) != b.contains(x)),
    ensures
        c == sym_diff(a, b),
{
    lemma_sym_diff_props(a, b);
    lemma_sorted_same_membership(c, sym_diff(a, b));
}

/// Adding a column whose pivot equals the target's pivot cancels that pivot:
/// the sum's entries all lie strictly below it.
pub proof fn lemma_sym_diff_pivot_lt(a: Seq<usize>, b: Seq<usize>)
    requires
        strictly_sorted(a),
        strictly_sorted(b),
        a.len() > 0,
        b.len() > 0,
        a.last() == b.last(),
    ensures
        pivot_rank(sym_diff(a, b)) < pivot_rank(a),
        forall|x: usize| #[trigger] sym_diff(a, b).contains(x) ==> x < a.last(),
{
    lemma_sym_diff_props(a, b);
    lemma_sorted_last_max(a);
    lemma_sorted_last_max(b);
    let c = sym_diff(a, b);
    assert forall|x: usize| #[trigger] c.contains(x) implies x < a.last() by {
        assert(a.contains(x) != b.contains(x));
        assert(x <= a.last());
        if x == a.last() {
            assert(a.contains(a.last())) by {
                assert(a[a.len() - 1] == a.last());
            }
            assert(b.contains(b.last())) by {
                assert(b[b.len() - 1] == b.last());
            }
        }
    }
    if c.len() > 0 {
        assert(c.contains(c.last())) by {
            assert(c[c.len() - 1] == c.last());
        }
    }
}

/// The result of toggling, one after another, each entry of `es` in `s`.
pub open spec fn toggle_all(s: Seq<usize>, es: Seq<usize>) -> Seq<usize>
    decreases es.len(),
{
    if es.len() == 0 {
        s
    } else {
        toggle_all(sym_diff(s, seq![es[0]]), es.skip(1))
    }
}

/// Whether `x` occurs an odd number of times in `es`.
pub open spec fn occ_odd(es: Seq<usize>, x: usize) -> bool
    decreases es.len(),
{
    if es.len() == 0 {
        false
    } else {
        (es[0] == x) != occ_odd(es.skip(1), x)
    }
}

/// Toggling a list of entries keeps the column sorted and flips membership of
/// each row occurring an odd number of times.
pub proof fn lemma_toggle_all_props(s: Seq<usize>, es: Seq<usize>)
    requires
        strictly_sorted(s),
    ensures
        strictly_sorted(toggle_all(s, es)),
        forall|x: usize|
            #[trigger] toggle_all(s, es).contains(x) <==> (s.contains(x) != occ_odd(es, x)),
    decreases es.len(),
{
    if es.len() > 0 {
        let e0 = es[0];
        assert(strictly_sorted(seq![e0]));
        lemma_sym_diff_props(s, seq![e0]);
        let s2 = sym_diff(s, seq![e0]);
        lemma_toggle_all_props(s2, es.skip(1));
        assert forall|x: usize| #[trigger] seq![e0].contains(x) <==> x == e0 by {
            if seq![e0].contains(x) {
                let i = choose|i: int| 0 <= i < seq![e0].len() && seq![e0][i] == x;
            }
            if x == e0 {
                assert(seq![e0][0] == x);
            }
        }
    }
}

/// Toggling the entries of a strictly sorted list equals adding it as a
/// column.
pub proof fn lemma_toggle_all_sorted(s: Seq<usize>, es: Seq<usize>)
    requires
        strictly_sorted(s),
        strictly_sorted(es),
    ensures
        toggle_all(s, es) == sym_diff(s, es),
    decreases es.len(),
{
    lemma_toggle_all_props(s, es);
    assert forall|x: usize| occ_odd(es, x) <==> #[trigger] es.contains(x) by {
        lemma_occ_odd_sorted(es, x);
    }
    lemma_sym_diff_props(s, es);
    lemma_sym_diff_char(s, es, toggle_all(s, es));
}

/// In a strictly sorted list, odd multiplicity is just membership.
pub proof fn lemma_occ_odd_sorted(es: Seq<usize>, x: usize)
    requires
        strictly_sorted(es),
    ensures
        occ_odd(es, x) == es.contains(x),
    decreases es.len(),
{
    if es.len() > 0 {
        lemma_sorted_tail(es);
        lemma_occ_odd_sorted(es.skip(1), x);
        lemma_head_contains(es, x);
        if es[0] == x {
            if es.skip(1).contains(x) {
                assert(x > es[0]);
            }
        }
    }
}

/// A singleton sequence contains exactly its one element.
pub proof fn lemma_singleton_contains(e: usize)
    ensures
        forall|x: usize| #[trigger] seq![e].contains(x) <==> x == e,
{
    assert forall|x: usize| #[trigger] seq![e].contains(x) <==> x == e by {
        if seq![e].contains(x) {
            let i = choose|i: int| 0 <= i < seq![e].len() && seq![e][i] == x;
        }
        if x == e {
            assert(seq![e][0] == x);
        }
    }
}

/// A prefix of a strictly sorted sequence is strictly sorted, its members are
/// exactly the elements at the taken positions, and they all lie strictly
/// below the next element.
pub proof fn lemma_sorted_take(t: Seq<usize>, k: int)
    requires
        strictly_sorted(t),
        0 <= k <= t.len(),
    ensures
        strictly_sorted(t.take(k)),
        forall|x: usize|
            #[trigger] t.take(k).contains(x) <==> exists|i: int| 0 <= i < k && t[i] == x,
        k < t.len() ==> forall|x: usize| #[trigger] t.take(k).contains(x) ==> x < t[k],
{
    assert forall|x: usize|
        #[trigger] t.take(k).contains(x) <==> exists|i: int| 0 <= i < k && t[i] == x by {
        if t.take(k).contains(x) {
            let i = choose|i: int| 0 <= i < k && t.take(k)[i] == x;
            assert(t[i] == x);
        }
        if exists|i: int| 0 <= i < k && t[i] == x {
            let i = choose|i: int| 0 <= i < k && t[i] == x;
            assert(t.take(k)[i] == x);
        }
    }
    if k < t.len() {
        assert forall|x: usize| #[trigger] t.take(k).contains(x) implies x < t[k] by {
            let i = choose|i: int| 0 <= i < k && t[i] == x;
        }
    }
}

/// Toggling one further entry after a prefix of entries extends the prefix.
pub proof fn lemma_sym_diff_step(s: Seq<usize>, t: Seq<usize>, k: int)
    requires
        strictly_sorted(s),
        strictly_sorted(t),
        0 <= k < t.len(),
    ensures
        sym_diff(sym_diff(s, t.take(k)), seq![t[k]]) == sym_diff(s, t.take(k + 1)),
{
    lemma_sorted_take(t, k);
    lemma_sorted_take(t, k + 1);
    lemma_singleton_contains(t[k]);
    lemma_sym_diff_props(s, t.take(k));
    lemma_sym_diff_props(sym_diff(s, t.take(k)), seq![t[k]]);
    lemma_sym_diff_props(s, t.take(k + 1));
    assert forall|x: usize|
        #[trigger] sym_diff(sym_diff(s, t.take(k)), seq![t[k]]).contains(x)
            <==> sym_diff(s, t.take(k + 1)).contains(x) by {
        assert(t.take(k + 1).contains(x) <==> (t.take(k).contains(x) || x == t[k])) by {
            if t.take(k).contains(x) {
                let i = choose|i: int| 0 <= i < k && t[i] == x;
            }
        }
        if t.take(k).contains(x) && x == t[k] {
            assert(x < t[k]);
        }
    }
    lemma_sorted_same_membership(
        sym_diff(sym_diff(s, t.take(k)), seq![t[k]]),
        sym_diff(s, t.take(k + 1)),
    );
}

/// Toggling the entries of `es` and then one more entry `e` is the same as
/// toggling the entries of `es.push(e)`.
pub proof fn lemma_toggle_all_push(s: Seq<usize>, es: Seq<usize>, e: usize)
    ensures
        toggle_all(s, es.push(e)) == sym_diff(toggle_all(s, es), seq![e]),
    decreases es.len(),
{
    if es.len() == 0 {
        assert(es.push(e)[0] == e);
        assert(es.push(e).skip(1) =~= Seq::<usize>::empty());
        assert(toggle_all(s, es.push(e)) == toggle_all(sym_diff(s, seq![e]), Seq::<usize>::empty()));
    } else {
        assert(es.push(e)[0] == es[0]);
        assert(es.push(e).skip(1) =~= es.skip(1).push(e));
        lemma_toggle_all_push(sym_diff(s, seq![es[0]]), es.skip(1), e);
    }
}

/// Every column of a matrix is strictly sorted.
pub open spec fn cols_sorted(cols: Seq<Seq<usize>>) -> bool {
    forall|j: int| 0 <= j < cols.len() ==> strictly_sorted(#[trigger] cols[j])
}

/// Every index in `idxs` denotes a column of `cols`.
pub open spec fn idxs_ok(cols: Seq<Seq<usize>>, idxs: Seq<usize>) -> bool {
    forall|k: int| 0 <= k < idxs.len() ==> (#[trigger] idxs[k]) < cols.len()
}

/// The sum, over the two-element field, of the columns of `cols` selected by
/// `idxs`.
pub open spec fn xor_sum(cols: Seq<Seq<usize>>, idxs: Seq<usize>) -> Seq<usize>
    decreases idxs.len(),
{
    if idxs.len() == 0 {
        Seq::empty()
    } else {
        sym_diff(cols[idxs[0] as int], xor_sum(cols, idxs.skip(1)))
    }
}

/// Whether row `x` occurs an odd number of times over the selected columns.
pub open spec fn xor_mem(cols: Seq<Seq<usize>>, idxs: Seq<usize>, x: usize) -> bool
    decreases idxs.len(),
{
    if idxs.len() == 0 {
        false
    } else {
        cols[idxs[0] as int].contains(x) != xor_mem(cols, idxs.skip(1), x)
    }
}

/// The XOR-sum of sorted columns is sorted, and its members are the rows with
/// odd multiplicity.
pub proof fn lemma_xor_sum_props(cols: Seq<Seq<usize>>, idxs: Seq<usize>)
    requires
        cols_sorted(cols),
        idxs_ok(cols, idxs),
    ensures
        strictly_sorted(xor_sum(cols, idxs)),
        forall|x: usize|
            #[trigger] xor_sum(cols, idxs).contains(x) <==> xor_mem(cols, idxs, x),
    decreases idxs.len(),
{
    if idxs.len() == 0 {
        assert forall|x: usize| #[trigger] xor_sum(cols, idxs).contains(x) implies false by {
            let i = choose|i: int| 0 <= i < xor_sum(cols, idxs).len() && xor_sum(cols, idxs)[i] == x;
        }
    } else {
        assert(idxs[0] < cols.len());
        assert forall|k: int| 0 <= k < idxs.skip(1).len() implies (#[trigger] idxs.skip(1)[k]) < cols.len() by {
            assert(idxs.skip(1)[k] == idxs[k + 1]);
        }
        lemma_xor_sum_props(cols, idxs.skip(1));
        assert(strictly_sorted(cols[idxs[0] as int]));
        lemma_sym_diff_props(cols[idxs[0] as int], xor_sum(cols, idxs.skip(1)));
    }
}

/// Parity of occurrence distributes over symmetric difference of the
/// selecting sets.
pub proof fn lemma_xor_mem_sym_diff(cols: Seq<Seq<usize>>, a: Seq<usize>, b: Seq<usize>, x: usize)
    requires
        strictly_sorted(a),
        strictly_sorted(b),
    ensures
        xor_mem(cols, sym_diff(a, b), x) == (xor_mem(cols, a, x) != xor_mem(cols, b, x)),
    decreases a.len() + b.len(),
{
    if a.len() == 0 {
        assert(sym_diff(a, b) == b);
    } else if b.len() == 0 {
        assert(sym_diff(a, b) == a);
    } else if a[0] < b[0] {
        lemma_sorted_tail(a);
        lemma_xor_mem_sym_diff(cols, a.skip(1), b, x);
        let t = sym_diff(a.skip(1), b);
        assert(sym_diff(a, b) == seq![a[0]] + t);
        assert((seq![a[0]] + t)[0] == a[0]);
        assert((seq![a[0]] + t).skip(1) =~= t);
    } else if b[0] < a[0] {
        lemma_sorted_tail(b);
        lemma_xor_mem_sym_diff(cols, a, b.skip(1), x);
        let t = sym_diff(a, b.skip(1));
        assert(sym_diff(a, b) == seq![b[0]] + t);
        assert((seq![b[0]] + t)[0] == b[0]);
        assert((seq![b[0]] + t).skip(1) =~= t);
    } else {
        lemma_sorted_tail(a);
        lemma_sorted_tail(b);
        lemma_xor_mem_sym_diff(cols, a.skip(1), b.skip(1), x);
    }
}

/// Linearity: summing over the symmetric difference of two selecting sets
/// equals the symmetric difference of the two sums.
pub proof fn lemma_xor_linear(cols: Seq<Seq<usize>>, a: Seq<usize>, b: Seq<usize>)
    requires
        cols_sorted(cols),
        strictly_sorted(a),
        strictly_sorted(b),
        idxs_ok(cols, a),
        idxs_ok(cols, b),
    ensures
        xor_sum(cols, sym_diff(a, b)) == sym_diff(xor_sum(cols, a), xor_sum(cols, b)),
{
    lemma_sym_diff_props(a, b);
    assert forall|k: int| 0 <= k < sym_diff(a, b).len() implies (#[trigger] sym_diff(a, b)[k]) < cols.len() by {
        let y = sym_diff(a, b)[k];
        assert(sym_diff(a, b).contains(y));
        assert(a.contains(y) || b.contains(y));
        if a.contains(y) {
            let i = choose|i: int| 0 <= i < a.len() && a[i] == y;
        } else {
            let i = choose|i: int| 0 <= i < b.len() && b[i] == y;
        }
    }
    lemma_xor_sum_props(cols, a);
    lemma_xor_sum_props(cols, b);
    lemma_xor_sum_props(cols, sym_diff(a, b));
    lemma_sym_diff_props(xor_sum(cols, a), xor_sum(cols, b));
    assert forall|x: usize|
        #[trigger] xor_sum(cols, sym_diff(a, b)).contains(x)
            <==> sym_diff(xor_sum(cols, a), xor_sum(cols, b)).contains(x) by {
        lemma_xor_mem_sym_diff(cols, a, b, x);
    }
    lemma_sorted_same_membership(
        xor_sum(cols, sym_diff(a, b)),
        sym_diff(xor_sum(cols, a), xor_sum(cols, b)),
    );
}

/// Summing a single column yields that column.
pub proof fn lemma_xor_singleton(cols: Seq<Seq<usize>>, j: usize)
    requires
        cols_sorted(cols),
        j < cols.len(),
    ensures
        xor_sum(cols, seq![j]) == cols[j as int],
{
    let s = seq![j];
    assert(s.skip(1) =~= Seq::<usize>::empty());
    assert(xor_sum(cols, s.skip(1)) =~= Seq::<usize>::empty());
    assert(xor_sum(cols, s) == sym_diff(cols[j as int], Seq::<usize>::empty()));
    if cols[j as int].len() == 0 {
        assert(sym_diff(cols[j as int], Seq::<usize>::empty()) =~= cols[j as int]);
    }
}

/// Over a matrix of empty columns, every XOR-sum of columns is empty.
pub proof fn lemma_xor_sum_empty_cols(cols: Seq<Seq<usize>>, idxs: Seq<usize>)
    requires
        forall|j: int| 0 <= j < cols.len() ==> (#[trigger] cols[j]).len() == 0,
        idxs_ok(cols, idxs),
    ensures
        xor_sum(cols, idxs).len() == 0,
{
    assert(cols_sorted(cols)) by {
        assert forall|j: int| 0 <= j < cols.len() implies strictly_sorted(#[trigger] cols[j]) by {}
    }
    lemma_xor_sum_props(cols, idxs);
    assert forall|x: usize| !(#[trigger] xor_sum(cols, idxs).contains(x)) by {
        lemma_xor_mem_none(cols, idxs, x);
    }
    if xor_sum(cols, idxs).len() > 0 {
        assert(xor_sum(cols, idxs).contains(xor_sum(cols, idxs)[0]));
    }
}

/// Over a matrix of empty columns, no row has odd multiplicity.
proof fn lemma_xor_mem_none(cols: Seq<Seq<usize>>, idxs: Seq<usize>, x: usize)
    requires
        forall|j: int| 0 <= j < cols.len() ==> (#[trigger] cols[j]).len() == 0,
        idxs_ok(cols, idxs),
    ensures
        !xor_mem(cols, idxs, x),
    decreases idxs.len(),
{
    if idxs.len() > 0 {
        assert forall|k: int|
            0 <= k < idxs.skip(1).len() implies (#[trigger] idxs.skip(1)[k]) < cols.len() by {
            assert(idxs.skip(1)[k] == idxs[k + 1]);
        }
        lemma_xor_mem_none(cols, idxs.skip(1), x);
        assert(idxs[0] < cols.len());
        assert(cols[idxs[0] as int].len() == 0);
        if cols[idxs[0] as int].contains(x) {
            let w = choose|w: int|
                0 <= w < cols[idxs[0] as int].len() && cols[idxs[0] as int][w] == x;
        }
    }
}

} // verus!
