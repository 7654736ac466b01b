//! Laws of reordering and relabelling: reversing a labelling keeps the
//! bandwidth, reordering by a permutation keeps the nonzeros, reordering by
//! a permutation and then by its inverse gives the matrix back, and the
//! reverse Cuthill–McKee reordering finds the critical labels that
//! relabelling by its numbering finds.
use vstd::prelude::*;
use crate::csr::{identity_labels, label_dist, Matrix};
use crate::reorder::lemma_reorder_keeps_criticals;
use crate::cmr::lemma_row_of;
use crate::seqs::{
    is_permutation, lemma_is_sorted_seq, lemma_permutation_covers, lemma_usize_leq_total, nondecreasing, sorted_seq,
    usize_leq,
};

verus! {

/// `b` has the structure of `a` and the labels of `a` reversed: label `x`
/// becomes `L - 1 - x`, where `L` is the number of labels.
pub open spec fn reversed_labels(a: &Matrix, b: &Matrix) -> bool {
    let l = a.labels@.len();
    &&& b.col_index@ == a.col_index@
    &&& b.row_index@ == a.row_index@
    &&& b.m == a.m
    &&& b.n == a.n
    &&& b.labels@.len() == l
    &&& forall|i: int| 0 <= i < l ==> #[trigger] a.labels@[i] < l
    &&& forall|i: int| 0 <= i < l ==> #[trigger] b.labels@[i] == l - 1 - a.labels@[i]
}

/// Reversed labels are as far apart as the labels they come from.
proof fn lemma_reversed_max_dist(a: &Matrix, b: &Matrix, v: usize, s: Seq<usize>)
    requires
        reversed_labels(a, b),
        v < a.labels@.len(),
        forall|k: int| 0 <= k < s.len() ==> #[trigger] s[k] < a.labels@.len(),
    ensures
        b.max_dist_in(v, s) == a.max_dist_in(v, s),
    decreases s.len(),
{
    if s.len() > 0 {
        lemma_reversed_max_dist(a, b, v, s.drop_last());
        let u = s.last();
        assert(u == s[s.len() - 1]);
        assert(label_dist(b.labels@[v as int], b.labels@[u as int]) == label_dist(a.labels@[v as int], a.labels@[u as int]));
    }
}

/// Reversing a labelling, as reverse Cuthill–McKee does, keeps the
/// bandwidth: if `b` is `a` with every label `x` replaced by `L - 1 - x`
/// (`L` labels, all below `L`), both have the same bandwidth.
pub proof fn lemma_reversed_labels_keep_bandwidth(a: &Matrix, b: &Matrix)
    requires
        a.wf(),
        reversed_labels(a, b),
    ensures
        b.wf(),
        b.spec_bandwidth() == a.spec_bandwidth(),
{
    assert forall|r: int| 0 <= r < a.m implies #[trigger] b.vertex_bw(r) == a.vertex_bw(r) by {
        let row = a.row(r);
        assert(a.row_index@[r] <= a.row_index@[r + 1]);
        assert(a.row_index@[r + 1] <= a.row_index@[a.m as int]);
        assert forall|k: int| 0 <= k < row.len() implies #[trigger] row[k] < a.labels@.len() by {
            assert(row[k] == a.col_index@[a.row_index@[r] + k]);
        }
        assert(b.row(r) == row);
        lemma_reversed_max_dist(a, b, r as usize, row);
    }
    lemma_reversed_bw_upto(a, b, a.m as int);
}

proof fn lemma_reversed_bw_upto(a: &Matrix, b: &Matrix, k: int)
    requires
        reversed_labels(a, b),
        k <= a.m,
        forall|r: int| 0 <= r < a.m ==> #[trigger] b.vertex_bw(r) == a.vertex_bw(r),
    ensures
        b.bw_upto(k) == a.bw_upto(k),
    decreases k,
{
    if k > 0 {
        lemma_reversed_bw_upto(a, b, k - 1);
        assert(b.vertex_bw(k - 1) == a.vertex_bw(k - 1));
    }
}

/// Sum of a sequence of naturals.
pub open spec fn sum_nat(s: Seq<nat>) -> nat
    decreases s.len(),
{
    if s.len() == 0 {
        0
    } else {
        sum_nat(s.drop_last()) + s.last()
    }
}

/// Taking out one element takes it out of the sum.
pub proof fn lemma_sum_remove(s: Seq<nat>, j: int)
    requires
        0 <= j < s.len(),
    ensures
        sum_nat(s) == sum_nat(s.remove(j)) + s[j],
    decreases s.len(),
{
    if j < s.len() - 1 {
        let t = s.drop_last();
        lemma_sum_remove(t, j);
        assert(s.remove(j).drop_last() =~= t.remove(j));
        assert(s.remove(j).last() == s.last());
    } else {
        assert(s.remove(j) =~= s.drop_last());
    }
}

/// Moving the elements of `s` to the places that `f` gives them keeps the
/// sum: if `t[f[i]] == s[i]` for a permutation `f`, `s` and `t` have the
/// same sum.
pub proof fn lemma_sum_reindex(s: Seq<nat>, t: Seq<nat>, f: Seq<usize>)
    requires
        t.len() == s.len(),
        is_permutation(f, s.len()),
        forall|i: int| 0 <= i < s.len() ==> #[trigger] t[f[i] as int] == s[i],
    ensures
        sum_nat(s) == sum_nat(t),
    decreases s.len(),
{
    let n = s.len();
    if n > 0 {
        let k = n - 1;
        let j = f[k] as int;
        let s2 = s.drop_last();
        let t2 = t.remove(j);
        let f2 = Seq::new((n - 1) as nat, |i: int| if f[i] < j { f[i] } else { (f[i] - 1) as usize });
        assert forall|i: int| 0 <= i < n - 1 implies #[trigger] f2[i] < n - 1 && t2[f2[i] as int] == s2[i] by {
            assert(f[i] != f[k]);
        }
        assert forall|x: int, y: int| 0 <= x < y < n - 1 implies #[trigger] f2[x] != #[trigger] f2[y] by {
            assert(f[x] != f[y]);
            assert(f[x] != f[k]);
            assert(f[y] != f[k]);
        }
        lemma_sum_reindex(s2, t2, f2);
        lemma_sum_remove(t, j);
    }
}

/// Number of nonzeros in row `r`, or 0 when `r` is not a row.
pub open spec fn row_len(x: &Matrix, r: int) -> nat {
    if 0 <= r < x.m {
        (x.row_index@[r + 1] - x.row_index@[r]) as nat
    } else {
        0
    }
}

/// The row lengths of the first `k` vertices.
pub open spec fn row_lens(x: &Matrix, k: nat) -> Seq<nat> {
    Seq::new(k, |r: int| row_len(x, r))
}

/// The row lengths of the first `k` vertices add up to where row `k`
/// starts (or to the number of nonzeros, past the last row).
pub proof fn lemma_row_lens_sum(x: &Matrix, k: nat)
    requires
        x.wf(),
    ensures
        sum_nat(row_lens(x, k)) == x.row_index@[if k <= x.m { k as int } else { x.m as int }],
    decreases k,
{
    if k > 0 {
        lemma_row_lens_sum(x, (k - 1) as nat);
        assert(row_lens(x, k).drop_last() =~= row_lens(x, (k - 1) as nat));
        if k <= x.m {
            assert(x.row_index@[k - 1] <= x.row_index@[k as int]);
        }
    }
}

proof fn lemma_row_len(x: &Matrix, r: int)
    requires
        x.wf(),
        0 <= r < x.m,
    ensures
        x.row(r).len() == row_len(x, r),
{
    assert(x.row_index@[r] <= x.row_index@[r + 1]);
    assert(x.row_index@[r + 1] <= x.row_index@[x.m as int]);
}

/// Sorting keeps the length and leaves the sequence nondecreasing.
proof fn lemma_sorted_seq(s: Seq<usize>)
    ensures
        sorted_seq(s).len() == s.len(),
        nondecreasing(sorted_seq(s)),
        sorted_seq(s).to_multiset() == s.to_multiset(),
{
    broadcast use vstd::seq_lib::group_to_multiset_ensures;

    lemma_usize_leq_total();
    s.lemma_sort_by_ensures(usize_leq());
    let r = sorted_seq(s);
    assert(r.len() == s.len()) by {
        assert(r.to_multiset().len() == s.to_multiset().len());
    }
    assert forall|i: int, j: int| 0 <= i <= j < r.len() implies #[trigger] r[i] <= #[trigger] r[j] by {
        if i < j {
            assert((usize_leq())(r[i], r[j]));
        }
    }
}

/// Reordering by a permutation keeps the number of nonzeros and leaves every
/// row sorted.  Let `b` be `a` reordered by the permutation `p` of
/// `0 .. max(m, n)`, as `reorder` makes it.  Then `b` has as many nonzeros
/// as `a`, and the columns of each row of `b` are in nondecreasing order.
pub proof fn lemma_reorder_keeps_nonzeros(a: &Matrix, p: Seq<usize>, b: &Matrix)
    requires
        a.wf(),
        is_permutation(p, a.size()),
        b.wf(),
        b.m == a.size(),
        forall|r: int| 0 <= r < b.m ==> #[trigger] b.row(r) == a.reordered_row(p, r),
    ensures
        b.col_index@.len() == a.col_index@.len(),
        forall|r: int| 0 <= r < b.m ==> nondecreasing(#[trigger] b.row(r)),
{
    let size = a.size();
    let s = row_lens(a, size);
    let t = row_lens(b, size);
    assert forall|o: int| 0 <= o < size implies #[trigger] t[p[o] as int] == s[o] by {
        let r = p[o] as int;
        a.lemma_source_row_of_permutation(p, o);
        lemma_row_len(b, r);
        if o < a.m {
            lemma_row_len(a, o);
            lemma_sorted_seq(a.row(o).map_values(|c: usize| p[c as int]));
        }
    }
    lemma_sum_reindex(s, t, p);
    lemma_row_lens_sum(a, size);
    lemma_row_lens_sum(b, size);
    assert forall|r: int| 0 <= r < b.m implies nondecreasing(#[trigger] b.row(r)) by {
        let o = a.source_row(p, r);
        if o < a.m {
            lemma_sorted_seq(a.row(o as int).map_values(|c: usize| p[c as int]));
        }
    }
}

/// Renaming the elements keeps two sequences with the same elements alike.
pub proof fn lemma_map_multiset(s1: Seq<usize>, s2: Seq<usize>, g: spec_fn(usize) -> usize)
    requires
        s1.to_multiset() == s2.to_multiset(),
    ensures
        s1.map_values(g).to_multiset() == s2.map_values(g).to_multiset(),
    decreases s1.len(),
{
    broadcast use vstd::seq_lib::group_to_multiset_ensures;
    broadcast use vstd::multiset::group_multiset_axioms;

    if s1.len() == 0 {
        assert(s1.to_multiset().len() == 0);
        assert(s2.to_multiset().len() == s2.len());
        assert(s2.len() == 0);
        assert(s1.map_values(g) =~= Seq::<usize>::empty());
        assert(s2.map_values(g) =~= Seq::<usize>::empty());
    } else {
        let a = s1.last();
        let t1 = s1.drop_last();
        assert(s1 =~= t1.push(a));
        assert(s1.to_multiset().count(a) > 0);
        assert(s2.contains(a));
        let i = choose|i: int| 0 <= i < s2.len() && s2[i] == a;
        let t2 = s2.remove(i);
        assert(t2.to_multiset() =~= s2.to_multiset().remove(a));
        assert(t1.to_multiset() =~= t2.to_multiset());
        lemma_map_multiset(t1, t2, g);
        let m1 = s1.map_values(g);
        let m2 = s2.map_values(g);
        assert(m1 =~= t1.map_values(g).push(g(a)));
        assert(m2.remove(i) =~= t2.map_values(g));
        assert(m2[i] == g(a));
        assert(m2.remove(i).to_multiset() =~= m2.to_multiset().remove(g(a)));
        assert(m2.contains(g(a)));
        assert(m2.to_multiset() =~= m2.to_multiset().remove(g(a)).insert(g(a)));
    }
}

/// `q` undoes the permutation `p` of `0 .. size`.
pub open spec fn is_inverse(q: Seq<usize>, p: Seq<usize>, size: nat) -> bool {
    &&& q.len() == size
    &&& forall|i: int| 0 <= i < size ==> #[trigger] q[p[i] as int] == i
}

proof fn lemma_inverse_is_permutation(q: Seq<usize>, p: Seq<usize>, size: nat)
    requires
        size <= usize::MAX,
        is_permutation(p, size),
        is_inverse(q, p, size),
    ensures
        is_permutation(q, size),
        forall|i: int| 0 <= i < size ==> #[trigger] p[q[i] as int] == i,
{
    lemma_permutation_covers(p, size);
    assert forall|x: int| 0 <= x < size implies #[trigger] q[x] < size && p[q[x] as int] == x by {
        assert(p.contains(x as usize));
        let i = choose|i: int| 0 <= i < p.len() && p[i] == x as usize;
        assert(q[p[i] as int] == i);
    }
    assert forall|x: int, y: int| 0 <= x < y < size implies #[trigger] q[x] != #[trigger] q[y] by {
        assert(p[q[x] as int] == x);
        assert(p[q[y] as int] == y);
    }
}

/// Two sound matrices with the same rows have the same structure.
pub proof fn lemma_same_rows(a: &Matrix, c: &Matrix)
    requires
        a.wf(),
        c.wf(),
        c.m == a.m,
        forall|r: int| 0 <= r < a.m ==> #[trigger] c.row(r) == a.row(r),
    ensures
        c.row_index@ == a.row_index@,
        c.col_index@ == a.col_index@,
{
    lemma_same_row_starts(a, c, a.m as int);
    assert(c.row_index@ =~= a.row_index@);
    assert forall|j: int| 0 <= j < a.col_index@.len() implies c.col_index@[j] == a.col_index@[j] by {
        lemma_row_of(a, j, a.m as int);
        let r = choose|r: int| 0 <= r < a.m && a.row_index@[r] <= j < #[trigger] a.row_index@[r + 1];
        lemma_row_len(a, r);
        let t = j - a.row_index@[r];
        assert(a.row(r)[t] == a.col_index@[j]);
        assert(c.row(r)[t] == c.col_index@[j]);
    }
    assert(c.col_index@ =~= a.col_index@);
}

proof fn lemma_same_row_starts(a: &Matrix, c: &Matrix, k: int)
    requires
        a.wf(),
        c.wf(),
        c.m == a.m,
        0 <= k <= a.m,
        forall|r: int| 0 <= r < a.m ==> #[trigger] c.row(r) == a.row(r),
    ensures
        forall|i: int| 0 <= i <= k ==> #[trigger] c.row_index@[i] == a.row_index@[i],
    decreases k,
{
    if k > 0 {
        lemma_same_row_starts(a, c, k - 1);
        lemma_row_len(a, k - 1);
        lemma_row_len(c, k - 1);
        assert(c.row(k - 1) == a.row(k - 1));
        assert forall|i: int| 0 <= i <= k implies #[trigger] c.row_index@[i] == a.row_index@[i] by {
            if i < k {
            }
        }
    }
}

/// Reordering a square matrix with sorted rows by a permutation `p` and
/// then by its inverse `q` gives the matrix back.  `b` is `a` reordered by
/// `p`, and `c` is `b` reordered by `q`, as `reorder` makes them; then `c`
/// has the rows, row starts and columns of `a`.
pub proof fn lemma_reorder_then_inverse(a: &Matrix, p: Seq<usize>, q: Seq<usize>, b: &Matrix, c: &Matrix)
    requires
        a.wf(),
        a.m == a.n,
        forall|r: int| 0 <= r < a.m ==> nondecreasing(#[trigger] a.row(r)),
        is_permutation(p, a.size()),
        is_inverse(q, p, a.size()),
        b.wf(),
        b.m == a.size(),
        b.n == a.n,
        forall|r: int| 0 <= r < b.m ==> #[trigger] b.row(r) == a.reordered_row(p, r),
        c.wf(),
        c.m == b.size(),
        forall|r: int| 0 <= r < c.m ==> #[trigger] c.row(r) == b.reordered_row(q, r),
    ensures
        c.m == a.m,
        c.row_index@ == a.row_index@,
        c.col_index@ == a.col_index@,
{
    broadcast use vstd::seq_lib::group_to_multiset_ensures;

    let size = a.size();
    lemma_inverse_is_permutation(q, p, size);
    assert forall|r: int| 0 <= r < a.m implies #[trigger] c.row(r) == a.row(r) by {
        let x = a.row(r);
        lemma_row_len(a, r);
        b.lemma_source_row_of_permutation(q, p[r] as int);
        assert(b.source_row(q, r) == p[r]);
        a.lemma_source_row_of_permutation(p, r);
        let xp = x.map_values(|e: usize| p[e as int]);
        let y = sorted_seq(xp);
        assert(b.row(p[r] as int) == y);
        lemma_sorted_seq(xp);
        let gq = |e: usize| q[e as int];
        let z = y.map_values(gq);
        assert(c.row(r) == sorted_seq(z));
        lemma_map_multiset(y, xp, gq);
        assert forall|t: int| 0 <= t < x.len() implies #[trigger] xp.map_values(gq)[t] == x[t] by {
            assert(x[t] == a.col_index@[a.row_index@[r] + t]);
            assert(x[t] < size);
        }
        assert(xp.map_values(gq) =~= x);
        lemma_is_sorted_seq(x, z);
    }
    lemma_same_rows(a, c);
}

/// The values come back too.  With `a`, `p`, `q`, `b` and `c` as in
/// `lemma_reorder_then_inverse`, let `s1` and `s2` be what the two calls of
/// `reorder` return: where each new nonzero takes its value from.  Then the
/// value that the `k`-th nonzero of `c` ends up with is the one of the
/// `k`-th nonzero of `a`: `s1[s2[k]] == k`.
pub proof fn lemma_reorder_then_inverse_values(
    a: &Matrix,
    p: Seq<usize>,
    q: Seq<usize>,
    b: &Matrix,
    c: &Matrix,
    s1: Seq<usize>,
    s2: Seq<usize>,
)
    requires
        a.wf(),
        a.m == a.n,
        forall|r: int| 0 <= r < a.m ==> nondecreasing(#[trigger] a.row(r)),
        is_permutation(p, a.size()),
        is_inverse(q, p, a.size()),
        b.wf(),
        b.m == a.size(),
        b.n == a.n,
        forall|r: int| 0 <= r < b.m ==> #[trigger] b.row(r) == a.reordered_row(p, r),
        s1.len() == b.col_index@.len(),
        forall|r: int, t: int|
            0 <= r < b.m && 0 <= t < b.row(r).len() ==> #[trigger] s1[b.row_index@[r] + t] == a.row_index@[a.source_row(p, r) as int] + t,
        c.wf(),
        c.m == b.size(),
        forall|r: int| 0 <= r < c.m ==> #[trigger] c.row(r) == b.reordered_row(q, r),
        s2.len() == c.col_index@.len(),
        forall|r: int, t: int|
            0 <= r < c.m && 0 <= t < c.row(r).len() ==> #[trigger] s2[c.row_index@[r] + t] == b.row_index@[b.source_row(q, r) as int] + t,
    ensures
        s2.len() == a.col_index@.len(),
        forall|k: int| 0 <= k < s2.len() ==> #[trigger] s1[s2[k] as int] == k,
{
    let size = a.size();
    lemma_reorder_then_inverse(a, p, q, b, c);
    lemma_inverse_is_permutation(q, p, size);
    assert forall|k: int| 0 <= k < s2.len() implies #[trigger] s1[s2[k] as int] == k by {
        lemma_row_of(a, k, a.m as int);
        let r = choose|r: int| 0 <= r < a.m && a.row_index@[r] <= k < #[trigger] a.row_index@[r + 1];
        lemma_row_len(a, r);
        lemma_row_len(c, r);
        let t = k - a.row_index@[r];
        assert(c.row_index@[r] + t == k);
        b.lemma_source_row_of_permutation(q, p[r] as int);
        assert(b.source_row(q, r) == p[r]);
        assert(s2[k] == b.row_index@[p[r] as int] + t);
        a.lemma_source_row_of_permutation(p, r);
        assert(b.row(p[r] as int).len() == c.row(r).len()) by {
            lemma_sorted_seq(a.row(r).map_values(|e: usize| p[e as int]));
            assert(c.row(r) == a.row(r));
        }
        assert(s1[b.row_index@[p[r] as int] + t] == a.row_index@[r] + t);
    }
}

/// Reordering a matrix by its reverse Cuthill–McKee numbering and only
/// relabelling it by that numbering give the same critical labels (when the
/// bandwidth is not 0 or the matrix is square).  `a` carries the identity
/// labels, `b` is `a` after `cmr_reorder(v)`, and `c` is `a` with the
/// numbering as its labels.
pub proof fn lemma_cmr_reorder_keeps_criticals(a: &Matrix, v: usize, b: &Matrix, c: &Matrix)
    requires
        a.cq_ready(),
        a.extra_columns_used(),
        v < a.m,
        a.labels@ == identity_labels(a.size()),
        b.wf(),
        b.m == a.size(),
        b.labels@ == a.labels@,
        forall|r: int| 0 <= r < b.m ==> #[trigger] b.row(r) == a.reordered_row(a.spec_cmr_numbering(v), r),
        c.col_index@ == a.col_index@,
        c.row_index@ == a.row_index@,
        c.m == a.m,
        c.labels@ == a.spec_cmr_numbering(v),
        c.spec_bandwidth() > 0 || a.m == a.size(),
    ensures
        forall|x: usize| #[trigger] b.is_critical_label(x) <==> c.is_critical_label(x),
{
    a.lemma_cmr_numbering_is_permutation(v);
    let p = a.spec_cmr_numbering(v);
    assert(is_permutation(p, a.size()));
    lemma_reorder_keeps_criticals(a, p, b, c);
}

} // verus!
