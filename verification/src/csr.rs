//! The compressed sparse row matrix and its bandwidth under a labelling.
use vstd::prelude::*;
use crate::seqs::{insert_sorted_unique, sort_vec, sorted_seq, strictly_increasing};

verus! {

/// Distance between two labels.
pub open spec fn label_dist(a: usize, b: usize) -> nat {
    if a >= b { (a - b) as nat } else { (b - a) as nat }
}

/// Computes `a.abs_diff(b)`.
pub fn abs_diff(a: usize, b: usize) -> (d: usize)
    ensures
        d == label_dist(a, b),
{
    if a >= b { a - b } else { b - a }
}

/// Pattern of a sparse matrix in compressed sparse row form, with a labelling
/// of its vertices.  Row `r` holds the column indices
/// `col_index[row_index[r] .. row_index[r + 1]]`; vertex `x` carries the
/// label `labels[x]`.
#[derive(Clone, Debug)]
pub struct Matrix {
    /// Column indices of the nonzeros, row after row.
    pub col_index: Vec<usize>,
    /// Where each row starts in `col_index`; `m + 1` entries.
    pub row_index: Vec<usize>,
    /// Current label of each vertex.
    pub labels: Vec<usize>,
    /// Bandwidth found by the last call of `bandwidth`.
    pub bw: usize,
    /// Largest number of nonzeros in a row.
    pub max_degree: usize,
    /// Half the largest degree: a lower bound on the bandwidth of a
    /// pattern without repeated entries under a one-to-one labelling.
    pub min_bw: usize,
    /// Number of rows.
    pub m: usize,
    /// Number of columns.
    pub n: usize,
    /// Number of nonzeros.
    pub nz_len: usize,
}

/// Sound compressed sparse row structure: `m + 1` nondecreasing row starts
/// from 0 to the number of nonzeros, one label per vertex of the square
/// hull (`n_labels == max(m, n)`), and every column index below that.
pub open spec fn csr_wf(col_index: Seq<usize>, row_index: Seq<usize>, n_labels: nat, m: usize, n: usize) -> bool {
    &&& row_index.len() == m + 1
    &&& row_index[0] == 0
    &&& forall|a: int, b: int| 0 <= a <= b <= m ==> #[trigger] row_index[a] <= #[trigger] row_index[b]
    &&& row_index[m as int] == col_index.len()
    &&& n_labels == if m >= n { m } else { n }
    &&& forall|k: int| 0 <= k < col_index.len() ==> #[trigger] col_index[k] < n_labels
}

/// The identity labelling of `size` vertices.
pub open spec fn identity_labels(size: nat) -> Seq<usize> {
    Seq::new(size, |x: int| x as usize)
}

pub open spec fn max_nat(a: nat, b: nat) -> nat {
    if a >= b { a } else { b }
}

/// Two matrices that differ at most in the recorded bandwidth have the same
/// rows, vertex bandwidths, bandwidth and critical labels.
pub proof fn lemma_same_but_bw(a: &Matrix, b: &Matrix)
    requires
        a.same_but_bw(b),
    ensures
        forall|r: int| #[trigger] a.vertex_bw(r) == b.vertex_bw(r),
        forall|k: int| #[trigger] a.bw_upto(k) == b.bw_upto(k),
        a.spec_bandwidth() == b.spec_bandwidth(),
        forall|x: usize| #[trigger] a.is_critical_label(x) == b.is_critical_label(x),
        forall|r: int| #[trigger] a.row(r) == b.row(r),
{
    assert forall|v: usize, s: Seq<usize>| #[trigger] a.max_dist_in(v, s) == b.max_dist_in(v, s) by {
        lemma_same_max_dist(a, b, v, s);
    }
    assert forall|r: int| #[trigger] a.vertex_bw(r) == b.vertex_bw(r) by {
        assert(a.row(r) == b.row(r));
    }
    assert forall|k: int| #[trigger] a.bw_upto(k) == b.bw_upto(k) by {
        lemma_same_bw_upto(a, b, k);
    }
    assert forall|x: usize| #[trigger] a.is_critical_label(x) == b.is_critical_label(x) by {
        if a.is_critical_label(x) {
            let r = choose|r: int| 0 <= r < a.m && a.labels@[r] == x && #[trigger] a.vertex_bw(r) == a.spec_bandwidth();
            assert(b.vertex_bw(r) == b.spec_bandwidth());
        }
        if b.is_critical_label(x) {
            let r = choose|r: int| 0 <= r < b.m && b.labels@[r] == x && #[trigger] b.vertex_bw(r) == b.spec_bandwidth();
            assert(a.vertex_bw(r) == a.spec_bandwidth());
        }
    }
}

proof fn lemma_same_max_dist(a: &Matrix, b: &Matrix, v: usize, s: Seq<usize>)
    requires
        a.labels@ == b.labels@,
    ensures
        a.max_dist_in(v, s) == b.max_dist_in(v, s),
    decreases s.len(),
{
    if s.len() > 0 {
        lemma_same_max_dist(a, b, v, s.drop_last());
    }
}

proof fn lemma_same_bw_upto(a: &Matrix, b: &Matrix, k: int)
    requires
        a.same_but_bw(b),
        forall|r: int| #[trigger] a.vertex_bw(r) == b.vertex_bw(r),
    ensures
        a.bw_upto(k) == b.bw_upto(k),
    decreases k,
{
    if k > 0 {
        lemma_same_bw_upto(a, b, k - 1);
    }
}

impl Matrix {
    /// The row structure is sound: `m + 1` increasing row starts from 0 to
    /// the number of nonzeros, one label per vertex of the square hull, and
    /// every column index names a labelled vertex.
    pub open spec fn wf(&self) -> bool {
        csr_wf(self.col_index@, self.row_index@, self.labels@.len(), self.m, self.n)
    }

    /// Column indices of row `r`.
    pub open spec fn row(&self, r: int) -> Seq<usize> {
        self.col_index@.subrange(self.row_index@[r] as int, self.row_index@[r + 1] as int)
    }

    /// Largest label distance between `v` and the vertices in `s` other than
    /// `v` itself.
    pub open spec fn max_dist_in(&self, v: usize, s: Seq<usize>) -> nat
        decreases s.len(),
    {
        if s.len() == 0 {
            0
        } else {
            let u = s.last();
            let rest = self.max_dist_in(v, s.drop_last());
            if u == v {
                rest
            } else {
                max_nat(rest, label_dist(self.labels@[v as int], self.labels@[u as int]))
            }
        }
    }

    /// Bandwidth of vertex `v`: the largest label distance to a neighbour.
    pub open spec fn vertex_bw(&self, v: int) -> nat {
        self.max_dist_in(v as usize, self.row(v))
    }

    /// Largest vertex bandwidth among the first `k` rows.
    pub open spec fn bw_upto(&self, k: int) -> nat
        decreases k,
    {
        if k <= 0 {
            0
        } else {
            max_nat(self.bw_upto(k - 1), self.vertex_bw(k - 1))
        }
    }

    /// Bandwidth of the labelled matrix.
    pub open spec fn spec_bandwidth(&self) -> nat {
        self.bw_upto(self.m as int)
    }

    /// Neighbours of vertex `n`: the column indices of row `n`.
    pub fn get_columns_of_row(&self, n: usize) -> (row: &[usize])
        requires
            self.wf(),
            n < self.m,
        ensures
            row@ == self.row(n as int),
    {
        let start = self.row_index[n];
        let stop = self.row_index[n + 1];
        assert(self.row_index@[n as int] <= self.row_index@[n + 1]);
        assert(self.row_index@[n + 1] <= self.row_index@[self.m as int]);
        &self.col_index[start..stop]
    }

    /// Bandwidth of vertex `v`: the largest label distance between `v` and a
    /// neighbour other than itself.
    pub fn bw_vertex(&self, v: usize) -> (bw_v: usize)
        requires
            self.wf(),
            v < self.m,
        ensures
            bw_v == self.vertex_bw(v as int),
    {
        let mut bw_v: usize = 0;
        let v_neighbour = self.get_columns_of_row(v);
        let ghost row = self.row(v as int);
        let mut k: usize = 0;
        while k < v_neighbour.len()
            invariant
                self.wf(),
                v < self.m,
                v_neighbour@ == row,
                row == self.row(v as int),
                k <= row.len(),
                bw_v == self.max_dist_in(v, row.take(k as int)),
            decreases row.len() - k,
        {
            let u = v_neighbour[k];
            proof {
                assert(row.take(k + 1).drop_last() == row.take(k as int));
                assert(row.take(k + 1).last() == u);
                assert(self.row_index@[v as int] <= self.row_index@[v + 1]);
                assert(self.row_index@[v + 1] <= self.row_index@[self.m as int]);
                assert(u == self.col_index@[self.row_index@[v as int] + k]);
            }
            if v != u {
                let diff: usize = abs_diff(self.labels[v], self.labels[u]);
                if diff > bw_v {
                    bw_v = diff;
                }
            }
            k += 1;
        }
        proof {
            assert(row.take(row.len() as int) == row);
        }
        bw_v
    }

    /// Everything but the recorded bandwidth is unchanged.
    pub open spec fn same_but_bw(&self, other: &Matrix) -> bool {
        &&& self.col_index == other.col_index
        &&& self.row_index == other.row_index
        &&& self.labels == other.labels
        &&& self.max_degree == other.max_degree
        &&& self.min_bw == other.min_bw
        &&& self.m == other.m
        &&& self.n == other.n
        &&& self.nz_len == other.nz_len
    }

    /// Computes the bandwidth of the labelled matrix, records it in `bw` and
    /// returns it.
    pub fn bandwidth(&mut self) -> (bandwidth: usize)
        requires
            old(self).wf(),
        ensures
            bandwidth == old(self).spec_bandwidth(),
            final(self).bw == bandwidth,
            final(self).same_but_bw(old(self)),
    {
        let mut bandwidth: usize = 0;
        let mut n_row: usize = 0;
        while n_row < self.row_index.len() - 1
            invariant
                self.wf(),
                n_row <= self.m,
                bandwidth == self.bw_upto(n_row as int),
            decreases self.m - n_row,
        {
            let diff = self.bw_vertex(n_row);
            if diff > bandwidth {
                bandwidth = diff;
            }
            n_row += 1;
        }
        self.bw = bandwidth;
        bandwidth
    }

    /// Degree of the row that carries the label of `i`: the number of
    /// nonzeros in row `labels[i]`, or 0 when `i` is not a row.
    pub fn degree(&self, i: usize) -> (d: usize)
        requires
            self.wf(),
            i < self.m ==> self.labels@[i as int] < self.m,
        ensures
            d == self.spec_degree(i as int),
            i < self.m ==> d == self.row(self.labels@[i as int] as int).len(),
    {
        proof {
            self.lemma_degree_is_row_length(i as int);
        }
        if i < self.row_index.len() - 1 {
            let i = self.labels[i];
            assert(self.row_index@[i as int] <= self.row_index@[i + 1]);
            self.row_index[i + 1] - self.row_index[i]
        } else {
            0
        }
    }

    /// Number of nonzeros in row `labels[i]` for a row `i`, else 0.
    pub open spec fn spec_degree(&self, i: int) -> nat {
        if 0 <= i < self.m {
            let r = self.labels@[i] as int;
            (self.row_index@[r + 1] - self.row_index@[r]) as nat
        } else {
            0
        }
    }

    /// The degree of a vertex `i` is the number of stored nonzeros of row
    /// `labels[i]`, whether or not its diagonal entry is among them; a
    /// vertex that is not a row has degree 0.
    pub proof fn lemma_degree_is_row_length(&self, i: int)
        requires
            self.wf(),
            0 <= i < self.m ==> self.labels@[i] < self.m,
        ensures
            0 <= i < self.m ==> self.spec_degree(i) == self.row(self.labels@[i] as int).len(),
            !(0 <= i < self.m) ==> self.spec_degree(i) == 0,
    {
        if 0 <= i < self.m {
            let r = self.labels@[i] as int;
            assert(self.row_index@[r] <= self.row_index@[r + 1]);
            assert(self.row_index@[r + 1] <= self.row_index@[self.m as int]);
        }
    }

    /// The first vertex that carries label `v`.
    pub fn old_label(&self, v: usize) -> (x: usize)
        requires
            self.labels@.contains(v),
        ensures
            x < self.labels@.len(),
            self.labels@[x as int] == v,
            forall|k: int| 0 <= k < x ==> self.labels@[k] != v,
    {
        let mut x: usize = 0;
        while x < self.labels.len()
            invariant
                self.labels@.contains(v),
                x <= self.labels@.len(),
                forall|k: int| 0 <= k < x ==> self.labels@[k] != v,
            decreases self.labels@.len() - x,
        {
            if self.labels[x] == v {
                return x;
            }
            x += 1;
        }
        x
    }

    /// `x` is the label of a critical vertex: one whose vertex bandwidth
    /// equals the bandwidth of the matrix.
    pub open spec fn is_critical_label(&self, x: usize) -> bool {
        exists|r: int|
            0 <= r < self.m && self.labels@[r] == x && #[trigger] self.vertex_bw(r)
                == self.spec_bandwidth()
    }

    /// Labels of the critical vertices, in increasing order and without
    /// repetition.  Records the bandwidth in `bw` on the way.
    pub fn criticals(&mut self) -> (criticals: Vec<usize>)
        requires
            old(self).wf(),
        ensures
            final(self).same_but_bw(old(self)),
            final(self).bw == old(self).spec_bandwidth(),
            final(self).bw == final(self).spec_bandwidth(),
            strictly_increasing(criticals@),
            forall|x: usize| criticals@.contains(x) <==> old(self).is_critical_label(x),
            old(self).m > 0 ==> criticals@.len() > 0,
    {
        let mut n_row: usize = 0;
        let mut criticals_neighbours: Vec<usize> = Vec::new();
        let ghost before = *self;
        self.bandwidth();
        proof {
            lemma_same_but_bw(&*self, &before);
        }
        while n_row < self.row_index.len() - 1
            invariant
                self.wf(),
                self.bw == self.spec_bandwidth(),
                n_row <= self.m,
                strictly_increasing(criticals_neighbours@),
                forall|x: usize|
                    criticals_neighbours@.contains(x) <==> exists|r: int|
                        0 <= r < n_row && self.labels@[r] == x && #[trigger] self.vertex_bw(r)
                            == self.spec_bandwidth(),
            decreases self.m - n_row,
        {
            if self.bw_vertex(n_row) == self.bw {
                let i = self.labels[n_row];
                insert_sorted_unique(&mut criticals_neighbours, i);
            }
            proof {
                assert forall|x: usize|
                    criticals_neighbours@.contains(x) <==> exists|r: int|
                        0 <= r < n_row + 1 && self.labels@[r] == x && #[trigger] self.vertex_bw(r)
                            == self.spec_bandwidth() by {
                    if criticals_neighbours@.contains(x) && x == self.labels@[n_row as int]
                        && self.vertex_bw(n_row as int) == self.spec_bandwidth() {
                        assert(0 <= n_row < n_row + 1 && self.labels@[n_row as int] == x);
                    }
                }
            }
            n_row += 1;
        }
        proof {
            lemma_same_but_bw(&*self, old(self));
            if self.m > 0 {
                self.lemma_bw_upto(self.m as int);
                if self.spec_bandwidth() == 0 {
                    assert(self.vertex_bw(0) == self.spec_bandwidth());
                    assert(criticals_neighbours@.contains(self.labels@[0]));
                } else {
                    let r = choose|r: int| 0 <= r < self.m && #[trigger] self.vertex_bw(r) == self.bw_upto(self.m as int);
                    assert(criticals_neighbours@.contains(self.labels@[r]));
                }
            }
            assert forall|x: usize| criticals_neighbours@.contains(x) <==> old(self).is_critical_label(x) by {
                if criticals_neighbours@.contains(x) {
                    let r = choose|r: int| 0 <= r < n_row && self.labels@[r] == x && #[trigger] self.vertex_bw(r)
                        == self.spec_bandwidth();
                    assert(old(self).vertex_bw(r) == old(self).spec_bandwidth());
                }
                if old(self).is_critical_label(x) {
                    let r = choose|r: int| 0 <= r < old(self).m && old(self).labels@[r] == x && #[trigger] old(self).vertex_bw(r)
                        == old(self).spec_bandwidth();
                    assert(self.vertex_bw(r) == self.spec_bandwidth());
                }
            }
        }
        criticals_neighbours
    }

    /// An empty matrix of `m` rows, `n` columns and room for `nz_len`
    /// nonzeros.
    pub fn new(m: usize, n: usize, nz_len: usize) -> (matrix: Self)
        ensures
            matrix.col_index@.len() == 0,
            matrix.row_index@.len() == 0,
            matrix.labels@.len() == 0,
            matrix.bw == 0,
            matrix.max_degree == 0,
            matrix.min_bw == 0,
            matrix.m == m,
            matrix.n == n,
            matrix.nz_len == nz_len,
    {
        let size = if m >= n { m } else { n };
        Matrix {
            row_index: Vec::with_capacity(if m < usize::MAX { m + 1 } else { m }),
            col_index: Vec::with_capacity(nz_len),
            labels: Vec::with_capacity(size),
            bw: 0,
            max_degree: 0,
            min_bw: 0,
            m,
            n,
            nz_len,
        }
    }
}

impl Matrix {
    /// Each label distance from `v` to an element of `s` other than `v` is
    /// at most `max_dist_in(v, s)`, which is 0 or one of them.
    pub proof fn lemma_max_dist_in(&self, v: usize, s: Seq<usize>)
        ensures
            forall|k: int|
                0 <= k < s.len() && s[k] != v ==> label_dist(self.labels@[v as int], self.labels@[#[trigger] s[k] as int])
                    <= self.max_dist_in(v, s),
            self.max_dist_in(v, s) == 0 || exists|k: int|
                0 <= k < s.len() && s[k] != v && label_dist(self.labels@[v as int], self.labels@[#[trigger] s[k] as int])
                    == self.max_dist_in(v, s),
        decreases s.len(),
    {
        if s.len() > 0 {
            let t = s.drop_last();
            self.lemma_max_dist_in(v, t);
            assert forall|k: int|
                0 <= k < s.len() && s[k] != v implies label_dist(self.labels@[v as int], self.labels@[#[trigger] s[k] as int])
                    <= self.max_dist_in(v, s) by {
                if k < s.len() - 1 {
                    assert(s[k] == t[k]);
                }
            }
            if self.max_dist_in(v, s) != 0 {
                if self.max_dist_in(v, s) == self.max_dist_in(v, t) {
                    let k = choose|k: int|
                        0 <= k < t.len() && t[k] != v && label_dist(self.labels@[v as int], self.labels@[#[trigger] t[k] as int])
                            == self.max_dist_in(v, t);
                    assert(s[k] == t[k]);
                } else {
                    assert(s[s.len() - 1] != v);
                }
            }
        }
    }

    /// Each of the first `k` vertex bandwidths is at most `bw_upto(k)`,
    /// which is 0 or one of them.
    pub proof fn lemma_bw_upto(&self, k: int)
        ensures
            forall|r: int| 0 <= r < k ==> #[trigger] self.vertex_bw(r) <= self.bw_upto(k),
            self.bw_upto(k) == 0 || exists|r: int| 0 <= r < k && #[trigger] self.vertex_bw(r) == self.bw_upto(k),
        decreases k,
    {
        if k > 0 {
            self.lemma_bw_upto(k - 1);
        }
    }

    /// The bandwidth bounds the label distance of every nonzero off the
    /// diagonal, and some such nonzero reaches it unless it is 0.
    pub proof fn lemma_bandwidth_is_max(&self)
        requires
            self.wf(),
        ensures
            forall|r: int, k: int|
                #![trigger self.row(r)[k]]
                0 <= r < self.m && 0 <= k < self.row(r).len() && self.row(r)[k] != r
                    ==> label_dist(self.labels@[r], self.labels@[self.row(r)[k] as int]) <= self.spec_bandwidth(),
            self.spec_bandwidth() == 0 || exists|r: int, k: int|
                #![trigger self.row(r)[k]]
                0 <= r < self.m && 0 <= k < self.row(r).len() && self.row(r)[k] != r
                    && label_dist(self.labels@[r], self.labels@[self.row(r)[k] as int]) == self.spec_bandwidth(),
    {
        self.lemma_bw_upto(self.m as int);
        assert forall|r: int, k: int|
            #![trigger self.row(r)[k]]
            0 <= r < self.m && 0 <= k < self.row(r).len() && self.row(r)[k] != r
                implies label_dist(self.labels@[r], self.labels@[self.row(r)[k] as int]) <= self.spec_bandwidth() by {
            self.lemma_max_dist_in(r as usize, self.row(r));
            assert(self.vertex_bw(r) <= self.spec_bandwidth());
        }
        if self.spec_bandwidth() != 0 {
            let r = choose|r: int| 0 <= r < self.m && #[trigger] self.vertex_bw(r) == self.spec_bandwidth();
            self.lemma_max_dist_in(r as usize, self.row(r));
            let k = choose|k: int|
                0 <= k < self.row(r).len() && self.row(r)[k] != r as usize && label_dist(self.labels@[r], self.labels@[#[trigger] self.row(r)[k] as int])
                    == self.max_dist_in(r as usize, self.row(r));
            assert(self.row(r)[k] != r);
        }
    }
}

impl Matrix {
    /// The first vertex with label `r`.
    pub open spec fn label_owner(&self, r: usize) -> int {
        choose|x: int| 0 <= x < self.labels@.len() && self.labels@[x] == r && forall|k: int| 0 <= k < x ==> self.labels@[k] != r
    }

    /// Every row number labels some vertex, and the first vertex with that
    /// label is a row.
    pub open spec fn labels_name_rows(&self) -> bool {
        forall|r: usize|
            r < self.m ==> #[trigger] self.labels@.contains(r) && 0 <= self.label_owner(r) < self.m
    }

    pub proof fn lemma_label_owner(&self, r: usize, x: int)
        requires
            0 <= x < self.labels@.len(),
            self.labels@[x] == r,
            forall|k: int| 0 <= k < x ==> self.labels@[k] != r,
        ensures
            self.label_owner(r) == x,
    {
        let y = self.label_owner(r);
        assert(0 <= y < self.labels@.len() && self.labels@[y] == r && forall|k: int| 0 <= k < y ==> self.labels@[k] != r);
        if y < x {
            assert(self.labels@[y] != r);
        } else if x < y {
            assert(self.labels@[x] != r);
        }
    }

    /// The matrix as it reads with rows and columns in label order: for
    /// each label `r`, the labels of the neighbours of the vertex labelled
    /// `r`, sorted.
    pub open spec fn spec_labelled_rows(&self) -> Seq<Seq<usize>> {
        Seq::new(
            self.m as nat,
            |r: int| sorted_seq(self.row(self.label_owner(r as usize)).map_values(|c: usize| self.labels@[c as int])),
        )
    }

    /// The rows that `print` shows: for each label `r` below `m`, the sorted
    /// labels of the neighbours of the first vertex labelled `r`.
    pub fn labelled_rows(&self) -> (rows: Vec<Vec<usize>>)
        requires
            self.wf(),
            self.labels_name_rows(),
        ensures
            rows@.len() == self.m,
            forall|r: int| 0 <= r < self.m ==> #[trigger] rows@[r]@ == self.spec_labelled_rows()[r],
    {
        let mut rows: Vec<Vec<usize>> = Vec::with_capacity(self.m);
        let mut n_row: usize = 0;
        while n_row < self.row_index.len() - 1
            invariant
                self.wf(),
                self.labels_name_rows(),
                n_row <= self.m,
                rows@.len() == n_row,
                forall|r: int| 0 <= r < n_row ==> #[trigger] rows@[r]@ == self.spec_labelled_rows()[r],
            decreases self.m - n_row,
        {
            assert(self.labels@.contains(n_row));
            let i = self.old_label(n_row);
            proof {
                self.lemma_label_owner(n_row, i as int);
            }
            let row = self.get_columns_of_row(i);
            let mut lab: Vec<usize> = Vec::with_capacity(row.len());
            let mut t: usize = 0;
            while t < row.len()
                invariant
                    self.wf(),
                    i < self.m,
                    row@ == self.row(i as int),
                    t <= row@.len(),
                    lab@ == row@.take(t as int).map_values(|c: usize| self.labels@[c as int]),
                decreases row@.len() - t,
            {
                proof {
                    assert(self.row_index@[i as int] <= self.row_index@[i + 1]);
                    assert(self.row_index@[i + 1] <= self.row_index@[self.m as int]);
                    assert(row@[t as int] == self.col_index@[self.row_index@[i as int] + t]);
                }
                lab.push(self.labels[row[t]]);
                proof {
                    assert(row@.take(t + 1).map_values(|c: usize| self.labels@[c as int])
                        =~= row@.take(t as int).map_values(|c: usize| self.labels@[c as int]).push(self.labels@[row@[t as int] as int]));
                }
                t += 1;
            }
            proof {
                assert(row@.take(row@.len() as int) =~= row@);
            }
            let sorted = sort_vec(lab.as_slice());
            let ghost before = rows@;
            rows.push(sorted);
            proof {
                assert forall|r: int| 0 <= r < n_row + 1 implies #[trigger] rows@[r]@ == self.spec_labelled_rows()[r] by {
                    if r < n_row {
                        assert(rows@[r] == before[r]);
                    }
                }
            }
            n_row += 1;
        }
        rows
    }
}

} // verus!
