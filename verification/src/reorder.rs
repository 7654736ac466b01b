//! Reordering the vertices of a matrix, and how reordering relates to
//! relabelling.
use vstd::prelude::*;
use crate::csr::{identity_labels, label_dist, Matrix};
use crate::seqs::{is_permutation, lemma_permutation_covers, sort_vec, sorted_seq};

verus! {

/// Last position of `r` in `s`, if any.
pub open spec fn last_index_of(s: Seq<usize>, r: usize) -> Option<nat>
    decreases s.len(),
{
    if s.len() == 0 {
        None
    } else if s.last() == r {
        Some((s.len() - 1) as nat)
    } else {
        last_index_of(s.drop_last(), r)
    }
}

/// The vertex that `new_rows` sends to `r`: the last `x` with
/// `new_rows[x] == r`, or 0 when there is none.
pub open spec fn old_row_of(new_rows: Seq<usize>, r: usize) -> nat {
    match last_index_of(new_rows, r) {
        Some(i) => i,
        None => 0,
    }
}

impl Matrix {
    /// Number of vertices once rows and columns are both counted: `max(m, n)`.
    pub open spec fn size(&self) -> nat {
        if self.m >= self.n { self.m as nat } else { self.n as nat }
    }

    /// Row that becomes row `r` under `new_rows`.
    pub open spec fn source_row(&self, new_rows: Seq<usize>, r: int) -> nat {
        old_row_of(new_rows, r as usize)
    }

    /// Row `r` after reordering by `new_rows`: the row that moves there, its
    /// columns renamed by `new_rows` and sorted; empty where that row is not
    /// a row of the matrix.
    pub open spec fn reordered_row(&self, new_rows: Seq<usize>, r: int) -> Seq<usize> {
        let o = self.source_row(new_rows, r);
        if o >= self.m {
            Seq::empty()
        } else {
            sorted_seq(self.row(o as int).map_values(|c: usize| new_rows[c as int]))
        }
    }

    /// `reorder` can run: every vertex is sent below `max(m, n)` and every
    /// column of a row that moves is renamed by `new_rows`.
    pub open spec fn reorder_defined(&self, new_rows: Seq<usize>) -> bool {
        &&& forall|i: int| 0 <= i < new_rows.len() ==> #[trigger] new_rows[i] < self.size()
        &&& forall|r: int, k: int|
            0 <= r < self.size() && self.source_row(new_rows, r) < self.m && 0 <= k < self.row(
                self.source_row(new_rows, r) as int,
            ).len() ==> #[trigger] self.row(self.source_row(new_rows, r) as int)[k]
                < new_rows.len()
    }

    /// Reorders the matrix: vertex `x` becomes vertex `new_rows[x]`.  Row `r`
    /// of the result is the row that moves to `r` (the last `x` with
    /// `new_rows[x] == r`, or 0 when there is none), with its columns renamed
    /// and sorted.  The matrix becomes square, of size `max(m, n)`; labels are
    /// kept.  Returns, for each new nonzero, the position in the old
    /// `col_index` of the value that goes with it: the values of a row keep
    /// their order within the row.
    pub fn reorder(&mut self, new_rows: &[usize]) -> (sources: Vec<usize>)
        requires
            old(self).wf(),
            old(self).reorder_defined(new_rows@),
        ensures
            final(self).wf(),
            final(self).m == old(self).size(),
            final(self).n == old(self).n,
            final(self).labels == old(self).labels,
            final(self).bw == old(self).bw,
            final(self).max_degree == old(self).max_degree,
            final(self).min_bw == old(self).min_bw,
            final(self).nz_len == old(self).nz_len,
            forall|r: int|
                0 <= r < final(self).m ==> #[trigger] final(self).row(r) == old(self).reordered_row(
                    new_rows@,
                    r,
                ),
            sources@.len() == final(self).col_index@.len(),
            forall|r: int, t: int|
                0 <= r < final(self).m && 0 <= t < final(self).row(r).len()
                    ==> #[trigger] sources@[final(self).row_index@[r] + t]
                    == old(self).row_index@[old(self).source_row(new_rows@, r) as int] + t,
    {
        let size: usize = if self.m >= self.n { self.m } else { self.n };
        let mut old_rows: Vec<usize> = vec![0; size];
        let mut i: usize = 0;
        while i < new_rows.len()
            invariant
                self.wf(),
                size == self.size(),
                self.reorder_defined(new_rows@),
                i <= new_rows@.len(),
                old_rows@.len() == size,
                forall|r: int| 0 <= r < size ==> #[trigger] old_rows@[r] == old_row_of(new_rows@.take(i as int), r as usize),
            decreases new_rows@.len() - i,
        {
            let val = new_rows[i];
            proof {
                assert(new_rows@.take(i + 1).drop_last() =~= new_rows@.take(i as int));
            }
            old_rows.set(val, i);
            i += 1;
        }
        proof {
            assert(new_rows@.take(new_rows@.len() as int) =~= new_rows@);
        }
        let mut row_offset: Vec<usize> = Vec::with_capacity(size);
        let mut col_index: Vec<usize> = Vec::with_capacity(self.col_index.len());
        let mut sources: Vec<usize> = Vec::with_capacity(self.col_index.len());
        row_offset.push(0);
        let mut r: usize = 0;
        while r < size
            invariant
                self.wf(),
                size == self.size(),
                self.reorder_defined(new_rows@),
                old_rows@.len() == size,
                forall|r: int| 0 <= r < size ==> #[trigger] old_rows@[r] == self.source_row(new_rows@, r),
                r <= size,
                row_offset@.len() == r + 1,
                row_offset@[0] == 0,
                forall|a: int, b: int| 0 <= a <= b <= r ==> #[trigger] row_offset@[a] <= #[trigger] row_offset@[b],
                row_offset@[r as int] == col_index@.len(),
                sources@.len() == col_index@.len(),
                forall|k: int| 0 <= k < col_index@.len() ==> #[trigger] col_index@[k] < size,
                forall|q: int|
                    0 <= q < r ==> #[trigger] col_index@.subrange(row_offset@[q] as int, row_offset@[q + 1] as int)
                        == self.reordered_row(new_rows@, q),
                forall|q: int, t: int|
                    0 <= q < r && 0 <= t < row_offset@[q + 1] - row_offset@[q] ==> #[trigger] sources@[row_offset@[q] + t]
                        == self.row_index@[self.source_row(new_rows@, q) as int] + t,
            decreases size - r,
        {
            let new = old_rows[r];
            let ghost old_cols = col_index@;
            let ghost old_sources = sources@;
            let ghost old_offsets = row_offset@;
            if new >= self.m {
                row_offset.push(col_index.len());
                proof {
                    assert forall|q: int| 0 <= q < r + 1 implies #[trigger] col_index@.subrange(row_offset@[q] as int, row_offset@[q + 1] as int)
                        == self.reordered_row(new_rows@, q) by {
                        if q == r {
                            assert(col_index@.subrange(row_offset@[q] as int, row_offset@[q + 1] as int) =~= Seq::<usize>::empty());
                        }
                    }
                }
            } else {
                let old_cols_of_row = self.get_columns_of_row(new);
                let mut renamed: Vec<usize> = Vec::with_capacity(old_cols_of_row.len());
                let mut t: usize = 0;
                while t < old_cols_of_row.len()
                    invariant
                        self.reorder_defined(new_rows@),
                        size == self.size(),
                        r < size,
                        new < self.m,
                        new == self.source_row(new_rows@, r as int),
                        old_cols_of_row@ == self.row(new as int),
                        t <= old_cols_of_row@.len(),
                        renamed@ == old_cols_of_row@.take(t as int).map_values(|c: usize| new_rows@[c as int]),
                    decreases old_cols_of_row@.len() - t,
                {
                    let e = old_cols_of_row[t];
                    proof {
                        assert(self.row(self.source_row(new_rows@, r as int) as int)[t as int] < new_rows@.len());
                    }
                    renamed.push(new_rows[e]);
                    proof {
                        assert(old_cols_of_row@.take(t + 1).map_values(|c: usize| new_rows@[c as int])
                            =~= old_cols_of_row@.take(t as int).map_values(|c: usize| new_rows@[c as int]).push(new_rows@[e as int]));
                    }
                    t += 1;
                }
                proof {
                    assert(old_cols_of_row@.take(old_cols_of_row@.len() as int) =~= old_cols_of_row@);
                }
                let mut sorted = sort_vec(renamed.as_slice());
                let start = self.row_index[new];
                let len = sorted.len();
                proof {
                    assert(sorted@.len() == renamed@.len()) by {
                        broadcast use vstd::seq_lib::group_to_multiset_ensures;
                        assert(sorted@.to_multiset().len() == renamed@.to_multiset().len());
                    }
                    assert(renamed@.len() == old_cols_of_row@.len());
                    assert(self.row_index@[new as int] <= self.row_index@[new + 1]);
                    assert(self.row_index@[new + 1] <= self.row_index@[self.m as int]);
                    assert(sorted@ == self.reordered_row(new_rows@, r as int));
                    assert forall|k: int| 0 <= k < sorted@.len() implies #[trigger] sorted@[k] < size by {
                        broadcast use vstd::seq_lib::group_to_multiset_ensures;
                        assert(sorted@.contains(sorted@[k]));
                        assert(sorted@.to_multiset().count(sorted@[k]) > 0);
                        assert(renamed@.to_multiset().count(sorted@[k]) > 0);
                        assert(renamed@.contains(sorted@[k]));
                        let j = choose|j: int| 0 <= j < renamed@.len() && renamed@[j] == sorted@[k];
                        assert(renamed@[j] == new_rows@[old_cols_of_row@[j] as int]);
                    }
                }
                let total = self.col_index.len();
                let mut t: usize = 0;
                while t < len
                    invariant
                        t <= len,
                        len == sorted@.len(),
                        start as int + len <= total,
                        sources@.len() == old_sources.len() + t,
                        forall|k: int| 0 <= k < old_sources.len() ==> #[trigger] sources@[k] == old_sources[k],
                        forall|k: int| 0 <= k < t ==> #[trigger] sources@[old_sources.len() + k] == start + k,
                    decreases len - t,
                {
                    sources.push(start + t);
                    t += 1;
                }
                col_index.append(&mut sorted);
                row_offset.push(col_index.len());
                proof {
                    assert(col_index@ == old_cols + self.reordered_row(new_rows@, r as int));
                    assert forall|q: int| 0 <= q < r + 1 implies #[trigger] col_index@.subrange(row_offset@[q] as int, row_offset@[q + 1] as int)
                        == self.reordered_row(new_rows@, q) by {
                        if q == r {
                            assert(col_index@.subrange(row_offset@[q] as int, row_offset@[q + 1] as int) =~= self.reordered_row(new_rows@, q));
                        } else {
                            assert(old_offsets[q] <= old_offsets[q + 1]);
                            assert(old_offsets[q + 1] <= old_offsets[r as int]);
                            assert(col_index@.subrange(row_offset@[q] as int, row_offset@[q + 1] as int)
                                =~= old_cols.subrange(old_offsets[q] as int, old_offsets[q + 1] as int));
                        }
                    }
                    assert forall|q: int, t: int|
                        0 <= q < r + 1 && 0 <= t < row_offset@[q + 1] - row_offset@[q] implies #[trigger] sources@[row_offset@[q] + t]
                            == self.row_index@[self.source_row(new_rows@, q) as int] + t by {
                        if q < r {
                            assert(old_offsets[q] <= old_offsets[q + 1]);
                            assert(old_offsets[q + 1] <= old_offsets[r as int]);
                            assert(sources@[row_offset@[q] + t] == old_sources[old_offsets[q] + t]);
                        } else {
                            assert(sources@[old_sources.len() + t] == start + t);
                        }
                    }
                }
            }
            proof {
                assert forall|a: int, b: int| 0 <= a <= b <= r + 1 implies #[trigger] row_offset@[a] <= #[trigger] row_offset@[b] by {
                    if b <= r {
                        assert(old_offsets[a] <= old_offsets[b]);
                    } else if a <= r {
                        assert(old_offsets[a] <= old_offsets[r as int]);
                    }
                }
            }
            r += 1;
        }
        self.m = size;
        self.col_index = col_index;
        self.row_index = row_offset;
        proof {
            assert forall|q: int| 0 <= q < self.m implies #[trigger] self.row(q) == old(self).reordered_row(new_rows@, q) by {
                assert(self.col_index@.subrange(self.row_index@[q] as int, self.row_index@[q + 1] as int)
                    == old(self).reordered_row(new_rows@, q));
            }
        }
        sources
    }

    /// With a permutation `p`, the row that moves to `p[x]` is `x`.
    pub proof fn lemma_source_row_of_permutation(&self, p: Seq<usize>, x: int)
        requires
            is_permutation(p, self.size()),
            0 <= x < self.size(),
        ensures
            self.source_row(p, p[x] as int) == x,
    {
        assert forall|y: int| 0 <= y < p.len() && y != x implies p[y] != p[x] by {
            if y < x {
                assert(p[y] != p[x]);
            } else {
                assert(p[x] != p[y]);
            }
        }
        lemma_last_index_unique(p, x);
    }
}

/// The last position of a value that occurs once is its position.
pub proof fn lemma_last_index_unique(s: Seq<usize>, x: int)
    requires
        0 <= x < s.len(),
        forall|y: int| 0 <= y < s.len() && y != x ==> s[y] != s[x],
    ensures
        last_index_of(s, s[x]) == Some(x as nat),
    decreases s.len(),
{
    if x < s.len() - 1 {
        assert(s.last() != s[x]);
        lemma_last_index_unique(s.drop_last(), x);
    }
}

/// Reordering by a permutation and relabelling by it give the same
/// bandwidth.  Let `a` carry the identity labels; reordering `a` by the
/// permutation `p` (vertex `x` becomes vertex `p[x]`) gives `b`, and giving
/// `a` the labels `p` gives `c`.  Then `b` and `c` have the same bandwidth.
pub proof fn lemma_reorder_is_relabel(a: &Matrix, p: Seq<usize>, b: &Matrix, c: &Matrix)
    requires
        a.wf(),
        a.labels@ == identity_labels(a.size()),
        is_permutation(p, a.size()),
        b.m == a.size(),
        b.labels@ == a.labels@,
        b.wf(),
        forall|r: int| 0 <= r < b.m ==> #[trigger] b.row(r) == a.reordered_row(p, r),
        c.col_index@ == a.col_index@,
        c.row_index@ == a.row_index@,
        c.m == a.m,
        c.labels@ == p,
    ensures
        b.spec_bandwidth() == c.spec_bandwidth(),
{
    let size = a.size();
    lemma_permutation_covers(p, size);
    assert forall|o: int| 0 <= o < a.m implies #[trigger] b.vertex_bw(p[o] as int) == c.vertex_bw(o) by {
        lemma_vertex_bw_moves(a, p, b, c, o);
    }
    assert forall|x: int| 0 <= x < size && x >= a.m implies #[trigger] b.vertex_bw(p[x] as int) == 0 by {
        a.lemma_source_row_of_permutation(p, x);
        assert(b.row(p[x] as int) =~= Seq::<usize>::empty());
    }
    b.lemma_bw_upto(b.m as int);
    c.lemma_bw_upto(c.m as int);
    if b.spec_bandwidth() != 0 {
        let r = choose|r: int| 0 <= r < b.m && #[trigger] b.vertex_bw(r) == b.bw_upto(b.m as int);
        assert(p.contains(r as usize));
        let x = choose|x: int| 0 <= x < p.len() && p[x] == r as usize;
        if x >= a.m {
            assert(b.vertex_bw(p[x] as int) == 0);
        } else {
            assert(b.vertex_bw(p[x] as int) == c.vertex_bw(x));
        }
    }
    if c.spec_bandwidth() != 0 {
        let o = choose|o: int| 0 <= o < c.m && #[trigger] c.vertex_bw(o) == c.bw_upto(c.m as int);
        assert(b.vertex_bw(p[o] as int) == c.vertex_bw(o));
        assert(b.vertex_bw(p[o] as int) <= b.spec_bandwidth());
    }
}

/// Reordering by a permutation and relabelling by it give the same
/// critical labels, as long as the bandwidth is not 0 or the matrix is
/// square.  (With bandwidth 0 and more columns than rows, the empty rows
/// that reordering adds are critical too.)  `a`, `p`, `b` and `c` are as in
/// `lemma_reorder_is_relabel`.
pub proof fn lemma_reorder_keeps_criticals(a: &Matrix, p: Seq<usize>, b: &Matrix, c: &Matrix)
    requires
        a.wf(),
        a.labels@ == identity_labels(a.size()),
        is_permutation(p, a.size()),
        b.m == a.size(),
        b.labels@ == a.labels@,
        b.wf(),
        forall|r: int| 0 <= r < b.m ==> #[trigger] b.row(r) == a.reordered_row(p, r),
        c.col_index@ == a.col_index@,
        c.row_index@ == a.row_index@,
        c.m == a.m,
        c.labels@ == p,
        c.spec_bandwidth() > 0 || a.m == a.size(),
    ensures
        forall|x: usize| #[trigger] b.is_critical_label(x) <==> c.is_critical_label(x),
{
    let size = a.size();
    lemma_reorder_is_relabel(a, p, b, c);
    lemma_permutation_covers(p, size);
    assert forall|x: usize| #[trigger] b.is_critical_label(x) <==> c.is_critical_label(x) by {
        if b.is_critical_label(x) {
            let r = choose|r: int| 0 <= r < b.m && b.labels@[r] == x && #[trigger] b.vertex_bw(r) == b.spec_bandwidth();
            assert(p.contains(r as usize));
            let o = choose|o: int| 0 <= o < p.len() && p[o] == r as usize;
            if o >= a.m {
                a.lemma_source_row_of_permutation(p, o);
                assert(b.row(p[o] as int) =~= Seq::<usize>::empty());
                assert(b.vertex_bw(r) == 0);
            } else {
                lemma_vertex_bw_moves(a, p, b, c, o);
                assert(c.labels@[o] == x);
                assert(c.vertex_bw(o) == c.spec_bandwidth());
            }
        }
        if c.is_critical_label(x) {
            let o = choose|o: int| 0 <= o < c.m && c.labels@[o] == x && #[trigger] c.vertex_bw(o) == c.spec_bandwidth();
            lemma_vertex_bw_moves(a, p, b, c, o);
            let r = p[o] as int;
            assert(b.labels@[r] == r);
            assert(b.vertex_bw(r) == b.spec_bandwidth());
        }
    }
}

/// Row `o` of `c` and row `p[o]` of `b` (as in `lemma_reorder_is_relabel`)
/// have the same vertex bandwidth.
proof fn lemma_vertex_bw_moves(a: &Matrix, p: Seq<usize>, b: &Matrix, c: &Matrix, o: int)
    requires
        a.wf(),
        a.labels@ == identity_labels(a.size()),
        is_permutation(p, a.size()),
        b.m == a.size(),
        b.labels@ == a.labels@,
        b.wf(),
        forall|r: int| 0 <= r < b.m ==> #[trigger] b.row(r) == a.reordered_row(p, r),
        c.col_index@ == a.col_index@,
        c.row_index@ == a.row_index@,
        c.m == a.m,
        c.labels@ == p,
        0 <= o < a.m,
    ensures
        b.vertex_bw(p[o] as int) == c.vertex_bw(o),
{
    broadcast use vstd::seq_lib::group_to_multiset_ensures;

    let size = a.size();
    let r = p[o] as int;
    a.lemma_source_row_of_permutation(p, o);
    let row = a.row(o);
    let mapped = row.map_values(|cc: usize| p[cc as int]);
    let srt = b.row(r);
    assert(srt == sorted_seq(mapped));
    crate::seqs::lemma_usize_leq_total();
    mapped.lemma_sort_by_ensures(crate::seqs::usize_leq());
    assert(c.row(o) == row);
    assert forall|t: int| 0 <= t < row.len() implies #[trigger] row[t] < size by {
        assert(a.row_index@[o] <= a.row_index@[o + 1]);
        assert(a.row_index@[o + 1] <= a.row_index@[a.m as int]);
        assert(row[t] == a.col_index@[a.row_index@[o] + t]);
    }
    b.lemma_max_dist_in(r as usize, srt);
    c.lemma_max_dist_in(o as usize, row);
    if b.vertex_bw(r) != 0 {
        let k = choose|k: int|
            0 <= k < srt.len() && srt[k] != r as usize && label_dist(b.labels@[r], b.labels@[#[trigger] srt[k] as int])
                == b.max_dist_in(r as usize, srt);
        assert(srt.to_multiset().count(srt[k]) > 0);
        assert(mapped.contains(srt[k]));
        let t = choose|t: int| 0 <= t < mapped.len() && mapped[t] == srt[k];
        let x = row[t];
        assert(p[x as int] == srt[k]);
        assert(x != o) by {
            if x == o {
                assert(p[x as int] == r);
            }
        }
        assert(b.labels@[r] == r);
        assert(b.labels@[srt[k] as int] == srt[k]);
        assert(label_dist(c.labels@[o], c.labels@[row[t] as int]) <= c.max_dist_in(o as usize, row));
    }
    if c.vertex_bw(o) != 0 {
        let t = choose|t: int|
            0 <= t < row.len() && row[t] != o as usize && label_dist(c.labels@[o], c.labels@[#[trigger] row[t] as int])
                == c.max_dist_in(o as usize, row);
        let x = row[t];
        assert(mapped[t] == p[x as int]);
        assert(mapped.to_multiset().count(mapped[t]) > 0);
        assert(srt.contains(mapped[t]));
        let k = choose|k: int| 0 <= k < srt.len() && srt[k] == mapped[t];
        assert(p[x as int] != p[o]) by {
            if x < o {
                assert(p[x as int] != p[o]);
            } else {
                assert(p[o] != p[x as int]);
            }
        }
        assert(b.labels@[r] == r);
        assert(b.labels@[srt[k] as int] == srt[k]);
        assert(label_dist(b.labels@[r], b.labels@[srt[k] as int]) <= b.max_dist_in(r as usize, srt));
    }
}

} // verus!
