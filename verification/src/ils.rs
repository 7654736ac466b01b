//! Iterated local search steps: swapping two vertices in place.
use vstd::prelude::*;
use crate::csr::{Matrix, csr_wf, label_dist, lemma_same_but_bw};

verus! {

/// `x` with `u` and `v` exchanged.
pub open spec fn swap_uv(x: usize, u: usize, v: usize) -> usize {
    if x == u {
        v
    } else if x == v {
        u
    } else {
        x
    }
}

/// Column indices after `vertices_swap_bw_update(u, v)`: `u` and `v`
/// exchanged everywhere, then the blocks of rows `u` and `v` exchanged.
pub open spec fn swapped_cols(ci: Seq<usize>, ri: Seq<usize>, u: usize, v: usize) -> Seq<usize> {
    let c = ci.map_values(|x: usize| swap_uv(x, u, v));
    let su = ri[u as int] as int;
    let eu = ri[u + 1] as int;
    let sv = ri[v as int] as int;
    let ev = ri[v + 1] as int;
    c.subrange(0, su) + c.subrange(sv, ev) + c.subrange(eu, sv) + c.subrange(su, eu) + c.subrange(
        ev,
        c.len() as int,
    )
}

/// Row starts after `vertices_swap_bw_update(u, v)`.  Row `u + 1` starts
/// where row `u` starts plus the length of row `v`; starts `u + 2 ..= v`
/// grow by the length of row `v`; row `v + 1` starts at the new start of
/// row `v` plus the length of row `u`; starts `v + 2 .. m - 1` grow by the
/// length of row `u`.  The others stay.
pub open spec fn swapped_rows(ri: Seq<usize>, u: usize, v: usize, m: usize) -> Seq<int> {
    let su = ri[u as int] as int;
    let eu = ri[u + 1] as int;
    let sv = ri[v as int] as int;
    let ev = ri[v + 1] as int;
    let diff_u = ev - sv;
    let diff_v = eu - su;
    let r2 = Seq::new(
        ri.len(),
        |i: int|
            if i == u + 1 {
                su + diff_u
            } else if u + 2 <= i <= v {
                ri[i] + diff_u
            } else {
                ri[i] as int
            },
    );
    Seq::new(
        ri.len(),
        |i: int|
            if i == v + 1 {
                r2[v as int] + diff_v
            } else if v + 2 <= i < m - 1 {
                r2[i] + diff_v
            } else {
                r2[i]
            },
    )
}

/// The row starts that `vertices_swap_bw_update(u, v)` writes are those of
/// the matrix with rows `u` and `v` exchanged when row `u` is empty, or when
/// `v` follows `u` and is one of the last three rows.  Otherwise the starts
/// of the rows after `u` are shifted by the wrong amounts.
pub open spec fn swap_keeps_rows(ri: Seq<usize>, u: usize, v: usize, m: usize) -> bool {
    ri[u as int] == ri[u + 1] || (v == u + 1 && v + 3 >= m)
}

/// Where `vertices_swap_bw_update(u, v)` is sound (`swap_keeps_rows`), it
/// permutes the matrix symmetrically by the transposition of `u` and `v`:
/// row `r` of the result holds the columns of the old row `swap_uv(r)`, with
/// `u` and `v` exchanged.  `a` is the matrix before and `b` after.
pub proof fn lemma_swap_moves_rows(a: &Matrix, u: usize, v: usize, b: &Matrix)
    requires
        a.wf(),
        u < v < a.m,
        swap_keeps_rows(a.row_index@, u, v, a.m),
        b.m == a.m,
        b.col_index@ == swapped_cols(a.col_index@, a.row_index@, u, v),
        b.row_index@ == swapped_rows(a.row_index@, u, v, a.m).map_values(|x: int| x as usize),
    ensures
        forall|r: int|
            0 <= r < a.m ==> #[trigger] b.row(r) == a.row(swap_uv(r as usize, u, v) as int).map_values(
                |x: usize| swap_uv(x, u, v),
            ),
{
    let ci = a.col_index@;
    let ri = a.row_index@;
    let m = a.m as int;
    let c = ci.map_values(|x: usize| swap_uv(x, u, v));
    let su = ri[u as int] as int;
    let eu = ri[u + 1] as int;
    let sv = ri[v as int] as int;
    let ev = ri[v + 1] as int;
    let lu = eu - su;
    let lv = ev - sv;
    assert(ri[u as int] <= ri[u + 1]);
    assert(ri[u + 1] <= ri[v as int]);
    assert(ri[v as int] <= ri[v + 1]);
    assert(ri[v + 1] <= ri[m]);
    let fin = swapped_rows(ri, u, v, a.m);
    // The new row starts.
    let nr = |i: int|
        if i <= u {
            ri[i] as int
        } else if i == u + 1 {
            su + lv
        } else if i <= v {
            ri[i] + lv - lu
        } else if i == v + 1 {
            ev
        } else {
            ri[i] as int
        };
    assert forall|i: int| 0 <= i <= m implies #[trigger] fin[i] == nr(i) by {
    }
    assert forall|i: int| 0 <= i <= m implies #[trigger] b.row_index@[i] == nr(i) by {
        assert(fin[i] == nr(i));
        if u + 1 < i <= v {
            assert(ri[u + 1] <= ri[i]);
        }
        assert(0 <= nr(i));
    }
    // The new columns.
    let p1 = c.subrange(0, su);
    let p2 = c.subrange(sv, ev);
    let p3 = c.subrange(eu, sv);
    let p4 = c.subrange(su, eu);
    let p5 = c.subrange(ev, c.len() as int);
    let bc = b.col_index@;
    assert(bc == p1 + p2 + p3 + p4 + p5);
    assert forall|k: int| 0 <= k < su implies #[trigger] bc[k] == c[k] by {
        assert((p1 + p2 + p3 + p4 + p5)[k] == p1[k]);
    }
    assert forall|k: int| su <= k < su + lv implies #[trigger] bc[k] == c[sv + (k - su)] by {
        assert((p1 + p2 + p3 + p4 + p5)[k] == (p1 + p2)[k]);
    }
    assert forall|k: int| su + lv <= k < su + lv + (sv - eu) implies #[trigger] bc[k] == c[eu + (k - su - lv)] by {
        assert((p1 + p2 + p3 + p4 + p5)[k] == (p1 + p2 + p3)[k]);
    }
    assert forall|k: int| su + lv + (sv - eu) <= k < ev implies #[trigger] bc[k] == c[su + (k - su - lv - (sv - eu))] by {
        assert((p1 + p2 + p3 + p4 + p5)[k] == (p1 + p2 + p3 + p4)[k]);
    }
    assert forall|k: int| ev <= k < ci.len() implies #[trigger] bc[k] == c[k] by {
    }
    assert forall|r: int| 0 <= r < m implies #[trigger] b.row(r) == a.row(swap_uv(r as usize, u, v) as int).map_values(
        |x: usize| swap_uv(x, u, v),
    ) by {
        let o = swap_uv(r as usize, u, v) as int;
        assert(ri[o] <= ri[o + 1]);
        assert(ri[o + 1] <= ri[m]);
        let lhs = b.row(r);
        let rhs = a.row(o).map_values(|x: usize| swap_uv(x, u, v));
        assert(b.row_index@[r] == nr(r));
        assert(b.row_index@[r + 1] == nr(r + 1));
        if r < u || r > v {
            assert(o == r);
            if r > v + 1 {
                assert(ri[v + 1] <= ri[r]);
            }
        } else if u < r < v {
            assert(o == r);
            assert(ri[u + 1] <= ri[r]);
            assert(ri[r + 1] <= ri[v as int]);
        }
        assert(lhs.len() == rhs.len());
        assert forall|t: int| 0 <= t < lhs.len() implies lhs[t] == rhs[t] by {
            assert(lhs[t] == bc[nr(r) + t]);
            assert(rhs[t] == c[ri[o] + t]);
            if u < r < v {
                assert(ri[u + 1] <= ri[r]);
                assert(ri[r + 1] <= ri[v as int]);
            } else if r > v {
                assert(ri[v + 1] <= ri[r]);
            }
        }
        assert(lhs =~= rhs);
    }
}

/// Distances seen from `swap_uv(w)` along the swapped neighbours under the
/// labels of `b` are the distances seen from `w` under the labels of `c`,
/// which are those of `b` with the labels of `u` and `v` exchanged.
proof fn lemma_swap_max_dist(b: &Matrix, c: &Matrix, u: usize, v: usize, w: usize, s: Seq<usize>)
    requires
        u < v < b.labels@.len(),
        c.labels@ == b.labels@.update(u as int, b.labels@[v as int]).update(v as int, b.labels@[u as int]),
        w < b.labels@.len(),
        forall|k: int| 0 <= k < s.len() ==> #[trigger] s[k] < b.labels@.len(),
    ensures
        b.max_dist_in(swap_uv(w, u, v), s.map_values(|x: usize| swap_uv(x, u, v))) == c.max_dist_in(w, s),
    decreases s.len(),
{
    let sw = |x: usize| swap_uv(x, u, v);
    if s.len() > 0 {
        let t = s.drop_last();
        lemma_swap_max_dist(b, c, u, v, w, t);
        assert(s.map_values(sw).drop_last() =~= t.map_values(sw));
        let z = s.last();
        assert(z == s[s.len() - 1]);
        assert(s.map_values(sw).last() == swap_uv(z, u, v));
        assert(b.labels@[swap_uv(w, u, v) as int] == c.labels@[w as int]);
        assert(b.labels@[swap_uv(z, u, v) as int] == c.labels@[z as int]);
    } else {
        assert(s.map_values(sw) =~= Seq::<usize>::empty());
    }
}

/// Where `vertices_swap_bw_update(u, v)` is sound (`swap_keeps_rows`), the
/// bandwidth it records is the bandwidth of the old matrix with the labels
/// of `u` and `v` exchanged.  `a` is the matrix before, `b` after, and `c`
/// is `a` with the labels of `u` and `v` exchanged.
pub proof fn lemma_swap_bandwidth(a: &Matrix, u: usize, v: usize, b: &Matrix, c: &Matrix)
    requires
        a.wf(),
        u < v < a.m,
        swap_keeps_rows(a.row_index@, u, v, a.m),
        b.m == a.m,
        b.col_index@ == swapped_cols(a.col_index@, a.row_index@, u, v),
        b.row_index@ == swapped_rows(a.row_index@, u, v, a.m).map_values(|x: int| x as usize),
        b.labels@ == a.labels@,
        c.col_index@ == a.col_index@,
        c.row_index@ == a.row_index@,
        c.m == a.m,
        c.labels@ == a.labels@.update(u as int, a.labels@[v as int]).update(v as int, a.labels@[u as int]),
    ensures
        b.spec_bandwidth() == c.spec_bandwidth(),
{
    let m = a.m as int;
    lemma_swap_moves_rows(a, u, v, b);
    assert forall|y: int| 0 <= y < m implies #[trigger] b.vertex_bw(swap_uv(y as usize, u, v) as int) == c.vertex_bw(y) by {
        let x = swap_uv(y as usize, u, v);
        assert(swap_uv(x, u, v) == y);
        assert(b.row(x as int) == a.row(y).map_values(|z: usize| swap_uv(z, u, v)));
        assert(a.row_index@[y] <= a.row_index@[y + 1]);
        assert(a.row_index@[y + 1] <= a.row_index@[m]);
        assert forall|k: int| 0 <= k < a.row(y).len() implies #[trigger] a.row(y)[k] < b.labels@.len() by {
            assert(a.row(y)[k] == a.col_index@[a.row_index@[y] + k]);
        }
        assert(c.row(y) == a.row(y));
        lemma_swap_max_dist(b, c, u, v, y as usize, a.row(y));
    }
    b.lemma_bw_upto(m);
    c.lemma_bw_upto(m);
    if b.spec_bandwidth() != 0 {
        let x = choose|x: int| 0 <= x < m && #[trigger] b.vertex_bw(x) == b.bw_upto(m);
        let y = swap_uv(x as usize, u, v) as int;
        assert(swap_uv(y as usize, u, v) == x);
        assert(b.vertex_bw(x) == c.vertex_bw(y));
        assert(c.vertex_bw(y) <= c.spec_bandwidth());
    }
    if c.spec_bandwidth() != 0 {
        let y = choose|y: int| 0 <= y < m && #[trigger] c.vertex_bw(y) == c.bw_upto(m);
        assert(b.vertex_bw(swap_uv(y as usize, u, v) as int) == c.vertex_bw(y));
        assert(b.vertex_bw(swap_uv(y as usize, u, v) as int) <= b.spec_bandwidth());
    }
}

impl Matrix {
    /// Looks at the neighbours of `u` and finds no vertex to swap it with:
    /// the result is always empty and nothing changes.
    pub fn vertex_to_swap_with(&mut self, u: &usize) -> (swaps: Vec<usize>)
        requires
            old(self).wf(),
            *u < old(self).m,
        ensures
            swaps@.len() == 0,
            *final(self) == *old(self),
    {
        let _u_neighbour = self.get_columns_of_row(*u);
        Vec::new()
    }

    /// Exchanges vertices `u < v` in place: their numbers in `col_index`,
    /// the blocks of their rows, and the row starts as `swapped_rows` says;
    /// then records the bandwidth.  Returns `true`.  Where the row starts
    /// come out right (`swap_keeps_rows`), row `r` of the result is the old
    /// row `swap_uv(r)` with `u` and `v` exchanged.
    pub fn vertices_swap_bw_update(&mut self, u: &usize, v: &usize) -> (done: bool)
        requires
            old(self).wf(),
            *u < *v < old(self).m,
            forall|i: int|
                0 <= i < old(self).row_index@.len() ==> #[trigger] swapped_rows(old(self).row_index@, *u, *v, old(self).m)[i]
                    <= usize::MAX,
            csr_wf(
                swapped_cols(old(self).col_index@, old(self).row_index@, *u, *v),
                swapped_rows(old(self).row_index@, *u, *v, old(self).m).map_values(|x: int| x as usize),
                old(self).labels@.len(),
                old(self).m,
                old(self).n,
            ),
        ensures
            done,
            final(self).col_index@ == swapped_cols(old(self).col_index@, old(self).row_index@, *u, *v),
            final(self).row_index@ == swapped_rows(old(self).row_index@, *u, *v, old(self).m).map_values(
                |x: int| x as usize,
            ),
            final(self).labels == old(self).labels,
            final(self).max_degree == old(self).max_degree,
            final(self).min_bw == old(self).min_bw,
            final(self).m == old(self).m,
            final(self).n == old(self).n,
            final(self).nz_len == old(self).nz_len,
            final(self).wf(),
            final(self).bw == final(self).spec_bandwidth(),
            swap_keeps_rows(old(self).row_index@, *u, *v, old(self).m) ==> forall|r: int|
                0 <= r < old(self).m ==> #[trigger] final(self).row(r) == old(self).row(
                    swap_uv(r as usize, *u, *v) as int,
                ).map_values(|x: usize| swap_uv(x, *u, *v)),
    {
        let ghost start = *self;
        let u = *u;
        let v = *v;
        let ghost ci = self.col_index@;
        let ghost ri = self.row_index@;
        let ghost c = ci.map_values(|x: usize| swap_uv(x, u, v));
        let mut k: usize = 0;
        while k < self.col_index.len()
            invariant
                self.col_index@.len() == ci.len(),
                c == ci.map_values(|x: usize| swap_uv(x, u, v)),
                k <= ci.len(),
                forall|t: int| 0 <= t < k ==> #[trigger] self.col_index@[t] == c[t],
                forall|t: int| k <= t < ci.len() ==> #[trigger] self.col_index@[t] == ci[t],
                self.row_index@ == ri,
                self.labels == old(self).labels,
                self.max_degree == old(self).max_degree,
                self.min_bw == old(self).min_bw,
                self.m == old(self).m,
                self.n == old(self).n,
                self.nz_len == old(self).nz_len,
                ci == old(self).col_index@,
                ri == old(self).row_index@,
            decreases ci.len() - k,
        {
            let x = self.col_index[k];
            if x == u {
                self.col_index.set(k, v);
            } else if x == v {
                self.col_index.set(k, u);
            }
            k += 1;
        }
        proof {
            assert(self.col_index@ =~= c);
            assert(ri[u as int] <= ri[u + 1]);
            assert(ri[u + 1] <= ri[v as int]);
            assert(ri[v as int] <= ri[v + 1]);
            assert(ri[v + 1] <= ri[old(self).m as int]);
        }
        let start_col_u = self.row_index[u];
        let stop_col_u = self.row_index[u + 1];
        let start_col_v = self.row_index[v];
        let stop_col_v = self.row_index[v + 1];
        let mut cols: Vec<usize> = Vec::with_capacity(self.col_index.len());
        append_range(&mut cols, &self.col_index, 0, start_col_u);
        append_range(&mut cols, &self.col_index, start_col_v, stop_col_v);
        append_range(&mut cols, &self.col_index, stop_col_u, start_col_v);
        append_range(&mut cols, &self.col_index, start_col_u, stop_col_u);
        let len = self.col_index.len();
        append_range(&mut cols, &self.col_index, stop_col_v, len);
        self.col_index = cols;
        proof {
            assert(self.col_index@ =~= swapped_cols(ci, ri, u, v));
        }
        let diff_u = stop_col_v - start_col_v;
        let ghost r2 = Seq::new(
            ri.len(),
            |i: int|
                if i == u + 1 {
                    start_col_u + diff_u
                } else if u + 2 <= i <= v {
                    ri[i] + diff_u
                } else {
                    ri[i] as int
                },
        );
        let ghost fin = swapped_rows(ri, u, v, self.m);
        proof {
            assert(fin[u + 1] == r2[u + 1]);
        }
        self.row_index.set(u + 1, start_col_u + diff_u);
        let mut i: usize = u + 2;
        while i < v + 1
            invariant
                u + 2 <= i <= v + 1 || (i == u + 2 && v == u + 1),
                self.col_index@ == swapped_cols(ci, ri, u, v),
                self.labels == old(self).labels,
                self.max_degree == old(self).max_degree,
                self.min_bw == old(self).min_bw,
                self.m == old(self).m,
                self.n == old(self).n,
                self.nz_len == old(self).nz_len,
                ci == old(self).col_index@,
                ri == old(self).row_index@,
                v < self.m,
                self.row_index@.len() == ri.len(),
                ri.len() == self.m + 1,
                fin == swapped_rows(ri, u, v, self.m),
                forall|t: int| 0 <= t < ri.len() ==> #[trigger] fin[t] <= usize::MAX,
                forall|t: int| 0 <= t < ri.len() && (t == u + 1 || (u + 2 <= t < i)) ==> #[trigger] self.row_index@[t] == r2[t],
                forall|t: int| 0 <= t < ri.len() && !(t == u + 1 || (u + 2 <= t < i)) ==> #[trigger] self.row_index@[t] == ri[t],
                diff_u == ri[v + 1] - ri[v as int],
                r2 == Seq::new(
                    ri.len(),
                    |i: int|
                        if i == u + 1 {
                            ri[u as int] + diff_u
                        } else if u + 2 <= i <= v {
                            ri[i] + diff_u
                        } else {
                            ri[i] as int
                        },
                ),
            decreases v + 1 - i,
        {
            proof {
                assert(i < v + 2);
                assert(i != v + 1);
                assert(fin[i as int] == r2[i as int]);
            }
            let val = self.row_index[i] + diff_u;
            self.row_index.set(i, val);
            i += 1;
        }
        let diff_v = stop_col_u - start_col_u;
        proof {
            assert(fin[v + 1] == r2[v as int] + diff_v);
            assert(self.row_index@[v as int] == r2[v as int]);
        }
        let val = self.row_index[v] + diff_v;
        self.row_index.set(v + 1, val);
        let rl = self.row_index.len();
        assert(rl == self.m + 1);
        let mut i: usize = v + 2;
        while i < self.m - 1
            invariant
                v + 2 <= i,
                self.col_index@ == swapped_cols(ci, ri, u, v),
                self.labels == old(self).labels,
                self.max_degree == old(self).max_degree,
                self.min_bw == old(self).min_bw,
                self.m == old(self).m,
                self.n == old(self).n,
                self.nz_len == old(self).nz_len,
                ci == old(self).col_index@,
                ri == old(self).row_index@,
                v < self.m,
                self.row_index@.len() == ri.len(),
                ri.len() == self.m + 1,
                fin == swapped_rows(ri, u, v, self.m),
                forall|t: int| 0 <= t < ri.len() ==> #[trigger] fin[t] <= usize::MAX,
                forall|t: int| 0 <= t < ri.len() && (t <= v + 1 || t >= i) ==> #[trigger] self.row_index@[t] == (if t == v + 1 { fin[t] } else { r2[t] }),
                forall|t: int| 0 <= t < ri.len() && v + 2 <= t < i ==> #[trigger] self.row_index@[t] == fin[t],
                diff_v == ri[u + 1] - ri[u as int],
                forall|t: int| 0 <= t < ri.len() && v + 2 <= t < self.m - 1 ==> #[trigger] fin[t] == r2[t] + diff_v,
            decreases self.m - i,
        {
            proof {
                assert(fin[i as int] == r2[i as int] + diff_v);
                assert(self.row_index@[i as int] == r2[i as int]);
            }
            let val = self.row_index[i] + diff_v;
            self.row_index.set(i, val);
            i += 1;
        }
        proof {
            assert forall|t: int| 0 <= t < ri.len() implies #[trigger] self.row_index@[t] == fin[t] as usize by {
                if t <= v + 1 || t >= i {
                    if t != v + 1 {
                        assert(fin[t] == r2[t]);
                    }
                }
            }
            assert(self.row_index@ =~= fin.map_values(|x: int| x as usize));
        }
        let ghost before = *self;
        self.bandwidth();
        proof {
            lemma_same_but_bw(&*self, &before);
            if swap_keeps_rows(start.row_index@, u, v, start.m) {
                lemma_swap_moves_rows(&start, u, v, &*self);
            }
        }
        true
    }
}

impl Matrix {
    /// Every critical label names a row.
    pub open spec fn criticals_are_rows(&self) -> bool {
        forall|x: usize| #[trigger] self.is_critical_label(x) ==> x < self.m
    }

    /// Local search over the critical vertices: records the bandwidth, and
    /// for each critical label `u` asks `vertex_to_swap_with(u)` for vertices
    /// to swap with; since it proposes none, nothing is swapped and
    /// `solution` stays as it is.  Returns no improved solution (empty).
    pub fn local_search(&mut self, solution: &mut Vec<usize>) -> (improved: Vec<usize>)
        requires
            old(self).wf(),
            old(self).criticals_are_rows(),
        ensures
            improved@.len() == 0,
            final(self).same_but_bw(old(self)),
            final(self).bw == old(self).spec_bandwidth(),
            final(self).bw == final(self).spec_bandwidth(),
            final(solution)@ == old(solution)@,
    {
        let ghost start = *self;
        let _bw_0 = self.bandwidth();
        proof {
            lemma_same_but_bw(&*self, &start);
        }
        let ghost before = *self;
        let criticals = self.criticals();
        proof {
            lemma_same_but_bw(&*self, &before);
            lemma_same_but_bw(&*self, &start);
        }
        let mut t: usize = 0;
        while t < criticals.len()
            invariant
                self.wf(),
                self.same_but_bw(&start),
                self.bw == start.spec_bandwidth(),
                start.criticals_are_rows(),
                forall|x: usize| criticals@.contains(x) <==> start.is_critical_label(x),
                t <= criticals@.len(),
            decreases criticals@.len() - t,
        {
            let u = criticals[t];
            proof {
                assert(criticals@.contains(u));
                assert(start.is_critical_label(u));
            }
            let swaps = self.vertex_to_swap_with(&u);
            let mut k: usize = 0;
            while k < swaps.len()
                invariant
                    swaps@.len() == 0,
                decreases swaps@.len() - k,
            {
                k += 1;
            }
            t += 1;
        }
        proof {
            lemma_same_but_bw(&*self, &start);
        }
        Vec::new()
    }

    /// One round of iterated local search: reverse Cuthill–McKee reordering
    /// from the vertex of the first nonzero's column, then a local search.
    /// It is defined for matrices of more than one row, from which a random
    /// row past the first could be drawn as another starting point.
    pub fn ils(&mut self)
        requires
            old(self).cq_ready(),
            old(self).extra_columns_used(),
            old(self).m > 1,
            old(self).col_index@.len() > 0,
            old(self).col_index@[0] < old(self).m,
            forall|x: int| 0 <= x < old(self).labels@.len() ==> #[trigger] old(self).labels@[x] < old(self).size(),
        ensures
            final(self).m == old(self).size(),
            final(self).n == old(self).n,
            final(self).max_degree == old(self).max_degree,
            final(self).min_bw == old(self).min_bw,
            final(self).nz_len == old(self).nz_len,
            final(self).wf(),
            final(self).labels == old(self).labels,
            forall|r: int|
                0 <= r < final(self).m ==> #[trigger] final(self).row(r) == old(self).reordered_row(
                    old(self).spec_cmr_numbering(old(self).col_index@[0]),
                    r,
                ),
            final(self).bw == final(self).spec_bandwidth(),
    {
        let mut new_rows = self.cmr_reorder(self.col_index[0]);
        proof {
            assert forall|x: usize| #[trigger] self.is_critical_label(x) implies x < self.m by {
                let r = choose|r: int| 0 <= r < self.m && self.labels@[r] == x && #[trigger] self.vertex_bw(r) == self.spec_bandwidth();
            }
        }
        let ghost mid = *self;
        let _ = self.local_search(&mut new_rows);
        proof {
            lemma_same_but_bw(&*self, &mid);
        }
    }
}

/// Appends `src[from..to]` to `dst`.
fn append_range(dst: &mut Vec<usize>, src: &Vec<usize>, from: usize, to: usize)
    requires
        from <= to <= src@.len(),
    ensures
        final(dst)@ == old(dst)@ + src@.subrange(from as int, to as int),
{
    let mut k: usize = from;
    let ghost base = dst@;
    while k < to
        invariant
            from <= k <= to <= src@.len(),
            dst@ == base + src@.subrange(from as int, k as int),
        decreases to - k,
    {
        dst.push(src[k]);
        proof {
            assert(base + src@.subrange(from as int, k + 1) =~= (base + src@.subrange(from as int, k as int)).push(src@[k as int]));
        }
        k += 1;
    }
}

} // verus!
