//! The two reverse Cuthill–McKee variants agree: on a square pattern, the
//! numbering that `cmr_reorder` uses is the labelling that `cmr_labels`
//! makes.
use vstd::prelude::*;
use crate::cmr::{
    BfsState, CqState, bfs_done, cq_push, lemma_count_true_bound, lemma_first_unvisited_is, push_unvisited,
};
use crate::csr::Matrix;

verus! {

/// The queue of the reordering search as the labelling search sees it:
/// its vertices without a number, each at its first place.
pub open spec fn pending(s: Seq<usize>, lv: Seq<usize>) -> Seq<usize>
    decreases s.len(),
{
    if s.len() == 0 {
        s
    } else {
        let d = pending(s.drop_last(), lv);
        let x = s.last();
        if lv[x as int] != usize::MAX || d.contains(x) {
            d
        } else {
            d.push(x)
        }
    }
}

pub proof fn lemma_pending_contains(s: Seq<usize>, lv: Seq<usize>)
    ensures
        forall|y: usize| #[trigger] pending(s, lv).contains(y) <==> (s.contains(y) && lv[y as int] == usize::MAX),
        pending(s, lv).no_duplicates(),
    decreases s.len(),
{
    if s.len() > 0 {
        let t = s.drop_last();
        let x = s.last();
        lemma_pending_contains(t, lv);
        let d = pending(t, lv);
        assert forall|y: usize| #[trigger] pending(s, lv).contains(y) <==> (s.contains(y) && lv[y as int] == usize::MAX) by {
            if s.contains(y) {
                let i = choose|i: int| 0 <= i < s.len() && s[i] == y;
                if i < t.len() {
                    assert(t[i] == y);
                    assert(t.contains(y));
                }
            }
            if t.contains(y) {
                let i = choose|i: int| 0 <= i < t.len() && t[i] == y;
                assert(s[i] == y);
            }
            if d.push(x).contains(y) {
                let i = choose|i: int| 0 <= i < d.push(x).len() && d.push(x)[i] == y;
                if i < d.len() {
                    assert(d[i] == y);
                }
            }
            if d.contains(y) {
                let i = choose|i: int| 0 <= i < d.len() && d[i] == y;
                assert(d.push(x)[i] == y);
            }
            assert(s[s.len() - 1] == x);
            if y == x {
                assert(d.push(x)[d.len() as int] == x);
            }
        }
        if !(lv[x as int] != usize::MAX || d.contains(x)) {
            assert forall|i: int, j: int| 0 <= i < d.push(x).len() && 0 <= j < d.push(x).len() && i != j implies d.push(x)[i] != d.push(x)[j] by {
                if i == d.len() {
                    assert(d.contains(d[j]));
                } else if j == d.len() {
                    assert(d.contains(d[i]));
                }
            }
        }
    }
}

/// A numbered vertex at the front of the queue changes nothing.
pub proof fn lemma_pending_numbered_front(s: Seq<usize>, lv: Seq<usize>)
    requires
        s.len() > 0,
        lv[s[0] as int] != usize::MAX,
    ensures
        pending(s.drop_first(), lv) == pending(s, lv),
    decreases s.len(),
{
    if s.len() > 1 {
        let t = s.drop_last();
        assert(t[0] == s[0]);
        lemma_pending_numbered_front(t, lv);
        assert(s.drop_first().drop_last() =~= t.drop_first());
        assert(s.drop_first().last() == s.last());
    } else {
        assert(s.drop_first() =~= Seq::<usize>::empty());
        assert(s.drop_last() =~= Seq::<usize>::empty());
    }
}

/// An unnumbered vertex at the front of the queue is the first pending
/// one; once it has a number, the rest of the queue is pending as before
/// without it.
pub proof fn lemma_pending_front(s: Seq<usize>, lv: Seq<usize>, val: usize)
    requires
        s.len() > 0,
        forall|k: int| 0 <= k < s.len() ==> #[trigger] s[k] < lv.len(),
        lv[s[0] as int] == usize::MAX,
        val != usize::MAX,
    ensures
        pending(s, lv).len() > 0,
        pending(s, lv)[0] == s[0],
        pending(s.drop_first(), lv.update(s[0] as int, val)) == pending(s, lv).drop_first(),
    decreases s.len(),
{
    let x = s[0];
    let lv2 = lv.update(x as int, val);
    if s.len() == 1 {
        let e = s.drop_last();
        assert(e =~= Seq::<usize>::empty());
        assert(s.drop_first() =~= Seq::<usize>::empty());
        assert(pending(e, lv) == e);
        assert(!e.contains(x));
        assert(pending(s, lv) == e.push(x));
        assert(e.push(x) =~= seq![x]);
    } else {
        let t = s.drop_last();
        let y = s.last();
        assert(t[0] == x);
        assert(y < lv.len()) by {
            assert(s[s.len() - 1] == y);
        }
        lemma_pending_front(t, lv, val);
        let d = pending(t, lv);
        assert(s.drop_first().drop_last() =~= t.drop_first());
        assert(s.drop_first().last() == y);
        let d2 = pending(t.drop_first(), lv2);
        assert(d2 == d.drop_first());
        lemma_pending_contains(t, lv);
        if y == x {
            assert(d.contains(x));
        } else {
            assert(lv2[y as int] == lv[y as int]);
            assert(d2.contains(y) <==> d.contains(y)) by {
                if d.contains(y) {
                    let i = choose|i: int| 0 <= i < d.len() && d[i] == y;
                    assert(i != 0);
                    assert(d2[i - 1] == y);
                }
                if d2.contains(y) {
                    let i = choose|i: int| 0 <= i < d2.len() && d2[i] == y;
                    assert(d[i + 1] == y);
                }
            }
            if !(lv[y as int] != usize::MAX || d.contains(y)) {
                assert(d.push(y).drop_first() =~= d.drop_first().push(y));
            }
        }
    }
}

/// Handling the neighbours of the vertex `x` being finished: the reordering
/// search queues each unnumbered neighbour, the labelling search each
/// unvisited one; the pending part of the first is the second.
pub proof fn lemma_push_agree(
    m: nat,
    qc: Seq<usize>,
    qb: Seq<usize>,
    lv: Seq<usize>,
    n: nat,
    vis: Seq<bool>,
    nb: Seq<usize>,
    x: usize,
    val: usize,
)
    requires
        lv.len() == m,
        vis.len() == m,
        x < m,
        lv[x as int] == usize::MAX,
        val != usize::MAX,
        forall|k: int| 0 <= k < nb.len() ==> #[trigger] nb[k] < m,
        pending(qc, lv.update(x as int, val)) == qb,
        forall|y: usize| y < m ==> (#[trigger] vis[y as int] <==> (lv.update(x as int, val)[y as int] != usize::MAX || qb.contains(y))),
    ensures
        cq_push(m, qc, lv, n, nb).1 == lv,
        cq_push(m, qc, lv, n, nb).2 == n,
        pending(cq_push(m, qc, lv, n, nb).0, lv.update(x as int, val)) == push_unvisited(qb, vis, nb).0,
        push_unvisited(qb, vis, nb).1.len() == m,
        forall|y: usize|
            y < m ==> (#[trigger] push_unvisited(qb, vis, nb).1[y as int] <==> (lv.update(x as int, val)[y as int] != usize::MAX
                || push_unvisited(qb, vis, nb).0.contains(y))),
    decreases nb.len(),
{
    if nb.len() > 0 {
        let lv2 = lv.update(x as int, val);
        lemma_push_agree(m, qc, qb, lv, n, vis, nb.drop_last(), x, val);
        let p = cq_push(m, qc, lv, n, nb.drop_last());
        let b = push_unvisited(qb, vis, nb.drop_last());
        let j = nb.last();
        assert(j < m);
        lemma_pending_contains(p.0, lv2);
        assert(p.0.push(j).drop_last() =~= p.0);
        assert(p.0.push(j).last() == j);
        if lv[j as int] == usize::MAX {
            if j == x {
                assert(lv2[j as int] != usize::MAX);
                assert(b.1[j as int]);
            } else {
                assert(lv2[j as int] == usize::MAX);
                assert(b.1[j as int] <==> b.0.contains(j));
                let b2 = (b.0.push(j), b.1.update(j as int, true));
                assert forall|y: usize| y < m implies (#[trigger] b2.1[y as int] <==> (lv2[y as int] != usize::MAX || b2.0.contains(y))) by {
                    if y == j {
                        assert(b2.0[b.0.len() as int] == j);
                    } else {
                        if b2.0.contains(y) {
                            let i = choose|i: int| 0 <= i < b2.0.len() && b2.0[i] == y;
                            assert(b.0[i] == y);
                        }
                        if b.0.contains(y) {
                            let i = choose|i: int| 0 <= i < b.0.len() && b.0[i] == y;
                            assert(b2.0[i] == y);
                        }
                    }
                }
            }
        } else {
            assert(lv2[j as int] != usize::MAX) by {
                if j == x {
                } else {
                }
            }
            assert(b.1[j as int]);
        }
    }
}

impl Matrix {
    /// The labelling search in state `b` and the reordering search in
    /// state `c` have done the same work: the pending part of `c`'s queue
    /// is `b`'s queue, the vertices `c` has numbered are the ones `b` has
    /// finished, the `t`-th finished has number `m - 1 - t`, and every row
    /// `c` has tried as a starting point is visited.
    pub open spec fn searches_agree(&self, b: BfsState, c: CqState) -> bool {
        let m = self.m as nat;
        &&& pending(c.0, c.1) == b.0
        &&& forall|t: int| 0 <= t < b.2.len() ==> c.1[#[trigger] b.2[t] as int] == m - 1 - t
        &&& forall|x: usize| x < m ==> (c.1[x as int] != usize::MAX <==> #[trigger] b.2.contains(x))
        &&& c.2 + b.2.len() == m
        &&& forall|x: int| 0 <= x < c.3 ==> #[trigger] b.1[x]
    }

    /// The setting in which the two searches are compared: a square
    /// pattern whose degrees can be looked up.
    pub open spec fn square_search(&self) -> bool {
        &&& self.cq_ready()
        &&& self.cols_in_rows()
        &&& self.n <= self.m
    }

    /// One step of the reordering search is matched by no step or one step
    /// of the labelling search.
    pub proof fn lemma_step_agree(&self, v: usize, k: nat, c: CqState) -> (k2: nat)
        requires
            self.square_search(),
            v < self.m,
            self.cq_inv(c),
            !self.cq_done(c),
            k <= 2 * self.m,
            self.searches_agree(self.bfs_run(v, k), c),
        ensures
            k2 == k || k2 == k + 1,
            k2 <= 2 * self.m,
            self.searches_agree(self.bfs_run(v, k2), self.cq_step(c)),
    {
        let m = self.m as nat;
        let b = self.bfs_run(v, k);
        self.lemma_bfs_run_inv(v, k);
        lemma_count_true_bound(b.1);
        let q = c.0;
        let lv = c.1;
        let n = c.2;
        let cur = c.3;
        let c2 = self.cq_step(c);
        lemma_pending_contains(q, lv);
        if q.len() > 0 {
            let x = q[0];
            if lv[x as int] != usize::MAX {
                lemma_pending_numbered_front(q, lv);
                k
            } else {
                assert(x < m);
                let val = (n - 1) as usize;
                assert(n >= 1) by {
                    assert(b.0.contains(x)) by {
                        assert(pending(q, lv).contains(x));
                    }
                    assert(b.0.len() >= 1);
                    lemma_count_true_bound(b.1);
                }
                lemma_pending_front(q, lv, val);
                let lv2 = lv.update(x as int, val);
                let nb = self.sorted_neighbours(x);
                self.lemma_sorted_neighbours_in_rows(x);
                assert(b.0[0] == x);
                assert(!bfs_done(b));
                self.lemma_bfs_step(b);
                assert(k + 1 <= 2 * m);
                let b2 = self.bfs_run(v, k + 1);
                assert(b2 == self.bfs_step(b));
                assert(forall|y: usize| y < m ==> (#[trigger] b.1[y as int] <==> (lv2[y as int] != usize::MAX || b.0.drop_first().contains(y)))) by {
                    assert forall|y: usize| y < m implies (#[trigger] b.1[y as int] <==> (lv2[y as int] != usize::MAX || b.0.drop_first().contains(y))) by {
                        if y == x {
                        } else {
                            assert(lv2[y as int] == lv[y as int]);
                            if b.0.contains(y) {
                                let i = choose|i: int| 0 <= i < b.0.len() && b.0[i] == y;
                                assert(i != 0);
                                assert(b.0.drop_first()[i - 1] == y);
                            }
                            if b.0.drop_first().contains(y) {
                                let i = choose|i: int| 0 <= i < b.0.drop_first().len() && b.0.drop_first()[i] == y;
                                assert(b.0[i + 1] == y);
                            }
                            if lv[y as int] != usize::MAX {
                                assert(b.2.contains(y));
                            }
                            if b.2.contains(y) {
                                assert(lv[y as int] != usize::MAX);
                            }
                        }
                    }
                }
                lemma_push_agree(m, q.drop_first(), b.0.drop_first(), lv, n, b.1, nb, x, val);
                let p = cq_push(m, q.drop_first(), lv, n, nb);
                assert(c2 == (p.0, lv2, (n - 1) as nat, cur));
                assert forall|t: int| 0 <= t < b2.2.len() implies c2.1[#[trigger] b2.2[t] as int] == m - 1 - t by {
                    if t < b.2.len() {
                        assert(b2.2[t] == b.2[t]);
                        assert(b.2[t] != x) by {
                            assert(b.2.contains(b.2[t]));
                        }
                    }
                }
                assert forall|y: usize| y < m implies (c2.1[y as int] != usize::MAX <==> #[trigger] b2.2.contains(y)) by {
                    if b2.2.contains(y) {
                        let i = choose|i: int| 0 <= i < b2.2.len() && b2.2[i] == y;
                        if i < b.2.len() {
                            assert(b.2[i] == y);
                            assert(b.2.contains(y));
                        }
                    }
                    if y != x && lv[y as int] != usize::MAX {
                        assert(b.2.contains(y));
                        let i = choose|i: int| 0 <= i < b.2.len() && b.2[i] == y;
                        assert(b2.2[i] == y);
                    }
                    if y == x {
                        assert(b2.2[b.2.len() as int] == x);
                    }
                }
                assert forall|z: int| 0 <= z < cur implies #[trigger] b2.1[z] by {
                    assert(b.1[z]);
                    lemma_push_unvisited_keeps(b.0.drop_first(), b.1, nb, z);
                }
                k + 1
            }
        } else {
            assert(b.0.len() == 0);
            if lv[cur as int] == usize::MAX {
                assert(!b.2.contains(cur as usize));
                assert(!b.1[cur as int]);
                lemma_first_unvisited_is(b.1, cur as int);
                assert(!bfs_done(b));
                self.lemma_bfs_step(b);
                let b2 = self.bfs_run(v, k + 1);
                assert(b2 == self.bfs_step(b));
                assert(pending(seq![cur as usize], lv) =~= seq![cur as usize]) by {
                    let e = seq![cur as usize].drop_last();
                    assert(e =~= Seq::<usize>::empty());
                    assert(pending(e, lv) == e);
                    assert(!e.contains(cur as usize));
                    assert(e.push(cur as usize) =~= seq![cur as usize]);
                }
                assert forall|z: int| 0 <= z < cur + 1 implies #[trigger] b2.1[z] by {
                    if z < cur {
                        assert(b.1[z]);
                    }
                }
                k + 1
            } else {
                assert(b.2.contains(cur as usize));
                assert(b.1[cur as int]);
                assert forall|z: int| 0 <= z < cur + 1 implies #[trigger] b.1[z] by {
                }
                k
            }
        }
    }
}

impl Matrix {
    /// Whatever the reordering search does from state `c` on, the labelling
    /// search matches it within its first `2m` steps.
    pub proof fn lemma_run_agree(&self, v: usize, k: nat, c: CqState) -> (k2: nat)
        requires
            self.square_search(),
            v < self.m,
            self.cq_inv(c),
            k <= 2 * self.m,
            self.searches_agree(self.bfs_run(v, k), c),
        ensures
            k2 <= 2 * self.m,
            self.searches_agree(self.bfs_run(v, k2), self.cq_run(c)),
        decreases c.2, self.m - c.3, c.0.len(),
    {
        if self.cq_done(c) {
            k
        } else {
            self.lemma_cq_step(c);
            let k1 = self.lemma_step_agree(v, k, c);
            self.lemma_run_agree(v, k1, self.cq_step(c))
        }
    }

    /// On a square pattern, `cmr_reorder` and `cmr_labels` from the same
    /// row number the vertices alike: the vertex that the labelling search
    /// finishes `t`-th gets the new number `m - 1 - t`, which is the label
    /// `cmr_labels` gives it.
    pub proof fn lemma_cmr_numbering_is_cmr_labels(&self, v: usize)
        requires
            self.wf(),
            self.cols_in_rows(),
            self.neighbour_labels_in_rows(),
            self.n <= self.m,
            self.m < usize::MAX,
            v < self.m,
        ensures
            self.spec_cmr_numbering(v).len() == self.m,
            forall|t: int|
                0 <= t < self.m ==> self.spec_cmr_numbering(v)[#[trigger] self.cmr_order(v)[t] as int] == self.m - 1 - t,
    {
        let m = self.m as nat;
        let c0 = self.cq_start(v);
        self.lemma_cq_start(v);
        let b0 = self.bfs_run(v, 0);
        assert(pending(c0.0, c0.1) =~= seq![v]) by {
            let e = seq![v].drop_last();
            assert(e =~= Seq::<usize>::empty());
            assert(pending(e, c0.1) == e);
            assert(!e.contains(v));
            assert(e.push(v) =~= seq![v]);
        }
        assert(self.searches_agree(b0, c0));
        let k2 = self.lemma_run_agree(v, 0, c0);
        self.lemma_cq_run(c0);
        let c = self.cq_run(c0);
        let b = self.bfs_run(v, k2);
        self.lemma_bfs_run_inv(v, k2);
        lemma_pending_contains(c.0, c.1);
        assert(b.0.len() == 0);
        lemma_first_unvisited_is(b.1, m as int);
        assert(bfs_done(b));
        self.lemma_bfs_run_done(v, k2, (2 * m - k2) as nat);
        assert(self.bfs_run(v, 2 * m) == b);
        self.lemma_cmr_order_is_permutation(v);
    }
}

/// Queueing neighbours only adds visited marks.
pub proof fn lemma_push_unvisited_keeps(q: Seq<usize>, vis: Seq<bool>, nb: Seq<usize>, z: int)
    requires
        0 <= z < vis.len(),
        vis[z],
        forall|k: int| 0 <= k < nb.len() ==> #[trigger] nb[k] < vis.len(),
    ensures
        push_unvisited(q, vis, nb).1[z],
        push_unvisited(q, vis, nb).1.len() == vis.len(),
    decreases nb.len(),
{
    if nb.len() > 0 {
        lemma_push_unvisited_keeps(q, vis, nb.drop_last(), z);
        let p = push_unvisited(q, vis, nb.drop_last());
        let u = nb.last();
        if !p.1[u as int] {
            assert(p.1.update(u as int, true)[z]);
        }
    }
}

} // verus!
