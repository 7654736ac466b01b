//! Reverse Cuthill–McKee: breadth-first labelling and reordering.
use vstd::prelude::*;
use vstd::relations::*;
use crate::csr::Matrix;

verus! {

/// State of the breadth-first search: the queue, the visited marks, and the
/// vertices finished so far, in order.
pub type BfsState = (Seq<usize>, Seq<bool>, Seq<usize>);

/// Number of marked entries.
pub open spec fn count_true(s: Seq<bool>) -> nat
    decreases s.len(),
{
    if s.len() == 0 {
        0
    } else {
        count_true(s.drop_last()) + if s.last() { 1nat } else { 0nat }
    }
}

pub proof fn lemma_count_true_update(s: Seq<bool>, i: int)
    requires
        0 <= i < s.len(),
        !s[i],
    ensures
        count_true(s.update(i, true)) == count_true(s) + 1,
    decreases s.len(),
{
    if i == s.len() - 1 {
        assert(s.update(i, true).drop_last() =~= s.drop_last());
    } else {
        lemma_count_true_update(s.drop_last(), i);
        assert(s.update(i, true).drop_last() =~= s.drop_last().update(i, true));
    }
}

pub proof fn lemma_count_true_bound(s: Seq<bool>)
    ensures
        count_true(s) <= s.len(),
        count_true(s) == s.len() ==> forall|i: int| 0 <= i < s.len() ==> #[trigger] s[i],
    decreases s.len(),
{
    if s.len() > 0 {
        lemma_count_true_bound(s.drop_last());
        if count_true(s) == s.len() {
            assert forall|i: int| 0 <= i < s.len() implies #[trigger] s[i] by {
                if i < s.len() - 1 {
                    assert(s.drop_last()[i] == s[i]);
                }
            }
        }
    }
}

pub proof fn lemma_count_true_none(n: nat)
    ensures
        count_true(Seq::new(n, |i: int| false)) == 0,
    decreases n,
{
    if n > 0 {
        assert(Seq::new(n, |i: int| false).drop_last() =~= Seq::new((n - 1) as nat, |i: int| false));
        lemma_count_true_none((n - 1) as nat);
    }
}

/// First unmarked position, if any.
pub open spec fn first_unvisited(vis: Seq<bool>) -> Option<nat>
    decreases vis.len(),
{
    if vis.len() == 0 {
        None
    } else if !vis[0] {
        Some(0)
    } else {
        match first_unvisited(vis.drop_first()) {
            Some(i) => Some(i + 1),
            None => None,
        }
    }
}

pub proof fn lemma_first_unvisited(vis: Seq<bool>)
    ensures
        match first_unvisited(vis) {
            Some(u) => u < vis.len() && !vis[u as int] && forall|j: int| 0 <= j < u ==> #[trigger] vis[j],
            None => forall|j: int| 0 <= j < vis.len() ==> #[trigger] vis[j],
        },
    decreases vis.len(),
{
    if vis.len() > 0 && vis[0] {
        lemma_first_unvisited(vis.drop_first());
        match first_unvisited(vis.drop_first()) {
            Some(u) => {
                assert forall|j: int| 0 <= j < u + 1 implies #[trigger] vis[j] by {
                    if j > 0 {
                        assert(vis.drop_first()[j - 1] == vis[j]);
                    }
                }
            },
            None => {
                assert forall|j: int| 0 <= j < vis.len() implies #[trigger] vis[j] by {
                    if j > 0 {
                        assert(vis.drop_first()[j - 1] == vis[j]);
                    }
                }
            },
        }
    }
}

pub proof fn lemma_first_unvisited_is(vis: Seq<bool>, k: int)
    requires
        0 <= k <= vis.len(),
        forall|j: int| 0 <= j < k ==> #[trigger] vis[j],
    ensures
        k < vis.len() && !vis[k] ==> first_unvisited(vis) == Some(k as nat),
        k == vis.len() ==> first_unvisited(vis) is None,
{
    lemma_first_unvisited(vis);
    match first_unvisited(vis) {
        Some(u) => {
            if k < vis.len() && !vis[k] {
                assert(!(u < k));
                assert(!(k < u));
            }
        },
        None => {},
    }
}

/// Position of the first `false` in `visited`, as
/// `visited.iter().position(|&x| !x)` finds it.
pub fn find_unvisited(visited: &Vec<bool>) -> (r: Option<usize>)
    ensures
        match r {
            Some(u) => first_unvisited(visited@) == Some(u as nat),
            None => first_unvisited(visited@) is None,
        },
{
    let mut k: usize = 0;
    while k < visited.len()
        invariant
            k <= visited@.len(),
            forall|j: int| 0 <= j < k ==> #[trigger] visited@[j],
        decreases visited@.len() - k,
    {
        if !visited[k] {
            proof {
                lemma_first_unvisited_is(visited@, k as int);
            }
            return Some(k);
        }
        k += 1;
    }
    proof {
        lemma_first_unvisited_is(visited@, k as int);
    }
    None
}

/// Appends to the queue, in the order of `nb`, each vertex of `nb` that is
/// not yet visited, marking it visited.
pub open spec fn push_unvisited(q: Seq<usize>, vis: Seq<bool>, nb: Seq<usize>) -> (Seq<usize>, Seq<bool>)
    decreases nb.len(),
{
    if nb.len() == 0 {
        (q, vis)
    } else {
        let p = push_unvisited(q, vis, nb.drop_last());
        let u = nb.last();
        if p.1[u as int] {
            p
        } else {
            (p.0.push(u), p.1.update(u as int, true))
        }
    }
}

/// The queue, the visited marks and the finished vertices agree: each
/// vertex below `m` is visited exactly when it is queued or finished, no
/// vertex is queued or finished twice, and the counts match.
pub open spec fn bfs_inv(m: nat, st: BfsState) -> bool {
    let q = st.0;
    let vis = st.1;
    let ord = st.2;
    &&& vis.len() == m
    &&& forall|i: int| 0 <= i < q.len() ==> #[trigger] q[i] < m
    &&& forall|i: int| 0 <= i < ord.len() ==> #[trigger] ord[i] < m
    &&& q.no_duplicates()
    &&& ord.no_duplicates()
    &&& q.disjoint(ord)
    &&& forall|x: usize| x < m ==> (#[trigger] vis[x as int] <==> (q.contains(x) || ord.contains(x)))
    &&& ord.len() + q.len() == count_true(vis)
}

/// Work left to the search.
pub open spec fn bfs_measure(m: nat, st: BfsState) -> int {
    2 * m - st.2.len() - count_true(st.1)
}

/// The search is over: nothing is queued and every vertex is visited.
pub open spec fn bfs_done(st: BfsState) -> bool {
    st.0.len() == 0 && first_unvisited(st.1) is None
}

pub proof fn lemma_push_unvisited(m: nat, q: Seq<usize>, vis: Seq<bool>, ord: Seq<usize>, nb: Seq<usize>)
    requires
        bfs_inv(m, (q, vis, ord)),
        forall|i: int| 0 <= i < nb.len() ==> #[trigger] nb[i] < m,
    ensures
        bfs_inv(m, (push_unvisited(q, vis, nb).0, push_unvisited(q, vis, nb).1, ord)),
        push_unvisited(q, vis, nb).0.len() >= q.len(),
    decreases nb.len(),
{
    if nb.len() > 0 {
        lemma_push_unvisited(m, q, vis, ord, nb.drop_last());
        let p = push_unvisited(q, vis, nb.drop_last());
        let u = nb.last();
        assert(u < m);
        if !p.1[u as int] {
            lemma_count_true_update(p.1, u as int);
            let q2 = p.0.push(u);
            let v2 = p.1.update(u as int, true);
            assert(!p.0.contains(u) && !ord.contains(u));
            assert forall|x: usize| x < m implies (#[trigger] v2[x as int] <==> (q2.contains(x) || ord.contains(x))) by {
                if x == u {
                    assert(q2[q2.len() - 1] == u);
                } else {
                    if q2.contains(x) {
                        let k = choose|k: int| 0 <= k < q2.len() && q2[k] == x;
                        if k == p.0.len() {
                            assert(q2[k] == u);
                            assert(x == u);
                        }
                        assert(k < p.0.len());
                        assert(p.0[k] == x);
                    }
                    if p.0.contains(x) {
                        let k = choose|k: int| 0 <= k < p.0.len() && p.0[k] == x;
                        assert(q2[k] == x);
                    }
                }
            }
            assert forall|i: int, j: int| 0 <= i < q2.len() && 0 <= j < ord.len() implies q2[i] != ord[j] by {
                if i == q2.len() - 1 {
                    assert(ord.contains(ord[j]));
                }
            }
            assert forall|i: int, j: int| 0 <= i < q2.len() && 0 <= j < q2.len() && i != j implies q2[i] != q2[j] by {
                if i == q2.len() - 1 {
                    assert(p.0.contains(p.0[j]));
                } else if j == q2.len() - 1 {
                    assert(p.0.contains(p.0[i]));
                }
            }
        }
    }
}

pub proof fn lemma_all_true_count(s: Seq<bool>)
    requires
        forall|i: int| 0 <= i < s.len() ==> #[trigger] s[i],
    ensures
        count_true(s) == s.len(),
    decreases s.len(),
{
    if s.len() > 0 {
        lemma_all_true_count(s.drop_last());
    }
}

/// State of the reordering search: the queue, the new number of each
/// vertex (`usize::MAX` while it has none), the next number to hand out
/// plus one, and how many rows have been tried as new starting points.
pub type CqState = (Seq<usize>, Seq<usize>, nat, nat);

/// Number of vertices that already have a new number.
pub open spec fn count_numbered(lv: Seq<usize>) -> nat
    decreases lv.len(),
{
    if lv.len() == 0 {
        0
    } else {
        count_numbered(lv.drop_last()) + if lv.last() != usize::MAX { 1nat } else { 0nat }
    }
}

pub proof fn lemma_count_numbered_update(lv: Seq<usize>, i: int, val: usize)
    requires
        0 <= i < lv.len(),
        lv[i] == usize::MAX,
        val != usize::MAX,
    ensures
        count_numbered(lv.update(i, val)) == count_numbered(lv) + 1,
    decreases lv.len(),
{
    if i == lv.len() - 1 {
        assert(lv.update(i, val).drop_last() =~= lv.drop_last());
    } else {
        lemma_count_numbered_update(lv.drop_last(), i, val);
        assert(lv.update(i, val).drop_last() =~= lv.drop_last().update(i, val));
    }
}

pub proof fn lemma_count_numbered_bound(lv: Seq<usize>)
    ensures
        count_numbered(lv) <= lv.len(),
        (exists|i: int| 0 <= i < lv.len() && lv[i] == usize::MAX) ==> count_numbered(lv) < lv.len(),
        count_numbered(lv) == lv.len() ==> forall|i: int| 0 <= i < lv.len() ==> #[trigger] lv[i] != usize::MAX,
    decreases lv.len(),
{
    if lv.len() > 0 {
        lemma_count_numbered_bound(lv.drop_last());
        if exists|i: int| 0 <= i < lv.len() && lv[i] == usize::MAX {
            let i = choose|i: int| 0 <= i < lv.len() && lv[i] == usize::MAX;
            if i < lv.len() - 1 {
                assert(lv.drop_last()[i] == usize::MAX);
            }
        }
    }
}

pub proof fn lemma_count_numbered_none(n: nat)
    ensures
        count_numbered(Seq::new(n, |i: int| usize::MAX)) == 0,
    decreases n,
{
    if n > 0 {
        assert(Seq::new(n, |i: int| usize::MAX).drop_last() =~= Seq::new((n - 1) as nat, |i: int| usize::MAX));
        lemma_count_numbered_none((n - 1) as nat);
    }
}

pub proof fn lemma_count_all_numbered(lv: Seq<usize>)
    requires
        forall|i: int| 0 <= i < lv.len() ==> #[trigger] lv[i] != usize::MAX,
    ensures
        count_numbered(lv) == lv.len(),
    decreases lv.len(),
{
    if lv.len() > 0 {
        lemma_count_all_numbered(lv.drop_last());
    }
}

/// Handles the neighbours `nb` of a vertex being finished: a row without a
/// number is queued; a column beyond the rows without a number gets the
/// next number at once.
pub open spec fn cq_push(m: nat, q: Seq<usize>, lv: Seq<usize>, n: nat, nb: Seq<usize>) -> (Seq<usize>, Seq<usize>, nat)
    decreases nb.len(),
{
    if nb.len() == 0 {
        (q, lv, n)
    } else {
        let p = cq_push(m, q, lv, n, nb.drop_last());
        let j = nb.last();
        if j < m && p.1[j as int] == usize::MAX {
            (p.0.push(j), p.1, p.2)
        } else if p.1[j as int] == usize::MAX {
            (p.0, p.1.update(j as int, (p.2 - 1) as usize), (p.2 - 1) as nat)
        } else {
            p
        }
    }
}

/// The numbers handed out so far are `n .. size`, each once, and `n` plus
/// the count of numbered vertices is `size`.
pub open spec fn numbering_inv(size: nat, lv: Seq<usize>, n: nat) -> bool {
    &&& lv.len() == size
    &&& forall|x: int| 0 <= x < size && #[trigger] lv[x] != usize::MAX ==> n <= lv[x] < size
    &&& forall|x: int, y: int|
        0 <= x < size && 0 <= y < size && x != y && #[trigger] lv[x] != usize::MAX ==> lv[x] != #[trigger] lv[y]
    &&& count_numbered(lv) + n == size
}

pub proof fn lemma_cq_push(m: nat, size: nat, q: Seq<usize>, lv: Seq<usize>, n: nat, nb: Seq<usize>, i: usize)
    requires
        numbering_inv(size, lv, n),
        size < usize::MAX,
        i < m <= size,
        lv[i as int] == usize::MAX,
        forall|k: int| 0 <= k < nb.len() ==> #[trigger] nb[k] < size,
        forall|k: int| 0 <= k < q.len() ==> #[trigger] q[k] < m,
    ensures
        numbering_inv(size, cq_push(m, q, lv, n, nb).1, cq_push(m, q, lv, n, nb).2),
        cq_push(m, q, lv, n, nb).2 <= n,
        cq_push(m, q, lv, n, nb).1[i as int] == usize::MAX,
        forall|k: int| 0 <= k < cq_push(m, q, lv, n, nb).0.len() ==> #[trigger] cq_push(m, q, lv, n, nb).0[k] < m,
        forall|x: int| 0 <= x < size && lv[x] != usize::MAX ==> #[trigger] cq_push(m, q, lv, n, nb).1[x] == lv[x],
        forall|x: usize| q.contains(x) ==> #[trigger] cq_push(m, q, lv, n, nb).0.contains(x),
        forall|k: int| 0 <= k < nb.len() && nb[k] >= m ==> #[trigger] cq_push(m, q, lv, n, nb).1[nb[k] as int] != usize::MAX,
        forall|x: int| 0 <= x < m && lv[x] == usize::MAX ==> #[trigger] cq_push(m, q, lv, n, nb).1[x] == usize::MAX,
    decreases nb.len(),
{
    if nb.len() > 0 {
        lemma_cq_push(m, size, q, lv, n, nb.drop_last(), i);
        let p = cq_push(m, q, lv, n, nb.drop_last());
        let j = nb.last();
        assert(forall|k: int| 0 <= k < nb.drop_last().len() ==> nb.drop_last()[k] == nb[k]);
        if j < m && p.1[j as int] == usize::MAX {
            assert forall|x: usize| q.contains(x) implies #[trigger] p.0.push(j).contains(x) by {
                assert(p.0.contains(x));
                let k = choose|k: int| 0 <= k < p.0.len() && p.0[k] == x;
                assert(p.0.push(j)[k] == x);
            }
        } else if p.1[j as int] == usize::MAX {
            lemma_count_numbered_bound(p.1);
            assert(p.1[i as int] == usize::MAX);
            assert(p.2 >= 1);
            let nv = (p.2 - 1) as usize;
            lemma_count_numbered_update(p.1, j as int, nv);
            let lv2 = p.1.update(j as int, nv);
            assert forall|x: int, y: int|
                0 <= x < size && 0 <= y < size && x != y && #[trigger] lv2[x] != usize::MAX implies lv2[x] != #[trigger] lv2[y] by {
                if x == j {
                    if lv2[y] != usize::MAX {
                        assert(p.1[y] >= p.2);
                    }
                } else if y == j {
                    assert(p.1[x] >= p.2);
                }
            }
        }
    }
}

/// Some row holds position `k` of `col_index`.
pub proof fn lemma_row_of(mx: &Matrix, k: int, hi: int)
    requires
        mx.wf(),
        0 <= hi <= mx.m,
        0 <= k < mx.row_index@[hi],
    ensures
        exists|r: int| 0 <= r < hi && mx.row_index@[r] <= k < #[trigger] mx.row_index@[r + 1],
    decreases hi,
{
    if hi > 0 && k < mx.row_index@[hi - 1] {
        lemma_row_of(mx, k, hi - 1);
        let r = choose|r: int| 0 <= r < hi - 1 && mx.row_index@[r] <= k < #[trigger] mx.row_index@[r + 1];
    } else if hi > 0 {
        assert(mx.row_index@[hi - 1] <= k < mx.row_index@[(hi - 1) + 1]);
    }
}

impl Matrix {
    /// Every vertex of a row is labelled by a row number.
    pub open spec fn labels_in_rows(&self) -> bool {
        forall|x: int| 0 <= x < self.m ==> #[trigger] self.labels@[x] < self.m
    }

    /// Every column that names a row is labelled by a row number, so that
    /// its degree can be looked up.
    pub open spec fn neighbour_labels_in_rows(&self) -> bool {
        forall|k: int|
            0 <= k < self.col_index@.len() && self.col_index@[k] < self.m ==> #[trigger] self.labels@[self.col_index@[k] as int] < self.m
    }

    /// The degrees of the rows among `s` can be looked up.
    pub open spec fn degrees_defined(&self, s: Seq<usize>) -> bool {
        forall|k: int| 0 <= k < s.len() && s[k] < self.m ==> #[trigger] self.labels@[s[k] as int] < self.m
    }

    pub proof fn lemma_row_degrees_defined(&self, v: usize)
        requires
            self.wf(),
            self.neighbour_labels_in_rows(),
            v < self.m,
        ensures
            self.degrees_defined(self.row(v as int)),
    {
        assert forall|k: int| 0 <= k < self.row(v as int).len() && self.row(v as int)[k] < self.m
            implies #[trigger] self.labels@[self.row(v as int)[k] as int] < self.m by {
            assert(self.row_index@[v as int] <= self.row_index@[v + 1]);
            assert(self.row_index@[v + 1] <= self.row_index@[self.m as int]);
            assert(self.row(v as int)[k] == self.col_index@[self.row_index@[v as int] + k]);
        }
    }

    /// Order of positions of `s` by the degree of the vertex there, ties
    /// broken by position.
    pub open spec fn degree_leq(&self, s: Seq<usize>, a: int, b: int) -> bool {
        let da = self.spec_degree(s[a] as int);
        let db = self.spec_degree(s[b] as int);
        da < db || (da == db && a <= b)
    }

    pub open spec fn degree_order(&self, s: Seq<usize>) -> spec_fn(int, int) -> bool {
        |a: int, b: int| self.degree_leq(s, a, b)
    }

    /// `s` sorted stably by degree: the positions of `s` ordered by degree
    /// and then by position, each replaced by the vertex there.
    pub open spec fn by_degree(&self, s: Seq<usize>) -> Seq<usize> {
        Seq::new(s.len(), |i: int| i).sort_by(self.degree_order(s)).map_values(|i: int| s[i])
    }

    pub proof fn lemma_degree_order_total(&self, s: Seq<usize>)
        ensures
            total_ordering(self.degree_order(s)),
    {
    }

    /// Stored nonzeros of the row that carries the label of vertex `x`, or 0
    /// when `x` is not a row.
    pub open spec fn label_row_nonzeros(&self, x: int) -> nat {
        if 0 <= x < self.m {
            self.row(self.labels@[x] as int).len()
        } else {
            0
        }
    }

    /// Sorting by degree puts a vertex whose row has fewer nonzeros before one
    /// whose row has more: along `by_degree(s)`, the number of nonzeros of
    /// the row that carries each vertex's label (0 for a vertex that is not
    /// a row) never decreases.
    pub proof fn lemma_by_degree_row_lengths(&self, s: Seq<usize>)
        requires
            self.wf(),
            self.degrees_defined(s),
        ensures
            forall|a: int, b: int|
                0 <= a < b < s.len() ==> self.label_row_nonzeros(#[trigger] self.by_degree(s)[a] as int)
                    <= self.label_row_nonzeros(#[trigger] self.by_degree(s)[b] as int),
    {
        broadcast use vstd::seq_lib::group_to_multiset_ensures;

        let ids = Seq::new(s.len(), |i: int| i);
        self.lemma_degree_order_total(s);
        ids.lemma_sort_by_ensures(self.degree_order(s));
        let srt = ids.sort_by(self.degree_order(s));
        assert(srt.len() == ids.len()) by {
            assert(srt.to_multiset().len() == ids.to_multiset().len());
        }
        assert forall|k: int| 0 <= k < s.len() implies 0 <= #[trigger] srt[k] < s.len() by {
            assert(srt.contains(srt[k]));
            assert(ids.contains(srt[k]));
        }
        let bd = self.by_degree(s);
        assert forall|a: int, b: int|
            0 <= a < b < s.len() implies self.label_row_nonzeros(#[trigger] bd[a] as int)
                <= self.label_row_nonzeros(#[trigger] bd[b] as int) by {
            assert((self.degree_order(s))(srt[a], srt[b]));
            assert(bd[a] == s[srt[a]]);
            assert(bd[b] == s[srt[b]]);
            self.lemma_degree_is_row_length(bd[a] as int);
            self.lemma_degree_is_row_length(bd[b] as int);
        }
    }

    /// The elements of `s` sorted stably by their degree, as
    /// `sort_by_key(|&x| self.degree(x))` sorts them.
    pub fn sort_by_degree(&self, s: &[usize]) -> (r: Vec<usize>)
        requires
            self.wf(),
            self.degrees_defined(s@),
        ensures
            r@ == self.by_degree(s@),
    {
        broadcast use vstd::seq_lib::group_to_multiset_ensures;

        let ghost ord = self.degree_order(s@);
        let mut keys: Vec<usize> = Vec::with_capacity(s.len());
        let mut idx: Vec<usize> = Vec::with_capacity(s.len());
        let mut i: usize = 0;
        while i < s.len()
            invariant
                self.wf(),
                self.degrees_defined(s@),
                ord == self.degree_order(s@),
                i <= s@.len(),
                keys@.len() == i,
                forall|k: int| 0 <= k < i ==> #[trigger] keys@[k] == self.spec_degree(s@[k] as int),
                idx@.len() == i,
                forall|k: int| 0 <= k < i ==> #[trigger] idx@[k] < i,
                sorted_by(idx@.map_values(|x: usize| x as int), ord),
                idx@.map_values(|x: usize| x as int).to_multiset() == Seq::new(i as nat, |k: int| k).to_multiset(),
            decreases s@.len() - i,
        {
            let k = self.degree(s[i]);
            keys.push(k);
            let mut pos: usize = idx.len();
            while pos > 0 && keys[idx[pos - 1]] > k
                invariant
                    pos <= idx@.len(),
                    idx@.len() == i,
                    keys@.len() == i + 1,
                    forall|j: int| 0 <= j < i ==> #[trigger] idx@[j] < i,
                    forall|j: int| pos <= j < idx@.len() ==> keys@[idx@[j] as int] > k,
                decreases pos,
            {
                pos -= 1;
            }
            let ghost old_idx = idx@;
            idx.insert(pos, i);
            proof {
                let oi = old_idx.map_values(|x: usize| x as int);
                let ni = idx@.map_values(|x: usize| x as int);
                assert(ni =~= oi.insert(pos as int, i as int));
                crate::seqs::lemma_insert_to_multiset(oi, pos as int, i as int);
                assert(Seq::new((i + 1) as nat, |k: int| k) =~= Seq::new(i as nat, |k: int| k).push(i as int));
                Seq::new(i as nat, |k: int| k).to_multiset_ensures();
                assert(Seq::new((i + 1) as nat, |k: int| k).to_multiset()
                    =~= Seq::new(i as nat, |k: int| k).to_multiset().insert(i as int));
                assert(ni.to_multiset() =~= oi.to_multiset().insert(i as int));
                assert forall|a: int, b: int| 0 <= a < b < ni.len() implies #[trigger] ord(ni[a], ni[b]) by {
                    if b < pos {
                        assert(ord(oi[a], oi[b]));
                    } else if b == pos {
                        assert(keys@[old_idx[pos - 1] as int] <= k);
                        assert(ord(oi[a], oi[pos - 1]) || a == pos - 1);
                        assert(self.spec_degree(s@[oi[a]] as int) <= k);
                    } else if a < pos {
                        assert(ord(oi[a], oi[b - 1]));
                    } else if a == pos {
                        assert(keys@[old_idx[b - 1] as int] > k);
                    } else {
                        assert(ord(oi[a - 1], oi[b - 1]));
                    }
                }
                assert forall|j: int| 0 <= j < i + 1 implies #[trigger] idx@[j] < i + 1 by {
                    if j < pos {
                        assert(old_idx[j] < i);
                    } else if j > pos {
                        assert(old_idx[j - 1] < i);
                    }
                }
            }
            i += 1;
        }
        let mut r: Vec<usize> = Vec::with_capacity(s.len());
        let mut t: usize = 0;
        while t < idx.len()
            invariant
                idx@.len() == s@.len(),
                forall|k: int| 0 <= k < idx@.len() ==> #[trigger] idx@[k] < s@.len(),
                t <= idx@.len(),
                r@ == idx@.take(t as int).map_values(|x: usize| s@[x as int]),
            decreases idx@.len() - t,
        {
            r.push(s[idx[t]]);
            proof {
                assert(idx@.take(t + 1).map_values(|x: usize| s@[x as int])
                    =~= idx@.take(t as int).map_values(|x: usize| s@[x as int]).push(s@[idx@[t as int] as int]));
            }
            t += 1;
        }
        proof {
            let ni = idx@.map_values(|x: usize| x as int);
            let ids = Seq::new(s@.len(), |k: int| k);
            self.lemma_degree_order_total(s@);
            ids.lemma_sort_by_ensures(ord);
            vstd::seq_lib::lemma_sorted_unique(ni, ids.sort_by(ord), ord);
            assert(idx@.take(idx@.len() as int) =~= idx@);
            assert(r@ =~= ni.map_values(|i: int| s@[i]));
        }
        r
    }

    /// Neighbours of `v` in the order in which the search queues them.
    pub open spec fn sorted_neighbours(&self, v: usize) -> Seq<usize> {
        self.by_degree(self.row(v as int))
    }

    /// Search state at the start: `v` queued and visited.
    pub open spec fn bfs_start(&self, v: usize) -> BfsState {
        (seq![v], Seq::new(self.m as nat, |i: int| false).update(v as int, true), Seq::empty())
    }

    /// One step of the search.  With a nonempty queue, the first vertex
    /// leaves it and is finished, and its unvisited neighbours, sorted
    /// stably by degree, join it.  With an empty queue, the search starts
    /// again from the first unvisited vertex, if there is one.
    pub open spec fn bfs_step(&self, st: BfsState) -> BfsState {
        if st.0.len() > 0 {
            let v = st.0[0];
            let p = push_unvisited(st.0.drop_first(), st.1, self.sorted_neighbours(v));
            (p.0, p.1, st.2.push(v))
        } else {
            match first_unvisited(st.1) {
                Some(u) => (seq![u as usize], st.1.update(u as int, true), st.2),
                None => st,
            }
        }
    }

    /// Search state after `k` steps from `v`.
    pub open spec fn bfs_run(&self, v: usize, k: nat) -> BfsState
        decreases k,
    {
        if k == 0 {
            self.bfs_start(v)
        } else {
            self.bfs_step(self.bfs_run(v, (k - 1) as nat))
        }
    }

    /// Order in which the search from `v` finishes the vertices: it is over
    /// after at most `2m` steps.
    pub open spec fn cmr_order(&self, v: usize) -> Seq<usize> {
        self.bfs_run(v, 2 * self.m as nat).2
    }

    /// Every column index names a row: the pattern is square.
    pub open spec fn cols_in_rows(&self) -> bool {
        forall|k: int| 0 <= k < self.col_index@.len() ==> #[trigger] self.col_index@[k] < self.m
    }

    pub proof fn lemma_by_degree_elems(&self, s: Seq<usize>)
        ensures
            self.by_degree(s).len() == s.len(),
            forall|k: int| 0 <= k < s.len() ==> s.contains(#[trigger] self.by_degree(s)[k]),
    {
        broadcast use vstd::seq_lib::group_to_multiset_ensures;

        let ids = Seq::new(s.len(), |i: int| i);
        self.lemma_degree_order_total(s);
        ids.lemma_sort_by_ensures(self.degree_order(s));
        let srt = ids.sort_by(self.degree_order(s));
        assert(srt.len() == ids.len()) by {
            assert(srt.to_multiset().len() == ids.to_multiset().len());
        }
        assert forall|k: int| 0 <= k < s.len() implies s.contains(#[trigger] self.by_degree(s)[k]) by {
            assert(srt.contains(srt[k]));
            assert(ids.contains(srt[k]));
            let j = srt[k];
            assert(0 <= j < s.len());
            assert(self.by_degree(s)[k] == s[j]);
        }
    }

    pub proof fn lemma_sorted_neighbours_in_rows(&self, v: usize)
        requires
            self.wf(),
            self.cols_in_rows(),
            v < self.m,
        ensures
            forall|i: int| 0 <= i < self.sorted_neighbours(v).len() ==> #[trigger] self.sorted_neighbours(v)[i] < self.m,
    {
        let row = self.row(v as int);
        self.lemma_by_degree_elems(row);
        assert(self.row_index@[v as int] <= self.row_index@[v + 1]);
        assert(self.row_index@[v + 1] <= self.row_index@[self.m as int]);
        assert forall|i: int| 0 <= i < self.sorted_neighbours(v).len() implies #[trigger] self.sorted_neighbours(v)[i] < self.m by {
            assert(row.contains(self.by_degree(row)[i]));
            let j = choose|j: int| 0 <= j < row.len() && row[j] == self.by_degree(row)[i];
            assert(row[j] == self.col_index@[self.row_index@[v as int] + j]);
        }
    }

    /// A step keeps the invariant; it does less work left unless the search
    /// is over, and then it changes nothing.
    pub proof fn lemma_bfs_step(&self, st: BfsState)
        requires
            self.wf(),
            self.cols_in_rows(),
            bfs_inv(self.m as nat, st),
        ensures
            bfs_inv(self.m as nat, self.bfs_step(st)),
            bfs_done(st) ==> self.bfs_step(st) == st,
            !bfs_done(st) ==> bfs_measure(self.m as nat, self.bfs_step(st)) < bfs_measure(self.m as nat, st),
            bfs_measure(self.m as nat, st) >= 0,
            st.2.len() <= count_true(st.1) <= self.m,
            self.bfs_step(st).2.len() >= st.2.len(),
            forall|i: int| 0 <= i < st.2.len() ==> #[trigger] self.bfs_step(st).2[i] == st.2[i],
    {
        let m = self.m as nat;
        let q = st.0;
        let vis = st.1;
        let ord = st.2;
        lemma_count_true_bound(vis);
        if q.len() > 0 {
            let v = q[0];
            let q1 = q.drop_first();
            let ord1 = ord.push(v);
            assert(!ord.contains(v)) by {
                if ord.contains(v) {
                    let j = choose|j: int| 0 <= j < ord.len() && ord[j] == v;
                    assert(q[0] != ord[j]);
                }
            }
            assert forall|x: usize| x < m implies (#[trigger] vis[x as int] <==> (q1.contains(x) || ord1.contains(x))) by {
                if q.contains(x) {
                    let k = choose|k: int| 0 <= k < q.len() && q[k] == x;
                    if k == 0 {
                        assert(ord1[ord.len() as int] == x);
                    } else {
                        assert(q1[k - 1] == x);
                    }
                }
                if q1.contains(x) {
                    let k = choose|k: int| 0 <= k < q1.len() && q1[k] == x;
                    assert(q[k + 1] == x);
                }
                if ord1.contains(x) {
                    let k = choose|k: int| 0 <= k < ord1.len() && ord1[k] == x;
                    if k < ord.len() {
                        assert(ord[k] == x);
                    } else {
                        assert(q[0] == x);
                    }
                }
                if ord.contains(x) {
                    let k = choose|k: int| 0 <= k < ord.len() && ord[k] == x;
                    assert(ord1[k] == x);
                }
            }
            assert forall|i: int, j: int| 0 <= i < q1.len() && 0 <= j < ord1.len() implies q1[i] != ord1[j] by {
                if j == ord.len() {
                    assert(q[i + 1] != q[0]);
                } else {
                    assert(q[i + 1] != ord[j]);
                }
            }
            assert forall|i: int, j: int| 0 <= i < q1.len() && 0 <= j < q1.len() && i != j implies q1[i] != q1[j] by {
                assert(q[i + 1] != q[j + 1]);
            }
            assert forall|i: int, j: int| 0 <= i < ord1.len() && 0 <= j < ord1.len() && i != j implies ord1[i] != ord1[j] by {
                if i == ord.len() {
                    assert(ord.contains(ord[j]));
                } else if j == ord.len() {
                    assert(ord.contains(ord[i]));
                }
            }
            assert(bfs_inv(m, (q1, vis, ord1)));
            self.lemma_sorted_neighbours_in_rows(v);
            lemma_push_unvisited(m, q1, vis, ord1, self.sorted_neighbours(v));
            let p = push_unvisited(q1, vis, self.sorted_neighbours(v));
            lemma_count_true_bound(p.1);
        } else {
            lemma_first_unvisited(vis);
            match first_unvisited(vis) {
                Some(u) => {
                    lemma_count_true_update(vis, u as int);
                    let q2 = seq![u as usize];
                    let v2 = vis.update(u as int, true);
                    assert(!ord.contains(u as usize));
                    assert forall|x: usize| x < m implies (#[trigger] v2[x as int] <==> (q2.contains(x) || ord.contains(x))) by {
                        if x == u {
                            assert(q2[0] == x);
                        } else if q2.contains(x) {
                            assert(q2[0] == x);
                        }
                    }
                    lemma_count_true_bound(v2);
                },
                None => {},
            }
        }
    }

    /// After the search is over, further steps change nothing.
    pub proof fn lemma_bfs_run_done(&self, v: usize, k: nat, j: nat)
        requires
            self.wf(),
            self.cols_in_rows(),
            bfs_inv(self.m as nat, self.bfs_run(v, k)),
            bfs_done(self.bfs_run(v, k)),
        ensures
            self.bfs_run(v, k + j) == self.bfs_run(v, k),
        decreases j,
    {
        if j > 0 {
            self.lemma_bfs_run_done(v, k, (j - 1) as nat);
            assert(self.bfs_run(v, k + j) == self.bfs_step(self.bfs_run(v, (k + j - 1) as nat)));
            self.lemma_bfs_step(self.bfs_run(v, k));
        }
    }

    pub proof fn lemma_bfs_start(&self, v: usize)
        requires
            v < self.m,
        ensures
            bfs_inv(self.m as nat, self.bfs_start(v)),
            bfs_measure(self.m as nat, self.bfs_start(v)) == 2 * self.m - 1,
    {
        let none = Seq::new(self.m as nat, |i: int| false);
        lemma_count_true_none(self.m as nat);
        lemma_count_true_update(none, v as int);
        let st = self.bfs_start(v);
        assert forall|x: usize| x < self.m implies (#[trigger] st.1[x as int] <==> (st.0.contains(x) || st.2.contains(x))) by {
            if x == v {
                assert(st.0[0] == v);
            }
        }
    }

    /// Up to step `k` the invariant holds, and the search is over or has
    /// at least `k` less work left than at the start.
    pub proof fn lemma_bfs_run_inv(&self, v: usize, k: nat)
        requires
            self.wf(),
            self.cols_in_rows(),
            v < self.m,
        ensures
            bfs_inv(self.m as nat, self.bfs_run(v, k)),
            bfs_done(self.bfs_run(v, k)) || bfs_measure(self.m as nat, self.bfs_run(v, k)) + k <= 2 * self.m - 1,
            k >= 1 ==> self.bfs_run(v, k).2.len() >= 1 && self.bfs_run(v, k).2[0] == v,
        decreases k,
    {
        if k == 0 {
            self.lemma_bfs_start(v);
        } else {
            let prev = self.bfs_run(v, (k - 1) as nat);
            self.lemma_bfs_run_inv(v, (k - 1) as nat);
            self.lemma_bfs_step(prev);
            if k == 1 {
                assert(prev == self.bfs_start(v));
            }
        }
    }

    /// The search from a row `v` of a square pattern finishes every row
    /// exactly once, `v` first.
    pub proof fn lemma_cmr_order_is_permutation(&self, v: usize)
        requires
            self.wf(),
            self.cols_in_rows(),
            v < self.m,
        ensures
            self.cmr_order(v).len() == self.m,
            self.cmr_order(v).no_duplicates(),
            forall|i: int| 0 <= i < self.m ==> #[trigger] self.cmr_order(v)[i] < self.m,
            forall|x: usize| x < self.m ==> self.cmr_order(v).contains(x),
            self.cmr_order(v)[0] == v,
    {
        let k = 2 * self.m as nat;
        self.lemma_bfs_run_inv(v, k);
        let st = self.bfs_run(v, k);
        lemma_count_true_bound(st.1);
        assert(bfs_done(st));
        lemma_first_unvisited(st.1);
        lemma_count_true_bound(st.1);
        assert forall|x: usize| x < self.m implies st.2.contains(x) by {
            assert(st.1[x as int]);
        }
        assert(count_true(st.1) == self.m) by {
            lemma_all_true_count(st.1);
        }
    }

    /// Reverse Cuthill–McKee labelling from vertex `v`: a breadth-first
    /// search from `v` that queues the neighbours of each vertex sorted by
    /// degree and starts again from the first unvisited vertex when the
    /// queue runs empty.  The `t`-th vertex finished gets label `m - 1 - t`.
    /// Only the labels change.
    pub fn cmr_labels(&mut self, v: usize)
        requires
            old(self).wf(),
            old(self).cols_in_rows(),
            old(self).neighbour_labels_in_rows(),
            v < old(self).m,
        ensures
            final(self).col_index == old(self).col_index,
            final(self).row_index == old(self).row_index,
            final(self).bw == old(self).bw,
            final(self).max_degree == old(self).max_degree,
            final(self).min_bw == old(self).min_bw,
            final(self).m == old(self).m,
            final(self).n == old(self).n,
            final(self).nz_len == old(self).nz_len,
            final(self).labels@.len() == old(self).labels@.len(),
            forall|t: int|
                0 <= t < old(self).m ==> final(self).labels@[#[trigger] old(self).cmr_order(v)[t] as int]
                    == old(self).m - 1 - t,
            forall|x: int|
                old(self).m <= x < old(self).labels@.len() ==> #[trigger] final(self).labels@[x]
                    == old(self).labels@[x],
            final(self).labels_in_rows(),
            forall|x: int, y: int|
                0 <= x < y < old(self).m ==> #[trigger] final(self).labels@[x] != #[trigger] final(self).labels@[y],
            final(self).labels@[v as int] == old(self).m - 1,
    {
        let m = self.m;
        let ghost steps: nat = 0;
        let mut queue: std::collections::VecDeque<usize> = std::collections::VecDeque::new();
        let mut visited: Vec<bool> = vec![false; m];
        let mut order: Vec<usize> = vec![0; m];
        let mut n: usize = 0;
        queue.push_back(v);
        visited.set(v, true);
        proof {
            assert(visited@ =~= Seq::new(m as nat, |i: int| false).update(v as int, true));
            assert((queue@, visited@, order@.take(0)) == self.bfs_start(v));
            self.lemma_bfs_start(v);
        }
        loop
            invariant
                self.wf(),
                self.cols_in_rows(),
                self.neighbour_labels_in_rows(),
                m == self.m,
                v < m,
                order@.len() == m,
                n <= m,
                (queue@, visited@, order@.take(n as int)) == self.bfs_run(v, steps),
                bfs_inv(m as nat, self.bfs_run(v, steps)),
                bfs_measure(m as nat, self.bfs_run(v, steps)) + steps <= 2 * m - 1,
                *self == *old(self),
            ensures
                bfs_done(self.bfs_run(v, steps)),
                (queue@, visited@, order@.take(n as int)) == self.bfs_run(v, steps),
                bfs_inv(m as nat, self.bfs_run(v, steps)),
                order@.len() == m,
                n <= m,
                *self == *old(self),
                steps <= 2 * m,
            decreases bfs_measure(m as nat, self.bfs_run(v, steps)),
        {
            let ghost m0 = bfs_measure(m as nat, self.bfs_run(v, steps));
            proof {
                self.lemma_bfs_step(self.bfs_run(v, steps));
            }
            while queue.len() > 0
                invariant
                    self.wf(),
                    self.cols_in_rows(),
                    self.neighbour_labels_in_rows(),
                    m == self.m,
                    v < m,
                    order@.len() == m,
                    n <= m,
                    (queue@, visited@, order@.take(n as int)) == self.bfs_run(v, steps),
                    bfs_inv(m as nat, self.bfs_run(v, steps)),
                    bfs_measure(m as nat, self.bfs_run(v, steps)) + steps <= 2 * m - 1,
                    *self == *old(self),
                    bfs_measure(m as nat, self.bfs_run(v, steps)) <= m0,
                    bfs_measure(m as nat, self.bfs_run(v, steps)) >= 0,
                decreases bfs_measure(m as nat, self.bfs_run(v, steps)),
            {
                let ghost st = self.bfs_run(v, steps);
                proof {
                    self.lemma_bfs_step(st);
                    lemma_count_true_bound(st.1);
                }
                let u0 = match queue.pop_front() {
                    Some(x) => x,
                    None => 0,
                };
                proof {
                    self.lemma_row_degrees_defined(u0);
                }
                let neighbours = self.sort_by_degree(self.get_columns_of_row(u0));
                proof {
                    self.lemma_sorted_neighbours_in_rows(u0);
                }
                let mut t: usize = 0;
                while t < neighbours.len()
                    invariant
                        self.wf(),
                        self.cols_in_rows(),
                        neighbours@ == self.sorted_neighbours(u0),
                        forall|i: int| 0 <= i < neighbours@.len() ==> #[trigger] neighbours@[i] < m,
                        visited@.len() == m,
                        m == self.m,
                        t <= neighbours@.len(),
                        (queue@, visited@) == push_unvisited(st.0.drop_first(), st.1, neighbours@.take(t as int)),
                    decreases neighbours@.len() - t,
                {
                    let u = neighbours[t];
                    proof {
                        assert(neighbours@.take(t + 1).drop_last() =~= neighbours@.take(t as int));
                    }
                    if !visited[u] {
                        queue.push_back(u);
                        visited.set(u, true);
                    }
                    t += 1;
                }
                proof {
                    assert(neighbours@.take(neighbours@.len() as int) =~= neighbours@);
                    assert(n < m);
                }
                let ghost before = order@;
                order.set(n, u0);
                proof {
                    assert(order@.take(n + 1) =~= before.take(n as int).push(u0));
                    steps = steps + 1;
                    assert(self.bfs_run(v, steps) == self.bfs_step(st));
                    self.lemma_bfs_step(self.bfs_run(v, steps));
                }
                n += 1;
            }
            match find_unvisited(&visited) {
                Some(u) => {
                    let ghost st = self.bfs_run(v, steps);
                    proof {
                        self.lemma_bfs_step(st);
                        lemma_first_unvisited(visited@);
                    }
                    queue.push_back(u);
                    visited.set(u, true);
                    proof {
                        assert(queue@ =~= seq![u]);
                        steps = steps + 1;
                        assert(self.bfs_run(v, steps) == self.bfs_step(st));
                        self.lemma_bfs_step(self.bfs_run(v, steps));
                    }
                },
                None => {
                    proof {
                        lemma_count_true_bound(visited@);
                        if !bfs_done(self.bfs_run(v, steps)) {
                            assert(false);
                        }
                    }
                    break;
                },
            }
        }
        proof {
            let st = self.bfs_run(v, steps);
            self.lemma_bfs_run_done(v, steps, (2 * m - steps) as nat);
            assert(self.bfs_run(v, 2 * m as nat) == st);
            self.lemma_cmr_order_is_permutation(v);
            assert(order@.take(n as int).len() == m);
            assert(order@ =~= self.cmr_order(v));
        }
        let ghost ord = self.cmr_order(v);
        let ghost old_labels = self.labels@;
        let mut label: usize = m;
        let mut t: usize = 0;
        while t < m
            invariant
                ord == old(self).cmr_order(v),
                order@ == ord,
                ord.len() == m,
                ord.no_duplicates(),
                forall|i: int| 0 <= i < m ==> #[trigger] ord[i] < m,
                m == self.m,
                self.col_index == old(self).col_index,
                self.row_index == old(self).row_index,
                self.bw == old(self).bw,
                self.max_degree == old(self).max_degree,
                self.min_bw == old(self).min_bw,
                self.m == old(self).m,
                self.n == old(self).n,
                self.nz_len == old(self).nz_len,
                old_labels == old(self).labels@,
                t <= m,
                label == m - t,
                self.labels@.len() == old_labels.len(),
                old_labels.len() >= m,
                forall|i: int| 0 <= i < t ==> self.labels@[#[trigger] ord[i] as int] == m - 1 - i,
                forall|x: int| 0 <= x < old_labels.len() && !ord.take(t as int).contains(x as usize) ==> #[trigger] self.labels@[x] == old_labels[x],
            decreases m - t,
        {
            label -= 1;
            let i = order[t];
            self.labels.set(i, label);
            proof {
                assert forall|x: int| 0 <= x < old_labels.len() && !ord.take(t + 1).contains(x as usize) implies #[trigger] self.labels@[x] == old_labels[x] by {
                    if x == i {
                        assert(ord.take(t + 1)[t as int] == i);
                    }
                    if ord.take(t as int).contains(x as usize) {
                        let k = choose|k: int| 0 <= k < t && ord.take(t as int)[k] == x as usize;
                        assert(ord.take(t + 1)[k] == x as usize);
                    }
                }
            }
            t += 1;
        }
        proof {
            assert forall|x: int| 0 <= x < m implies #[trigger] self.labels@[x] < m by {
                assert(ord.contains(x as usize));
                let k = choose|k: int| 0 <= k < ord.len() && ord[k] == x as usize;
                assert(self.labels@[ord[k] as int] == m - 1 - k);
            }
            assert forall|x: int, y: int| 0 <= x < y < m implies #[trigger] self.labels@[x] != #[trigger] self.labels@[y] by {
                assert(ord.contains(x as usize));
                assert(ord.contains(y as usize));
                let kx = choose|k: int| 0 <= k < ord.len() && ord[k] == x as usize;
                let ky = choose|k: int| 0 <= k < ord.len() && ord[k] == y as usize;
                assert(self.labels@[ord[kx] as int] == m - 1 - kx);
                assert(self.labels@[ord[ky] as int] == m - 1 - ky);
            }
            assert forall|x: int| m <= x < old_labels.len() implies #[trigger] self.labels@[x] == old_labels[x] by {
                assert(ord.take(m as int) =~= ord);
                if ord.contains(x as usize) {
                    let k = choose|k: int| 0 <= k < ord.len() && ord[k] == x as usize;
                }
            }
            assert(self.labels@[ord[0] as int] == m - 1);
        }
    }

    /// Facts about the matrix that the reordering search relies on.
    pub open spec fn cq_ready(&self) -> bool {
        &&& self.wf()
        &&& self.neighbour_labels_in_rows()
        &&& self.size() < usize::MAX
    }

    /// Invariant of the reordering search.
    pub open spec fn cq_inv(&self, st: CqState) -> bool {
        let q = st.0;
        let lv = st.1;
        let n = st.2;
        let c = st.3;
        &&& self.cq_ready()
        &&& numbering_inv(self.size(), lv, n)
        &&& forall|k: int| 0 <= k < q.len() ==> #[trigger] q[k] < self.m
        &&& c <= self.m
        &&& forall|i: int| 0 <= i < c ==> #[trigger] lv[i] != usize::MAX || q.contains(i as usize)
        &&& forall|r: int, k: int|
            0 <= r < self.m && lv[r] != usize::MAX && 0 <= k < self.row(r).len() && self.row(r)[k] >= self.m
                ==> #[trigger] lv[self.row(r)[k] as int] != usize::MAX
    }

    /// One step of the reordering search.  A vertex leaves the queue; if it
    /// has no number yet, its neighbours sorted stably by degree are handled
    /// (`cq_push`) and it takes the next number.  With an empty queue, the
    /// next row is tried as a new starting point.
    pub open spec fn cq_step(&self, st: CqState) -> CqState {
        let q = st.0;
        let lv = st.1;
        let n = st.2;
        let c = st.3;
        if q.len() > 0 {
            let i = q[0];
            if lv[i as int] != usize::MAX {
                (q.drop_first(), lv, n, c)
            } else {
                let p = cq_push(self.m as nat, q.drop_first(), lv, n, self.sorted_neighbours(i));
                (p.0, p.1.update(i as int, (p.2 - 1) as usize), (p.2 - 1) as nat, c)
            }
        } else if c < self.m {
            if lv[c as int] == usize::MAX {
                (seq![c as usize], lv, n, c + 1)
            } else {
                (q, lv, n, c + 1)
            }
        } else {
            st
        }
    }

    /// The search is over: nothing is queued and every row was tried.
    pub open spec fn cq_done(&self, st: CqState) -> bool {
        st.0.len() == 0 && st.3 >= self.m
    }

    pub proof fn lemma_cq_step(&self, st: CqState)
        requires
            self.cq_inv(st),
            !self.cq_done(st),
        ensures
            self.cq_inv(self.cq_step(st)),
            decreases_to!(st.2, self.m - st.3, st.0.len() => self.cq_step(st).2, self.m - self.cq_step(st).3, self.cq_step(st).0.len()),
            self.cq_step(st).3 >= st.3,
            self.cq_step(st).2 <= st.2,
            st.0.len() > 0 ==> self.cq_step(st).3 == st.3 && (self.cq_step(st).2 < st.2 || self.cq_step(st).0.len() < st.0.len()),
    {
        let q = st.0;
        let lv = st.1;
        let n = st.2;
        let c = st.3;
        let size = self.size();
        let nxt = self.cq_step(st);
        if q.len() > 0 {
            let i = q[0];
            let q1 = q.drop_first();
            assert forall|x: usize| q.contains(x) && x != i implies q1.contains(x) by {
                let k = choose|k: int| 0 <= k < q.len() && q[k] == x;
                assert(q1[k - 1] == x);
            }
            if lv[i as int] != usize::MAX {
                assert(self.cq_inv(nxt));
            } else {
                let nb = self.sorted_neighbours(i);
                self.lemma_sorted_neighbours_below(i);
                lemma_cq_push(self.m as nat, size, q1, lv, n, nb, i);
                let p = cq_push(self.m as nat, q1, lv, n, nb);
                lemma_count_numbered_bound(p.1);
                assert(p.2 >= 1);
                let nv = (p.2 - 1) as usize;
                lemma_count_numbered_update(p.1, i as int, nv);
                let lv2 = p.1.update(i as int, nv);
                assert forall|x: int, y: int|
                    0 <= x < size && 0 <= y < size && x != y && #[trigger] lv2[x] != usize::MAX implies lv2[x] != #[trigger] lv2[y] by {
                    if x == i {
                        if lv2[y] != usize::MAX {
                            assert(p.1[y] >= p.2);
                        }
                    } else if y == i {
                        assert(p.1[x] >= p.2);
                    }
                }
                assert(numbering_inv(size, lv2, (p.2 - 1) as nat));
                assert forall|ii: int| 0 <= ii < c implies #[trigger] lv2[ii] != usize::MAX || p.0.contains(ii as usize) by {
                    if ii != i && lv2[ii] == usize::MAX {
                        assert(lv[ii] == usize::MAX) by {
                            if lv[ii] != usize::MAX {
                                assert(p.1[ii] == lv[ii]);
                            }
                        }
                        assert(q.contains(ii as usize));
                        assert(q1.contains(ii as usize));
                    }
                }
                assert forall|r: int, k: int|
                    0 <= r < self.m && lv2[r] != usize::MAX && 0 <= k < self.row(r).len() && self.row(r)[k] >= self.m
                        implies #[trigger] lv2[self.row(r)[k] as int] != usize::MAX by {
                    let col = self.row(r)[k];
                    if r == i {
                        self.lemma_by_degree_has_all(self.row(r));
                        let t = choose|t: int| 0 <= t < nb.len() && nb[t] == col;
                        assert(p.1[nb[t] as int] != usize::MAX);
                    } else {
                        assert(lv[r] != usize::MAX) by {
                            if lv[r] == usize::MAX {
                                assert(lv2[r] == p.1[r]);
                                assert(p.1[r] == usize::MAX);
                            }
                        }
                        self.lemma_row_below(r, k);
                        assert(lv[col as int] != usize::MAX);
                        assert(p.1[col as int] == lv[col as int]);
                    }
                }
                assert(self.cq_inv(nxt));
            }
        } else {
            if lv[c as int] == usize::MAX {
                assert forall|ii: int| 0 <= ii < c + 1 implies #[trigger] lv[ii] != usize::MAX || nxt.0.contains(ii as usize) by {
                    if ii == c {
                        assert(nxt.0[0] == ii as usize);
                    }
                }
            }
            assert(self.cq_inv(nxt));
        }
    }

    /// Runs the reordering search to its end.
    pub open spec fn cq_run(&self, st: CqState) -> CqState
        decreases st.2, self.m - st.3, st.0.len(),
        when self.cq_inv(st)
    {
        if self.cq_done(st) {
            st
        } else {
            proof {
                self.lemma_cq_step(st);
            }
            self.cq_run(self.cq_step(st))
        }
    }

    /// Search state at the start, from row `start_v`.
    pub open spec fn cq_start(&self, start_v: usize) -> CqState {
        (seq![start_v], Seq::new(self.size(), |i: int| usize::MAX), self.size(), 0)
    }

    /// New number of each vertex chosen by `cmr_reorder` from `start_v`.
    pub open spec fn spec_cmr_numbering(&self, start_v: usize) -> Seq<usize> {
        self.cq_run(self.cq_start(start_v)).1
    }

    pub proof fn lemma_row_below(&self, r: int, k: int)
        requires
            self.wf(),
            0 <= r < self.m,
            0 <= k < self.row(r).len(),
        ensures
            self.row(r)[k] < self.size(),
            self.row(r)[k] == self.col_index@[self.row_index@[r] + k],
    {
        assert(self.row_index@[r] <= self.row_index@[r + 1]);
        assert(self.row_index@[r + 1] <= self.row_index@[self.m as int]);
    }

    pub proof fn lemma_sorted_neighbours_below(&self, v: usize)
        requires
            self.wf(),
            v < self.m,
        ensures
            forall|i: int| 0 <= i < self.sorted_neighbours(v).len() ==> #[trigger] self.sorted_neighbours(v)[i] < self.size(),
    {
        let row = self.row(v as int);
        self.lemma_by_degree_elems(row);
        assert forall|i: int| 0 <= i < self.sorted_neighbours(v).len() implies #[trigger] self.sorted_neighbours(v)[i] < self.size() by {
            assert(row.contains(self.by_degree(row)[i]));
            let j = choose|j: int| 0 <= j < row.len() && row[j] == self.by_degree(row)[i];
            self.lemma_row_below(v as int, j);
        }
    }

    /// Every element of `s` occurs in `s` sorted by degree.
    pub proof fn lemma_by_degree_has_all(&self, s: Seq<usize>)
        ensures
            forall|k: int| 0 <= k < s.len() ==> self.by_degree(s).contains(#[trigger] s[k]),
    {
        broadcast use vstd::seq_lib::group_to_multiset_ensures;

        let ids = Seq::new(s.len(), |i: int| i);
        self.lemma_degree_order_total(s);
        ids.lemma_sort_by_ensures(self.degree_order(s));
        let srt = ids.sort_by(self.degree_order(s));
        assert(srt.len() == ids.len()) by {
            assert(srt.to_multiset().len() == ids.to_multiset().len());
        }
        assert forall|k: int| 0 <= k < s.len() implies self.by_degree(s).contains(#[trigger] s[k]) by {
            assert(ids[k] == k);
            assert(ids.to_multiset().count(k) > 0);
            assert(srt.to_multiset().count(k) > 0);
            assert(srt.contains(k));
            let t = choose|t: int| 0 <= t < srt.len() && srt[t] == k;
            assert(self.by_degree(s)[t] == s[k]);
        }
    }

    /// Every vertex beyond the rows is the column of some nonzero.
    pub open spec fn extra_columns_used(&self) -> bool {
        forall|x: usize| self.m <= x < self.size() ==> #[trigger] self.col_index@.contains(x)
    }

    pub proof fn lemma_cq_run(&self, st: CqState)
        requires
            self.cq_inv(st),
        ensures
            self.cq_inv(self.cq_run(st)),
            self.cq_done(self.cq_run(st)),
        decreases st.2, self.m - st.3, st.0.len(),
    {
        if !self.cq_done(st) {
            self.lemma_cq_step(st);
            self.lemma_cq_run(self.cq_step(st));
        }
    }

    pub proof fn lemma_cq_start(&self, start_v: usize)
        requires
            self.cq_ready(),
            start_v < self.m,
        ensures
            self.cq_inv(self.cq_start(start_v)),
    {
        lemma_count_numbered_none(self.size());
    }

    /// `cmr_reorder` numbers the vertices `0 .. max(m, n)`, each once, when
    /// every vertex beyond the rows is a column of some nonzero.
    pub proof fn lemma_cmr_numbering_is_permutation(&self, start_v: usize)
        requires
            self.cq_ready(),
            self.extra_columns_used(),
            start_v < self.m,
        ensures
            self.spec_cmr_numbering(start_v).len() == self.size(),
            forall|x: int| 0 <= x < self.size() ==> #[trigger] self.spec_cmr_numbering(start_v)[x] < self.size(),
            forall|x: int, y: int|
                0 <= x < y < self.size() ==> #[trigger] self.spec_cmr_numbering(start_v)[x] != #[trigger] self.spec_cmr_numbering(start_v)[y],
    {
        self.lemma_cq_start(start_v);
        self.lemma_cq_run(self.cq_start(start_v));
        let st = self.cq_run(self.cq_start(start_v));
        let lv = st.1;
        assert forall|x: int| 0 <= x < self.size() implies #[trigger] lv[x] != usize::MAX by {
            if x < self.m {
                assert(lv[x] != usize::MAX || st.0.contains(x as usize));
            } else {
                assert(self.col_index@.contains(x as usize));
                let k = choose|k: int| 0 <= k < self.col_index@.len() && self.col_index@[k] == x as usize;
                lemma_row_of(self, k, self.m as int);
                let r = choose|r: int| 0 <= r < self.m && self.row_index@[r] <= k < #[trigger] self.row_index@[r + 1];
                assert(lv[r] != usize::MAX || st.0.contains(r as usize));
                let t = k - self.row_index@[r];
                assert(self.row(r)[t] == x);
            }
        }
        lemma_count_numbered_bound(lv);
        if count_numbered(lv) < lv.len() {
            lemma_count_all_numbered(lv);
        }
    }

    /// Takes vertices off the queue until it is empty.  A vertex without a
    /// number queues its unnumbered neighbour rows and numbers its unnumbered
    /// neighbour columns beyond the rows, in order of degree, and then takes
    /// the next number itself; numbers are handed out downwards from `n`.
    fn cycle_through_queue_bfs(
        &self,
        to_visit: &mut std::collections::VecDeque<usize>,
        lines_visited: &mut Vec<usize>,
        n: &mut usize,
        Ghost(c): Ghost<nat>,
    )
        requires
            self.cq_inv((old(to_visit)@, old(lines_visited)@, *old(n) as nat, c)),
        ensures
            final(to_visit)@.len() == 0,
            self.cq_inv((final(to_visit)@, final(lines_visited)@, *final(n) as nat, c)),
            self.cq_run((final(to_visit)@, final(lines_visited)@, *final(n) as nat, c))
                == self.cq_run((old(to_visit)@, old(lines_visited)@, *old(n) as nat, c)),
    {
        let ghost start = (to_visit@, lines_visited@, *n as nat, c);
        while to_visit.len() > 0
            invariant
                self.cq_inv((to_visit@, lines_visited@, *n as nat, c)),
                self.cq_run((to_visit@, lines_visited@, *n as nat, c)) == self.cq_run(start),
            decreases *n, to_visit@.len(),
        {
            let ghost st = (to_visit@, lines_visited@, *n as nat, c);
            proof {
                self.lemma_cq_step(st);
            }
            let i = match to_visit.pop_front() {
                Some(x) => x,
                None => 0,
            };
            if lines_visited[i] == usize::MAX {
                proof {
                    self.lemma_row_degrees_defined(i);
                }
                let row2 = self.sort_by_degree(self.get_columns_of_row(i));
                proof {
                    self.lemma_sorted_neighbours_below(i);
                }
                let ghost q1 = to_visit@;
                let ghost lv0 = lines_visited@;
                let ghost n0 = *n as nat;
                let mut t: usize = 0;
                while t < row2.len()
                    invariant
                        self.cq_ready(),
                        row2@ == self.sorted_neighbours(i),
                        forall|k: int| 0 <= k < row2@.len() ==> #[trigger] row2@[k] < self.size(),
                        i < self.m,
                        numbering_inv(self.size(), lv0, n0),
                        lv0[i as int] == usize::MAX,
                        forall|k: int| 0 <= k < q1.len() ==> #[trigger] q1[k] < self.m,
                        t <= row2@.len(),
                        (to_visit@, lines_visited@, *n as nat) == cq_push(self.m as nat, q1, lv0, n0, row2@.take(t as int)),
                    decreases row2@.len() - t,
                {
                    let j = row2[t];
                    proof {
                        assert(row2@.take(t + 1).drop_last() =~= row2@.take(t as int));
                        lemma_cq_push(self.m as nat, self.size(), q1, lv0, n0, row2@.take(t as int), i);
                        lemma_count_numbered_bound(lines_visited@);
                    }
                    if j < self.m && lines_visited[j] == usize::MAX {
                        to_visit.push_back(j);
                    } else if lines_visited[j] == usize::MAX {
                        *n -= 1;
                        lines_visited.set(j, *n);
                    }
                    t += 1;
                }
                proof {
                    assert(row2@.take(row2@.len() as int) =~= row2@);
                    lemma_cq_push(self.m as nat, self.size(), q1, lv0, n0, row2@, i);
                    lemma_count_numbered_bound(lines_visited@);
                }
                *n -= 1;
                lines_visited.set(i, *n);
            }
            proof {
                assert((to_visit@, lines_visited@, *n as nat, c) == self.cq_step(st));
            }
        }
    }

    /// New number of each vertex from the reverse Cuthill–McKee search that
    /// `cmr_reorder` makes: from `start_v`, then from each row still without
    /// a number; `usize::MAX` stays on a vertex that no search reaches.
    pub fn cmr_numbering(&self, start_v: usize) -> (lines_visited: Vec<usize>)
        requires
            self.cq_ready(),
            start_v < self.m,
        ensures
            lines_visited@ == self.spec_cmr_numbering(start_v),
    {
        let size: usize = if self.m >= self.n { self.m } else { self.n };
        let mut lines_visited: Vec<usize> = vec![usize::MAX; size];
        let mut to_visit: std::collections::VecDeque<usize> = std::collections::VecDeque::new();
        to_visit.push_back(start_v);
        let mut n: usize = size;
        proof {
            assert(lines_visited@ =~= Seq::new(self.size(), |i: int| usize::MAX));
            assert(to_visit@ =~= seq![start_v]);
            self.lemma_cq_start(start_v);
        }
        self.cycle_through_queue_bfs(&mut to_visit, &mut lines_visited, &mut n, Ghost(0));
        let mut i: usize = 0;
        while i < self.m
            invariant
                to_visit@.len() == 0,
                i <= self.m,
                self.cq_inv((to_visit@, lines_visited@, n as nat, i as nat)),
                self.cq_run((to_visit@, lines_visited@, n as nat, i as nat)) == self.cq_run(self.cq_start(start_v)),
            decreases self.m - i,
        {
            let ghost st = (to_visit@, lines_visited@, n as nat, i as nat);
            proof {
                self.lemma_cq_step(st);
            }
            if lines_visited[i] == usize::MAX {
                to_visit.push_back(i);
                proof {
                    assert(to_visit@ =~= seq![i]);
                    assert((to_visit@, lines_visited@, n as nat, (i + 1) as nat) == self.cq_step(st));
                }
                self.cycle_through_queue_bfs(&mut to_visit, &mut lines_visited, &mut n, Ghost((i + 1) as nat));
            }
            i += 1;
        }
        lines_visited
    }

    /// Reverse Cuthill–McKee by reordering: numbers the vertices with
    /// `cmr_numbering(start_v)`, reorders the matrix by that numbering and
    /// returns it.
    pub fn cmr_reorder(&mut self, start_v: usize) -> (lines_visited: Vec<usize>)
        requires
            old(self).cq_ready(),
            old(self).extra_columns_used(),
            start_v < old(self).m,
        ensures
            lines_visited@ == old(self).spec_cmr_numbering(start_v),
            lines_visited@.len() == old(self).size(),
            forall|x: int| 0 <= x < old(self).size() ==> #[trigger] lines_visited@[x] < old(self).size(),
            forall|x: int, y: int|
                0 <= x < y < old(self).size() ==> #[trigger] lines_visited@[x] != #[trigger] lines_visited@[y],
            final(self).wf(),
            final(self).m == old(self).size(),
            final(self).n == old(self).n,
            final(self).labels == old(self).labels,
            final(self).bw == old(self).bw,
            final(self).max_degree == old(self).max_degree,
            final(self).min_bw == old(self).min_bw,
            final(self).nz_len == old(self).nz_len,
            forall|r: int|
                0 <= r < final(self).m ==> #[trigger] final(self).row(r) == old(self).reordered_row(
                    lines_visited@,
                    r,
                ),
    {
        let lines_visited = self.cmr_numbering(start_v);
        proof {
            self.lemma_cmr_numbering_is_permutation(start_v);
            assert forall|r: int, k: int|
                0 <= r < self.size() && self.source_row(lines_visited@, r) < self.m && 0 <= k < self.row(
                    self.source_row(lines_visited@, r) as int,
                ).len() implies #[trigger] self.row(self.source_row(lines_visited@, r) as int)[k]
                    < lines_visited@.len() by {
                self.lemma_row_below(self.source_row(lines_visited@, r) as int, k);
            }
        }
        self.reorder(lines_visited.as_slice());
        lines_visited
    }
}

} // verus!
