//! Candidate vertices to swap with a critical vertex.
use vstd::prelude::*;
use crate::csr::{abs_diff, label_dist, Matrix};

verus! {

impl Matrix {
    /// Middle of the values of `neighbour`: the floor of the mean of the
    /// smallest and the largest, 0 when there are none.
    pub open spec fn spec_mid(neighbour: Seq<usize>) -> nat {
        if neighbour.len() == 0 {
            0
        } else {
            ((seq_min(neighbour) + seq_max(neighbour)) / 2) as nat
        }
    }

    /// `mid(v) = floor((min + max) / 2)` over the values of `neighbour`.
    pub fn mid(&self, neighbour: &[usize]) -> (mid: usize)
        requires
            neighbour@.len() > 0 ==> seq_min(neighbour@) + seq_max(neighbour@) <= usize::MAX,
        ensures
            mid == Self::spec_mid(neighbour@),
            neighbour@.len() > 0 ==> exists|lo: int, hi: int|
                #![trigger neighbour@[lo], neighbour@[hi]]
                0 <= lo < neighbour@.len() && 0 <= hi < neighbour@.len() && (forall|k: int|
                    0 <= k < neighbour@.len() ==> neighbour@[lo] <= #[trigger] neighbour@[k] <= neighbour@[hi]) && mid == (
                neighbour@[lo] + neighbour@[hi]) / 2,
    {
        if neighbour.len() == 0 {
            return 0;
        }
        let mut lo: usize = neighbour[0];
        let mut hi: usize = neighbour[0];
        let mut k: usize = 1;
        proof {
            assert(neighbour@.take(1).drop_last() =~= Seq::<usize>::empty());
        }
        while k < neighbour.len()
            invariant
                1 <= k <= neighbour@.len(),
                lo == seq_min(neighbour@.take(k as int)),
                hi == seq_max(neighbour@.take(k as int)),
            decreases neighbour@.len() - k,
        {
            proof {
                assert(neighbour@.take(k + 1).drop_last() =~= neighbour@.take(k as int));
            }
            if neighbour[k] < lo {
                lo = neighbour[k];
            }
            if neighbour[k] > hi {
                hi = neighbour[k];
            }
            k += 1;
        }
        proof {
            assert(neighbour@.take(k as int) =~= neighbour@);
            Self::lemma_mid_of_extremes(neighbour@);
        }
        (lo + hi) / 2
    }
}

/// The elements of `s` other than `v`, in order.
pub open spec fn all_but(s: Seq<usize>, v: usize) -> Seq<usize>
    decreases s.len(),
{
    if s.len() == 0 {
        s
    } else if s.last() == v {
        all_but(s.drop_last(), v)
    } else {
        all_but(s.drop_last(), v).push(s.last())
    }
}

/// The elements `u` of `s` with `|mid - u| <= |mid - v|`, in order.
pub open spec fn closer_to_mid(s: Seq<usize>, mid: usize, v: usize) -> Seq<usize>
    decreases s.len(),
{
    if s.len() == 0 {
        s
    } else if label_dist(mid, s.last()) <= label_dist(mid, v) {
        closer_to_mid(s.drop_last(), mid, v).push(s.last())
    } else {
        closer_to_mid(s.drop_last(), mid, v)
    }
}

impl Matrix {
    /// Labels of the neighbours of the first vertex labelled `v`, but `v`.
    pub open spec fn neighbour_labels_but(&self, v: usize) -> Seq<usize> {
        all_but(self.row(self.label_owner(v)).map_values(|c: usize| self.labels@[c as int]), v)
    }

    /// Candidates to swap with the critical label `v`: the labels of the
    /// neighbours of the vertex labelled `v` other than `v`, then their
    /// middle `mid`, then the label of vertex `mid`.
    pub fn neighbour_of_criticals2(&self, v: usize) -> (r: Vec<usize>)
        requires
            self.wf(),
            self.labels@.contains(v),
            0 <= self.label_owner(v) < self.m,
            self.neighbour_labels_but(v).len() > 0 ==> seq_min(self.neighbour_labels_but(v)) + seq_max(
                self.neighbour_labels_but(v),
            ) <= usize::MAX,
            Self::spec_mid(self.neighbour_labels_but(v)) < self.labels@.len(),
        ensures
            r@ == self.neighbour_labels_but(v).push(Self::spec_mid(self.neighbour_labels_but(v)) as usize).push(
                self.labels@[Self::spec_mid(self.neighbour_labels_but(v)) as int],
            ),
    {
        let x = self.old_label(v);
        proof {
            self.lemma_label_owner(v, x as int);
        }
        let neighbour = self.get_columns_of_row(x);
        let ghost lab = neighbour@.map_values(|c: usize| self.labels@[c as int]);
        let mut list: Vec<usize> = Vec::new();
        let mut t: usize = 0;
        while t < neighbour.len()
            invariant
                self.wf(),
                x < self.m,
                neighbour@ == self.row(x as int),
                lab == neighbour@.map_values(|c: usize| self.labels@[c as int]),
                t <= neighbour@.len(),
                list@ == all_but(lab.take(t as int), v),
            decreases neighbour@.len() - t,
        {
            proof {
                assert(self.row_index@[x as int] <= self.row_index@[x + 1]);
                assert(self.row_index@[x + 1] <= self.row_index@[self.m as int]);
                assert(neighbour@[t as int] == self.col_index@[self.row_index@[x as int] + t]);
                assert(lab.take(t + 1).drop_last() =~= lab.take(t as int));
            }
            let u = self.labels[neighbour[t]];
            if v != u {
                list.push(u);
            }
            t += 1;
        }
        proof {
            assert(lab.take(lab.len() as int) =~= lab);
        }
        let mid = self.mid(list.as_slice());
        list.push(mid);
        list.push(self.labels[mid]);
        list
    }

    /// Candidates to swap with label `v`: the labels `u` of the neighbours
    /// of the vertex labelled `v` with `|mid - u| <= |mid - v|`, `mid`
    /// being the middle of the neighbours' column numbers, then those column
    /// numbers themselves.
    pub fn neighbour_of_criticals(&self, v: usize) -> (r: Vec<usize>)
        requires
            self.wf(),
            v < self.m ==> self.labels@[v as int] < self.m,
            self.labels@.contains(v),
            0 <= self.label_owner(v) < self.m,
            self.row(self.label_owner(v)).len() > 0 ==> seq_min(self.row(self.label_owner(v))) + seq_max(
                self.row(self.label_owner(v)),
            ) <= usize::MAX,
        ensures
            r@ == closer_to_mid(
                self.row(self.label_owner(v)).map_values(|c: usize| self.labels@[c as int]),
                Self::spec_mid(self.row(self.label_owner(v))) as usize,
                v,
            ) + self.row(self.label_owner(v)),
    {
        let mut neighbour_of_criticals: Vec<usize> = Vec::with_capacity(self.degree(v));
        let x = self.old_label(v);
        proof {
            self.lemma_label_owner(v, x as int);
        }
        let neighbour = self.get_columns_of_row(x);
        let mid = self.mid(neighbour);
        let ghost lab = neighbour@.map_values(|c: usize| self.labels@[c as int]);
        let mut t: usize = 0;
        while t < neighbour.len()
            invariant
                self.wf(),
                x < self.m,
                neighbour@ == self.row(x as int),
                lab == neighbour@.map_values(|c: usize| self.labels@[c as int]),
                t <= neighbour@.len(),
                neighbour_of_criticals@ == closer_to_mid(lab.take(t as int), mid, v),
            decreases neighbour@.len() - t,
        {
            proof {
                assert(self.row_index@[x as int] <= self.row_index@[x + 1]);
                assert(self.row_index@[x + 1] <= self.row_index@[self.m as int]);
                assert(neighbour@[t as int] == self.col_index@[self.row_index@[x as int] + t]);
                assert(lab.take(t + 1).drop_last() =~= lab.take(t as int));
            }
            let u = self.labels[neighbour[t]];
            if abs_diff(mid, u) <= abs_diff(mid, v) {
                neighbour_of_criticals.push(u);
            }
            t += 1;
        }
        proof {
            assert(lab.take(lab.len() as int) =~= lab);
        }
        let mut k: usize = 0;
        let ghost base = neighbour_of_criticals@;
        while k < neighbour.len()
            invariant
                k <= neighbour@.len(),
                neighbour_of_criticals@ == base + neighbour@.take(k as int),
            decreases neighbour@.len() - k,
        {
            neighbour_of_criticals.push(neighbour[k]);
            proof {
                assert(base + neighbour@.take(k + 1) =~= (base + neighbour@.take(k as int)).push(neighbour@[k as int]));
            }
            k += 1;
        }
        proof {
            assert(neighbour@.take(neighbour@.len() as int) =~= neighbour@);
        }
        neighbour_of_criticals
    }
}

/// Smallest element of a nonempty sequence.
pub open spec fn seq_min(s: Seq<usize>) -> int
    decreases s.len(),
{
    if s.len() <= 1 {
        if s.len() == 1 { s[0] as int } else { 0 }
    } else {
        let r = seq_min(s.drop_last());
        if s.last() < r { s.last() as int } else { r }
    }
}

/// Largest element of a nonempty sequence.
pub open spec fn seq_max(s: Seq<usize>) -> int
    decreases s.len(),
{
    if s.len() <= 1 {
        if s.len() == 1 { s[0] as int } else { 0 }
    } else {
        let r = seq_max(s.drop_last());
        if s.last() > r { s.last() as int } else { r }
    }
}


/// The smallest element of a nonempty sequence is one of its elements and
/// at most each of them; the largest likewise.
proof fn lemma_seq_min_max(s: Seq<usize>) -> (ix: (int, int))
    requires
        s.len() > 0,
    ensures
        0 <= ix.0 < s.len(),
        0 <= ix.1 < s.len(),
        seq_min(s) == s[ix.0],
        seq_max(s) == s[ix.1],
        forall|k: int| 0 <= k < s.len() ==> s[ix.0] <= #[trigger] s[k] <= s[ix.1],
    decreases s.len(),
{
    if s.len() == 1 {
        (0, 0)
    } else {
        let t = s.drop_last();
        let (a, b) = lemma_seq_min_max(t);
        let lo = if s.last() < seq_min(t) { s.len() - 1 } else { a };
        let hi = if s.last() > seq_max(t) { s.len() - 1 } else { b };
        assert forall|k: int| 0 <= k < s.len() implies s[lo] <= #[trigger] s[k] <= s[hi] by {
            if k < s.len() - 1 {
                assert(t[k] == s[k]);
            }
        }
        (lo, hi)
    }
}

impl Matrix {
    /// The middle of a list is the floor of the mean of its smallest and its
    /// largest value, whatever their places: there are positions `lo` and
    /// `hi` of `s` with `s[lo] <= s[k] <= s[hi]` for every `k` and
    /// `mid == (s[lo] + s[hi]) / 2`; of an empty list it is 0.  So it does
    /// not depend on the order of the list.
    pub proof fn lemma_mid_of_extremes(s: Seq<usize>)
        ensures
            s.len() == 0 ==> Self::spec_mid(s) == 0,
            s.len() > 0 ==> exists|lo: int, hi: int|
                #![trigger s[lo], s[hi]]
                0 <= lo < s.len() && 0 <= hi < s.len() && (forall|k: int| 0 <= k < s.len() ==> s[lo] <= #[trigger] s[k] <= s[hi])
                    && Self::spec_mid(s) == (s[lo] + s[hi]) / 2,
    {
        if s.len() > 0 {
            let (lo, hi) = lemma_seq_min_max(s);
            assert(Self::spec_mid(s) == (s[lo] + s[hi]) / 2);
        }
    }
}

} // verus!
