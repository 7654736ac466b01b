//! Building the compressed sparse row matrix from coordinates.
use vstd::prelude::*;
use crate::csr::{identity_labels, max_nat, Matrix};
use crate::seqs::nondecreasing;

verus! {

/// A nonzero of a matrix in coordinate form: row `i`, column `j`
/// (numbered from 0).
#[derive(Clone, Copy, Debug, PartialEq, Eq)]
pub struct Element {
    pub i: usize,
    pub j: usize,
}

/// Largest row length among the first `k` rows of a row-start sequence.
pub open spec fn max_row_len(row_index: Seq<usize>, k: int) -> nat
    decreases k,
{
    if k <= 0 {
        0
    } else {
        max_nat(max_row_len(row_index, k - 1), (row_index[k] - row_index[k - 1]) as nat)
    }
}


/// Positions in `coordinates` of the entries of row `r`, ordered by column
/// (entries with the same column by position).
fn row_entries(coordinates: &[Element], r: usize) -> (ks: Vec<usize>)
    ensures
        ks@.no_duplicates(),
        forall|t: int| 0 <= t < ks@.len() ==> #[trigger] ks@[t] < coordinates@.len(),
        forall|t: int| 0 <= t < ks@.len() ==> coordinates@[#[trigger] ks@[t] as int].i == r,
        forall|kk: usize| kk < coordinates@.len() && coordinates@[kk as int].i == r ==> #[trigger] ks@.contains(kk),
        forall|a: int, b: int| 0 <= a <= b < ks@.len() ==> coordinates@[#[trigger] ks@[a] as int].j <= coordinates@[#[trigger] ks@[b] as int].j,
{
    let mut ks: Vec<usize> = Vec::new();
    let mut k: usize = 0;
    while k < coordinates.len()
        invariant
            k <= coordinates@.len(),
            ks@.no_duplicates(),
            forall|t: int| 0 <= t < ks@.len() ==> #[trigger] ks@[t] < k,
            forall|t: int| 0 <= t < ks@.len() ==> coordinates@[#[trigger] ks@[t] as int].i == r,
            forall|kk: usize| kk < k && coordinates@[kk as int].i == r ==> #[trigger] ks@.contains(kk),
            forall|a: int, b: int| 0 <= a <= b < ks@.len() ==> coordinates@[#[trigger] ks@[a] as int].j <= coordinates@[#[trigger] ks@[b] as int].j,
        decreases coordinates@.len() - k,
    {
        if coordinates[k].i == r {
            let cj = coordinates[k].j;
            let mut pos: usize = ks.len();
            while pos > 0 && coordinates[ks[pos - 1]].j > cj
                invariant
                    pos <= ks@.len(),
                    forall|t: int| 0 <= t < ks@.len() ==> #[trigger] ks@[t] < k,
                    k < coordinates@.len(),
                    cj == coordinates@[k as int].j,
                    forall|t: int| pos <= t < ks@.len() ==> coordinates@[ks@[t] as int].j > cj,
                decreases pos,
            {
                pos -= 1;
            }
            let ghost old_ks = ks@;
            ks.insert(pos, k);
            proof {
                assert forall|a: int, b: int| 0 <= a <= b < ks@.len() implies coordinates@[#[trigger] ks@[a] as int].j <= coordinates@[#[trigger] ks@[b] as int].j by {
                    if b < pos {
                    } else if b == pos {
                        if a < pos {
                            assert(coordinates@[old_ks[a] as int].j <= coordinates@[old_ks[pos - 1] as int].j);
                        }
                    } else if a < pos {
                        assert(coordinates@[old_ks[a] as int].j <= coordinates@[old_ks[b - 1] as int].j);
                    } else if a == pos {
                        assert(coordinates@[old_ks[b - 1] as int].j > cj);
                    } else {
                        assert(coordinates@[old_ks[a - 1] as int].j <= coordinates@[old_ks[b - 1] as int].j);
                    }
                }
                assert forall|t: int| 0 <= t < ks@.len() implies #[trigger] ks@[t] < k + 1 by {
                    if t < pos {
                        assert(old_ks[t] < k);
                    } else if t > pos {
                        assert(old_ks[t - 1] < k);
                    }
                }
                assert forall|t: int| 0 <= t < ks@.len() implies coordinates@[#[trigger] ks@[t] as int].i == r by {
                    if t < pos {
                        assert(ks@[t] == old_ks[t]);
                    } else if t > pos {
                        assert(ks@[t] == old_ks[t - 1]);
                    }
                }
                assert forall|a: int, b: int| 0 <= a < ks@.len() && 0 <= b < ks@.len() && a != b implies ks@[a] != ks@[b] by {
                    if a != pos && b != pos {
                        let oa = if a < pos { a } else { a - 1 };
                        let ob = if b < pos { b } else { b - 1 };
                        assert(ks@[a] == old_ks[oa]);
                        assert(ks@[b] == old_ks[ob]);
                    } else if a == pos {
                        let ob = if b < pos { b } else { b - 1 };
                        assert(old_ks[ob] < k);
                    } else {
                        let oa = if a < pos { a } else { a - 1 };
                        assert(old_ks[oa] < k);
                    }
                }
                assert forall|kk: usize| kk < k + 1 && coordinates@[kk as int].i == r implies #[trigger] ks@.contains(kk) by {
                    if kk == k {
                        assert(ks@[pos as int] == k);
                    } else {
                        assert(old_ks.contains(kk));
                        let t = choose|t: int| 0 <= t < old_ks.len() && old_ks[t] == kk;
                        if t < pos {
                            assert(ks@[t] == kk);
                        } else {
                            assert(ks@[t + 1] == kk);
                        }
                    }
                }
            }
        }
        k += 1;
    }
    ks
}

/// Builds the compressed sparse row matrix of `m` rows and `n` columns with
/// the nonzeros `coordinates`: row after row, each row's columns in
/// increasing order, identity labels, `max_degree` the longest row and
/// `min_bw` half of it.  Also returns, for each nonzero of the result, the
/// position in `coordinates` of the entry it comes from; entries at the same
/// place keep no particular order.
pub fn csr_from_coordinates(coordinates: &[Element], m: usize, n: usize) -> (res: (Matrix, Vec<usize>))
    requires
        m < usize::MAX,
        forall|k: int| 0 <= k < coordinates@.len() ==> #[trigger] coordinates@[k].i < m,
    ensures
        res.0.m == m,
        res.0.n == n,
        res.0.nz_len == coordinates@.len(),
        res.0.bw == 0,
        res.0.labels@ == identity_labels(res.0.size()),
        res.0.row_index@.len() == m + 1,
        res.0.row_index@[0] == 0,
        forall|a: int, b: int| 0 <= a <= b <= m ==> #[trigger] res.0.row_index@[a] <= #[trigger] res.0.row_index@[b],
        res.0.row_index@[m as int] == res.0.col_index@.len(),
        res.0.col_index@.len() == coordinates@.len(),
        res.0.max_degree == max_row_len(res.0.row_index@, m as int),
        res.0.min_bw == res.0.max_degree / 2,
        (forall|k: int| 0 <= k < coordinates@.len() ==> #[trigger] coordinates@[k].j < res.0.size()) ==> res.0.wf(),
        res.1@.len() == coordinates@.len(),
        res.1@.no_duplicates(),
        forall|p: int| 0 <= p < res.1@.len() ==> #[trigger] res.1@[p] < coordinates@.len(),
        forall|k: usize| k < coordinates@.len() ==> #[trigger] res.1@.contains(k),
        forall|r: int, p: int|
            #![trigger res.0.row_index@[r], res.1@[p]]
            0 <= r < m && res.0.row_index@[r] <= p < res.0.row_index@[r + 1] ==> coordinates@[res.1@[p] as int].i == r,
        forall|p: int| 0 <= p < res.0.col_index@.len() ==> #[trigger] res.0.col_index@[p] == coordinates@[res.1@[p] as int].j,
        forall|r: int| 0 <= r < m ==> nondecreasing(#[trigger] res.0.row(r)),
{
    let mut matrix = Matrix::new(m, n, coordinates.len());
    let mut labels: Vec<usize> = Vec::with_capacity(if m >= n { m } else { n });
    let mut order: Vec<usize> = Vec::with_capacity(coordinates.len());
    matrix.row_index.push(0);
    let mut r: usize = 0;
    while r < m
        invariant
            m < usize::MAX,
            forall|k: int| 0 <= k < coordinates@.len() ==> #[trigger] coordinates@[k].i < m,
            matrix.m == m,
            matrix.n == n,
            matrix.nz_len == coordinates@.len(),
            matrix.bw == 0,
            matrix.min_bw == 0,
            r <= m,
            labels@ == identity_labels(r as nat),
            matrix.row_index@.len() == r + 1,
            matrix.row_index@[0] == 0,
            forall|a: int, b: int| 0 <= a <= b <= r ==> #[trigger] matrix.row_index@[a] <= #[trigger] matrix.row_index@[b],
            matrix.row_index@[r as int] == matrix.col_index@.len(),
            order@.len() == matrix.col_index@.len(),
            order@.no_duplicates(),
            forall|p: int| 0 <= p < order@.len() ==> #[trigger] order@[p] < coordinates@.len(),
            forall|p: int| 0 <= p < order@.len() ==> coordinates@[#[trigger] order@[p] as int].i < r,
            forall|k: usize| k < coordinates@.len() && coordinates@[k as int].i < r ==> #[trigger] order@.contains(k),
            forall|q: int, p: int|
                #![trigger matrix.row_index@[q], order@[p]]
                0 <= q < r && matrix.row_index@[q] <= p < matrix.row_index@[q + 1] ==> coordinates@[order@[p] as int].i == q,
            forall|p: int| 0 <= p < matrix.col_index@.len() ==> #[trigger] matrix.col_index@[p] == coordinates@[order@[p] as int].j,
            forall|q: int| 0 <= q < r ==> nondecreasing(#[trigger] matrix.row(q)),
            matrix.max_degree == max_row_len(matrix.row_index@, r as int),
        decreases m - r,
    {
        let ks = row_entries(coordinates, r);
        let ghost old_matrix = matrix;
        let ghost old_order = order@;
        let ghost old_cols = matrix.col_index@;
        let ghost old_ro = matrix.row_index@;
        let ghost old_md = matrix.max_degree;
        let mut t: usize = 0;
        while t < ks.len()
            invariant
                t <= ks@.len(),
                forall|tt: int| 0 <= tt < ks@.len() ==> #[trigger] ks@[tt] < coordinates@.len(),
                order@ == old_order + ks@.take(t as int),
                matrix.col_index@ == old_cols + ks@.take(t as int).map_values(|x: usize| coordinates@[x as int].j),
                matrix.row_index@ == old_ro,
                matrix.m == m,
                matrix.n == n,
                matrix.nz_len == coordinates@.len(),
                matrix.bw == 0,
                matrix.min_bw == 0,
                matrix.max_degree == old_md,
            decreases ks@.len() - t,
        {
            let kk = ks[t];
            order.push(kk);
            matrix.col_index.push(coordinates[kk].j);
            proof {
                assert(ks@.take(t + 1) =~= ks@.take(t as int).push(kk));
                assert(old_order + ks@.take(t + 1) =~= (old_order + ks@.take(t as int)).push(kk));
                assert(ks@.take(t + 1).map_values(|x: usize| coordinates@[x as int].j)
                    =~= ks@.take(t as int).map_values(|x: usize| coordinates@[x as int].j).push(coordinates@[kk as int].j));
                assert(old_cols + ks@.take(t + 1).map_values(|x: usize| coordinates@[x as int].j)
                    =~= (old_cols + ks@.take(t as int).map_values(|x: usize| coordinates@[x as int].j)).push(coordinates@[kk as int].j));
            }
            t += 1;
        }
        proof {
            assert(ks@.take(ks@.len() as int) =~= ks@);
        }
        let len = matrix.col_index.len();
        matrix.row_index.push(len);
        if ks.len() > matrix.max_degree {
            matrix.max_degree = ks.len();
        }
        labels.push(r);
        proof {
            let ro = matrix.row_index@;
            assert(labels@ =~= identity_labels((r + 1) as nat));
            assert forall|a: int, b: int| 0 <= a <= b <= r + 1 implies #[trigger] ro[a] <= #[trigger] ro[b] by {
                if b <= r {
                    assert(old_ro[a] <= old_ro[b]);
                } else if a <= r {
                    assert(old_ro[a] <= old_ro[r as int]);
                }
            }
            assert(ro[r + 1] - ro[r as int] == ks@.len());
            assert(max_row_len(ro, r as int) == max_row_len(old_ro, r as int)) by {
                lemma_max_row_len_prefix(old_ro, ro, r as int);
            }
            assert forall|p1: int, p2: int| 0 <= p1 < order@.len() && 0 <= p2 < order@.len() && p1 != p2 implies order@[p1] != order@[p2] by {
                if p1 < old_order.len() && p2 >= old_order.len() {
                    assert(coordinates@[order@[p1] as int].i < r);
                    assert(order@[p2] == ks@[p2 - old_order.len()]);
                } else if p2 < old_order.len() && p1 >= old_order.len() {
                    assert(coordinates@[order@[p2] as int].i < r);
                    assert(order@[p1] == ks@[p1 - old_order.len()]);
                } else if p1 >= old_order.len() {
                    assert(order@[p1] == ks@[p1 - old_order.len()]);
                    assert(order@[p2] == ks@[p2 - old_order.len()]);
                }
            }
            assert forall|p: int| 0 <= p < order@.len() implies coordinates@[#[trigger] order@[p] as int].i < r + 1 by {
                if p >= old_order.len() {
                    assert(order@[p] == ks@[p - old_order.len()]);
                }
            }
            assert forall|p: int| 0 <= p < order@.len() implies #[trigger] order@[p] < coordinates@.len() by {
                if p >= old_order.len() {
                    assert(order@[p] == ks@[p - old_order.len()]);
                }
            }
            assert forall|kk: usize| kk < coordinates@.len() && coordinates@[kk as int].i < r + 1 implies #[trigger] order@.contains(kk) by {
                if coordinates@[kk as int].i < r {
                    assert(old_order.contains(kk));
                    let p = choose|p: int| 0 <= p < old_order.len() && old_order[p] == kk;
                    assert(order@[p] == kk);
                } else {
                    assert(ks@.contains(kk));
                    let t = choose|t: int| 0 <= t < ks@.len() && ks@[t] == kk;
                    assert(order@[old_order.len() + t] == kk);
                }
            }
            assert forall|q: int, p: int|
                #![trigger ro[q], order@[p]]
                0 <= q < r + 1 && ro[q] <= p < ro[q + 1] implies coordinates@[order@[p] as int].i == q by {
                if q < r {
                    assert(old_ro[q + 1] <= old_ro[r as int]);
                    assert(order@[p] == old_order[p]);
                } else {
                    assert(order@[p] == ks@[p - old_order.len()]);
                }
            }
            assert forall|p: int| 0 <= p < matrix.col_index@.len() implies #[trigger] matrix.col_index@[p] == coordinates@[order@[p] as int].j by {
                if p >= old_order.len() {
                    assert(order@[p] == ks@[p - old_order.len()]);
                }
            }
            assert forall|q: int| 0 <= q < r + 1 implies nondecreasing(#[trigger] matrix.row(q)) by {
                if q < r {
                    assert(old_ro[q] <= old_ro[q + 1]);
                    assert(old_ro[q + 1] <= old_ro[r as int]);
                    assert(nondecreasing(old_matrix.row(q)));
                    assert(matrix.row(q) =~= old_cols.subrange(old_ro[q] as int, old_ro[q + 1] as int));
                } else {
                    let row = matrix.row(q);
                    assert(row =~= ks@.map_values(|x: usize| coordinates@[x as int].j));
                    assert forall|a: int, b: int| 0 <= a <= b < row.len() implies #[trigger] row[a] <= #[trigger] row[b] by {
                        assert(coordinates@[ks@[a] as int].j <= coordinates@[ks@[b] as int].j);
                    }
                }
            }
        }
        r += 1;
    }
    if n > m {
        let mut t: usize = 0;
        while t < n - m
            invariant
                n > m,
                t <= n - m,
                labels@ == identity_labels((m + t) as nat),
            decreases n - m - t,
        {
            labels.push(m + t);
            proof {
                assert(labels@ =~= identity_labels((m + t + 1) as nat));
            }
            t += 1;
        }
    }
    let ghost before = matrix;
    matrix.labels = labels;
    matrix.min_bw = matrix.max_degree / 2;
    proof {
        assert forall|q: int| 0 <= q < m implies nondecreasing(#[trigger] matrix.row(q)) by {
            assert(nondecreasing(before.row(q)));
        }
        assert forall|k: usize| k < coordinates@.len() implies #[trigger] order@.contains(k) by {
            assert(coordinates@[k as int].i < m);
        }
        crate::seqs::lemma_no_dup_covering_len(order@, coordinates@.len());
    }
    (matrix, order)
}

pub proof fn lemma_max_row_len_prefix(a: Seq<usize>, b: Seq<usize>, k: int)
    requires
        0 <= k < a.len(),
        a.len() <= b.len(),
        forall|i: int| 0 <= i < a.len() ==> #[trigger] a[i] == b[i],
    ensures
        max_row_len(a, k) == max_row_len(b, k),
    decreases k,
{
    if k > 0 {
        lemma_max_row_len_prefix(a, b, k - 1);
    }
}

} // verus!
