//! Ordered sequences of vertex numbers.
use vstd::prelude::*;
use vstd::relations::*;

verus! {

/// Each element is smaller than the next.
pub open spec fn strictly_increasing(s: Seq<usize>) -> bool {
    forall|a: int, b: int| 0 <= a < b < s.len() ==> #[trigger] s[a] < #[trigger] s[b]
}

/// Each element is at most the next.
pub open spec fn nondecreasing(s: Seq<usize>) -> bool {
    forall|a: int, b: int| 0 <= a <= b < s.len() ==> #[trigger] s[a] <= #[trigger] s[b]
}

/// Adds `x` to a strictly increasing vector unless it is already there,
/// keeping the vector strictly increasing.
pub fn insert_sorted_unique(v: &mut Vec<usize>, x: usize)
    requires
        strictly_increasing(old(v)@),
    ensures
        strictly_increasing(final(v)@),
        forall|y: usize| final(v)@.contains(y) <==> (old(v)@.contains(y) || y == x),
{
    let mut pos: usize = 0;
    while pos < v.len() && v[pos] < x
        invariant
            pos <= v@.len(),
            forall|k: int| 0 <= k < pos ==> v@[k] < x,
        decreases v@.len() - pos,
    {
        pos += 1;
    }
    if pos < v.len() && v[pos] == x {
        assert(v@.contains(x));
        return;
    }
    let ghost old_v = v@;
    assert(old_v == old(v)@);
    v.insert(pos, x);
    proof {
        assert forall|a: int, b: int| 0 <= a < b < v@.len() implies #[trigger] v@[a] < #[trigger] v@[b] by {
            if b < pos {
            } else if b == pos {
            } else if a < pos {
                assert(old_v[a] < old_v[b - 1]);
            } else if a == pos {
                assert(x <= old_v[pos as int]);
                assert(old_v[pos as int] <= old_v[b - 1]);
            } else {
                assert(old_v[a - 1] < old_v[b - 1]);
            }
        }
        assert forall|y: usize| v@.contains(y) <==> (old_v.contains(y) || y == x) by {
            if v@.contains(y) {
                let k = choose|k: int| 0 <= k < v@.len() && v@[k] == y;
                if k < pos {
                    assert(old_v[k] == y);
                } else if k > pos {
                    assert(old_v[k - 1] == y);
                }
            }
            if old_v.contains(y) {
                let k = choose|k: int| 0 <= k < old_v.len() && old_v[k] == y;
                if k < pos {
                    assert(v@[k] == y);
                } else {
                    assert(v@[k + 1] == y);
                }
            }
            if y == x {
                assert(v@[pos as int] == y);
            }
        }
        assert(forall|y: usize| v@.contains(y) <==> (old(v)@.contains(y) || y == x));
    }
}

/// The usual order on `usize`.
pub open spec fn usize_leq() -> spec_fn(usize, usize) -> bool {
    |a: usize, b: usize| a <= b
}

/// `s` in nondecreasing order.
pub open spec fn sorted_seq(s: Seq<usize>) -> Seq<usize> {
    s.sort_by(usize_leq())
}

pub proof fn lemma_usize_leq_total()
    ensures
        total_ordering(usize_leq()),
{
}

pub proof fn lemma_insert_to_multiset<A>(s: Seq<A>, pos: int, x: A)
    requires
        0 <= pos <= s.len(),
    ensures
        s.insert(pos, x).to_multiset() =~= s.to_multiset().insert(x),
{
    broadcast use vstd::seq_lib::group_to_multiset_ensures;
    broadcast use vstd::multiset::group_multiset_axioms;

    let a = s.subrange(0, pos);
    let b = s.subrange(pos, s.len() as int);
    assert(s =~= a + b);
    vstd::seq_lib::lemma_multiset_commutative(a, b);
    vstd::seq_lib::lemma_multiset_commutative(a.push(x), b);
}

/// A nondecreasing sequence with the same elements as `s` is `s` sorted.
pub proof fn lemma_is_sorted_seq(r: Seq<usize>, s: Seq<usize>)
    requires
        nondecreasing(r),
        r.to_multiset() == s.to_multiset(),
    ensures
        r == sorted_seq(s),
{
    lemma_usize_leq_total();
    s.lemma_sort_by_ensures(usize_leq());
    assert(sorted_by(r, usize_leq())) by {
        assert forall|i: int, j: int| 0 <= i < j < r.len() implies #[trigger] (usize_leq())(r[i], r[j]) by {
            assert(r[i] <= r[j]);
        }
    }
    vstd::seq_lib::lemma_sorted_unique(r, sorted_seq(s), usize_leq());
}

/// Returns the elements of `v` in nondecreasing order.
pub fn sort_vec(v: &[usize]) -> (r: Vec<usize>)
    ensures
        r@ == sorted_seq(v@),
        nondecreasing(r@),
        r@.to_multiset() == v@.to_multiset(),
{
    broadcast use vstd::seq_lib::group_to_multiset_ensures;

    let mut r: Vec<usize> = Vec::with_capacity(v.len());
    let mut i: usize = 0;
    while i < v.len()
        invariant
            i <= v@.len(),
            nondecreasing(r@),
            r@.to_multiset() == v@.take(i as int).to_multiset(),
        decreases v@.len() - i,
    {
        let x = v[i];
        let mut pos: usize = r.len();
        while pos > 0 && r[pos - 1] > x
            invariant
                pos <= r@.len(),
                forall|k: int| pos <= k < r@.len() ==> r@[k] > x,
            decreases pos,
        {
            pos -= 1;
        }
        let ghost old_r = r@;
        r.insert(pos, x);
        proof {
            lemma_insert_to_multiset(old_r, pos as int, x);
            assert(v@.take(i + 1) =~= v@.take(i as int).push(x));
            v@.take(i as int).to_multiset_ensures();
            assert(v@.take(i as int).push(x).to_multiset() =~= v@.take(i as int).to_multiset().insert(x));
            assert(r@.to_multiset() =~= old_r.to_multiset().insert(x));
            assert forall|a: int, b: int| 0 <= a <= b < r@.len() implies #[trigger] r@[a] <= #[trigger] r@[b] by {
                if b < pos {
                } else if b == pos {
                    if a < pos {
                        assert(old_r[a] <= old_r[pos - 1]);
                    }
                } else if a < pos {
                    assert(old_r[a] <= old_r[b - 1]);
                } else if a == pos {
                } else {
                    assert(old_r[a - 1] <= old_r[b - 1]);
                }
            }
        }
        i += 1;
    }
    proof {
        assert(v@.take(v@.len() as int) =~= v@);
        lemma_is_sorted_seq(r@, v@);
    }
    r
}

/// A sequence without repetitions of numbers below `n` that holds each of
/// them has length `n`.
pub proof fn lemma_no_dup_covering_len(s: Seq<usize>, n: nat)
    requires
        n <= usize::MAX + 1,
        s.no_duplicates(),
        forall|i: int| 0 <= i < s.len() ==> #[trigger] s[i] < n,
        forall|k: usize| k < n ==> #[trigger] s.contains(k),
    ensures
        s.len() == n,
{
    let t = s.map_values(|x: usize| x as int);
    assert(t.no_duplicates()) by {
        assert forall|a: int, b: int| 0 <= a < t.len() && 0 <= b < t.len() && a != b implies t[a] != t[b] by {
            assert(s[a] != s[b]);
        }
    }
    t.unique_seq_to_set();
    vstd::set_lib::lemma_int_range(0, n as int);
    assert(t.to_set() =~= vstd::set_lib::set_int_range(0, n as int)) by {
        assert forall|x: int| t.to_set().contains(x) <==> vstd::set_lib::set_int_range(0, n as int).contains(x) by {
            if t.to_set().contains(x) {
                assert(t.contains(x));
                let i = choose|i: int| 0 <= i < t.len() && t[i] == x;
                assert(s[i] < n);
            }
            if 0 <= x < n {
                assert(s.contains(x as usize));
                let i = choose|i: int| 0 <= i < s.len() && s[i] == x as usize;
                assert(t[i] == x);
                assert(t.contains(x));
            }
        }
    }
}

/// `p` numbers the vertices `0 .. size`, each with its own number below
/// `size`.
pub open spec fn is_permutation(p: Seq<usize>, size: nat) -> bool {
    &&& p.len() == size
    &&& forall|x: int| 0 <= x < size ==> #[trigger] p[x] < size
    &&& forall|x: int, y: int| 0 <= x < y < size ==> #[trigger] p[x] != #[trigger] p[y]
}

/// A permutation of `0 .. n` takes every value below `n`.
pub proof fn lemma_permutation_covers(s: Seq<usize>, n: nat)
    requires
        is_permutation(s, n),
    ensures
        forall|k: usize| k < n ==> #[trigger] s.contains(k),
{
    let t = s.map_values(|x: usize| x as int);
    assert(t.no_duplicates()) by {
        assert forall|a: int, b: int| 0 <= a < t.len() && 0 <= b < t.len() && a != b implies t[a] != t[b] by {
            if a < b {
                assert(s[a] != s[b]);
            } else {
                assert(s[b] != s[a]);
            }
        }
    }
    t.unique_seq_to_set();
    vstd::set_lib::lemma_int_range(0, n as int);
    let range = vstd::set_lib::set_int_range(0, n as int);
    assert(t.to_set().subset_of(range)) by {
        assert forall|x: int| t.to_set().contains(x) implies range.contains(x) by {
            assert(t.contains(x));
            let i = choose|i: int| 0 <= i < t.len() && t[i] == x;
            assert(s[i] < n);
        }
    }
    vstd::seq_lib::seq_to_set_is_finite(t);
    vstd::set_lib::lemma_subset_equality(t.to_set(), range);
    assert forall|k: usize| k < n implies #[trigger] s.contains(k) by {
        assert(range.contains(k as int));
        assert(t.to_set().contains(k as int));
        assert(t.contains(k as int));
        let i = choose|i: int| 0 <= i < t.len() && t[i] == k as int;
        assert(s[i] == k);
    }
}

} // verus!
