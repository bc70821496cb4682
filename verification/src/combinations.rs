//! Sequences of pairs: all pairs drawn from one sequence, and all pairs
//! drawn from two.

use vstd::prelude::*;
use itertools::Itertools;
use crate::index::{index_views, SigIndex};

verus! {

/// `first` paired with each item of `rest`, in the order of `rest`.
pub open spec fn pairs_from<T>(first: T, rest: Seq<T>) -> Seq<(T, T)> {
    Seq::new(rest.len(), |j: int| (first, rest[j]))
}

/// Every pair `(s[i], s[j])` with `i < j`, ordered by `i` and then by `j`.
pub open spec fn ordered_pairs<T>(s: Seq<T>) -> Seq<(T, T)>
    decreases s.len(),
{
    if s.len() == 0 {
        Seq::empty()
    } else {
        pairs_from(s[0], s.skip(1)) + ordered_pairs(s.skip(1))
    }
}

/// One item of `outer` with one of `inner`, as a pair: the item of `inner`
/// first where `flipped` is set.
pub open spec fn pair_of(outer: int, inner: int, flipped: bool) -> (int, int) {
    if flipped {
        (inner, outer)
    } else {
        (outer, inner)
    }
}

/// Every item of `outer` paired with every item of `inner`, ordered by the
/// position in `outer` and then by the position in `inner`.
pub open spec fn cross(outer: Seq<int>, inner: Seq<int>, flipped: bool) -> Seq<(int, int)>
    decreases outer.len(),
{
    if outer.len() == 0 {
        Seq::empty()
    } else {
        cross(outer.drop_last(), inner, flipped) + Seq::new(
            inner.len(),
            |j: int| pair_of(outer.last(), inner[j], flipped),
        )
    }
}

/// The numbers of a sequence of pairs of indices.
pub open spec fn pair_views(pairs: Seq<(SigIndex, SigIndex)>) -> Seq<(int, int)> {
    pairs.map_values(|pair: (SigIndex, SigIndex)| (pair.0@, pair.1@))
}

/// A concatenation contains what one of its parts contains.
pub proof fn lemma_concat_contains<T>(a: Seq<T>, b: Seq<T>, x: T)
    ensures
        (a + b).contains(x) <==> (a.contains(x) || b.contains(x)),
{
    if a.contains(x) {
        let k = choose|k: int| 0 <= k < a.len() && a[k] == x;
        assert((a + b)[k] == x);
    }
    if b.contains(x) {
        let k = choose|k: int| 0 <= k < b.len() && b[k] == x;
        assert((a + b)[a.len() + k] == x);
    }
    if (a + b).contains(x) {
        let k = choose|k: int| 0 <= k < (a + b).len() && (a + b)[k] == x;
        if k < a.len() {
            assert(a[k] == x);
        } else {
            assert(b[k - a.len()] == x);
        }
    }
}

/// `ordered_pairs(s)` holds `len * (len - 1) / 2` pairs.
pub proof fn lemma_ordered_pairs_len<T>(s: Seq<T>)
    ensures
        2 * ordered_pairs(s).len() == s.len() * (s.len() - 1),
    decreases s.len(),
{
    if s.len() > 0 {
        lemma_ordered_pairs_len(s.skip(1));
        let n = s.len() as int;
        assert(2 * (n - 1) + (n - 1) * (n - 2) == n * (n - 1)) by (nonlinear_arith);
    }
}

/// `ordered_pairs(s)` contains exactly the pairs of an earlier item of `s`
/// with a later one.
pub proof fn lemma_ordered_pairs_contains<T>(s: Seq<T>, p: (T, T))
    ensures
        ordered_pairs(s).contains(p) <==> exists|i: int, j: int|
            #![trigger s[i], s[j]]
            0 <= i < j < s.len() && s[i] == p.0 && s[j] == p.1,
    decreases s.len(),
{
    if s.len() > 0 {
        let rest = s.skip(1);
        let head = pairs_from(s[0], rest);
        let tail = ordered_pairs(rest);
        lemma_ordered_pairs_contains(rest, p);
        lemma_concat_contains(head, tail, p);
        if head.contains(p) {
            let k = choose|k: int| 0 <= k < head.len() && head[k] == p;
            assert(s[0] == p.0 && s[k + 1] == p.1);
        }
        if tail.contains(p) {
            let (i, j) = choose|i: int, j: int|
                #![trigger rest[i], rest[j]]
                0 <= i < j < rest.len() && rest[i] == p.0 && rest[j] == p.1;
            assert(s[i + 1] == p.0 && s[j + 1] == p.1);
        }
        if exists|i: int, j: int|
            #![trigger s[i], s[j]]
            0 <= i < j < s.len() && s[i] == p.0 && s[j] == p.1 {
            let (i, j) = choose|i: int, j: int|
                #![trigger s[i], s[j]]
                0 <= i < j < s.len() && s[i] == p.0 && s[j] == p.1;
            if i == 0 {
                assert(head[j - 1] == p);
            } else {
                assert(rest[i - 1] == p.0 && rest[j - 1] == p.1);
            }
        }
    }
}

/// Taking the numbers of the indices commutes with forming the pairs.
pub proof fn lemma_ordered_pairs_views(s: Seq<SigIndex>)
    ensures
        pair_views(ordered_pairs(s)) == ordered_pairs(index_views(s)),
    decreases s.len(),
{
    if s.len() > 0 {
        lemma_ordered_pairs_views(s.skip(1));
        assert(index_views(s).skip(1) =~= index_views(s.skip(1)));
        assert(pair_views(pairs_from(s[0], s.skip(1))) =~= pairs_from(
            index_views(s)[0],
            index_views(s).skip(1),
        ));
        assert(pair_views(ordered_pairs(s)) =~= pair_views(pairs_from(s[0], s.skip(1)))
            + pair_views(ordered_pairs(s.skip(1))));
    } else {
        assert(pair_views(ordered_pairs(s)) =~= ordered_pairs(index_views(s)));
    }
}

/// `cross(outer, inner, _)` holds one pair for each item of `outer` and each
/// item of `inner`.
pub proof fn lemma_cross_len(outer: Seq<int>, inner: Seq<int>, flipped: bool)
    ensures
        cross(outer, inner, flipped).len() == outer.len() * inner.len(),
    decreases outer.len(),
{
    if outer.len() > 0 {
        lemma_cross_len(outer.drop_last(), inner, flipped);
        let n = outer.len() as int;
        let m = inner.len() as int;
        assert((n - 1) * m + m == n * m) by (nonlinear_arith);
    } else {
        assert(0 * inner.len() == 0);
    }
}

/// `cross(outer, inner, flipped)` contains exactly the pairs of an item of
/// `outer` with an item of `inner`.
pub proof fn lemma_cross_contains(outer: Seq<int>, inner: Seq<int>, flipped: bool, p: (int, int))
    ensures
        cross(outer, inner, flipped).contains(p) <==> (outer.contains(
            if flipped {
                p.1
            } else {
                p.0
            },
        ) && inner.contains(
            if flipped {
                p.0
            } else {
                p.1
            },
        )),
    decreases outer.len(),
{
    let x = if flipped {
        p.1
    } else {
        p.0
    };
    let y = if flipped {
        p.0
    } else {
        p.1
    };
    if outer.len() > 0 {
        let init = outer.drop_last();
        let row = Seq::new(inner.len(), |j: int| pair_of(outer.last(), inner[j], flipped));
        lemma_cross_contains(init, inner, flipped, p);
        lemma_concat_contains(cross(init, inner, flipped), row, p);
        if row.contains(p) {
            let k = choose|k: int| 0 <= k < row.len() && row[k] == p;
            assert(inner[k] == y);
            assert(outer[outer.len() - 1] == x);
        }
        if init.contains(x) {
            let k = choose|k: int| 0 <= k < init.len() && init[k] == x;
            assert(outer[k] == x);
        }
        if outer.contains(x) && inner.contains(y) {
            let i = choose|i: int| 0 <= i < outer.len() && outer[i] == x;
            let j = choose|j: int| 0 <= j < inner.len() && inner[j] == y;
            if i < init.len() {
                assert(init[i] == x);
            } else {
                assert(row[j] == p);
            }
        }
    }
}

/// Forms every pair of an earlier index of `indices` with a later one.
///
/// This calls `tuple_combinations` of itertools, for pairs. The contract
/// claims that it yields the pairs `(indices[i], indices[j])` with `i < j`,
/// those with the smaller `i` first and, among them, those with the smaller
/// `j` first.
#[verifier::external_body]
pub(crate) fn index_pairs(indices: &Vec<SigIndex>) -> (pairs: Vec<(SigIndex, SigIndex)>)
    ensures
        pairs@ == ordered_pairs(indices@),
{
    indices.iter().copied().tuple_combinations::<(_, _)>().collect()
}

} // verus!
