use vstd::prelude::*;
use crate::symbols::is_word_symbol;

verus! {

pub open spec fn pair_at(s: Seq<char>, i: int) -> (char, char) {
    (s[i], s[i + 1])
}

/// Whether both symbols of the pair may take part in a merge.
pub open spec fn qualifies(p: (char, char)) -> bool {
    is_word_symbol(p.0) && is_word_symbol(p.1)
}

/// Whether the qualifying pair `p` stands at position `i` of `s`.
pub open spec fn occurs_at(s: Seq<char>, p: (char, char), i: int) -> bool {
    0 <= i && i + 1 < s.len() && pair_at(s, i) == p && qualifies(p)
}

/// Number of positions in `lo..hi` at which the qualifying pair `p` stands.
pub open spec fn count_in(s: Seq<char>, p: (char, char), lo: int, hi: int) -> nat
    decreases hi - lo,
{
    if hi <= lo {
        0
    } else {
        count_in(s, p, lo, hi - 1) + if occurs_at(s, p, hi - 1) {
            1nat
        } else {
            0nat
        }
    }
}

/// Number of times the qualifying pair `p` stands in `s` (overlapping occurrences included).
pub open spec fn pair_count(s: Seq<char>, p: (char, char)) -> nat {
    count_in(s, p, 0, s.len() as int)
}

/// Whether some qualifying pair stands in `s`.
pub open spec fn has_qualifying_pair(s: Seq<char>) -> bool {
    exists|i: int| occurs_at(s, #[trigger] pair_at(s, i), i)
}

/// `p` stands first at `f`, no pair is more frequent, and every pair that
/// stands before `f` is strictly less frequent.
pub open spec fn best_at(s: Seq<char>, p: (char, char), f: int) -> bool {
    &&& occurs_at(s, p, f)
    &&& forall|j: int|
        occurs_at(s, #[trigger] pair_at(s, j), j) ==> pair_count(s, pair_at(s, j)) <= pair_count(
            s,
            p,
        )
    &&& forall|j: int|
        0 <= j < f && occurs_at(s, #[trigger] pair_at(s, j), j) ==> pair_count(s, pair_at(s, j))
            < pair_count(s, p)
}

/// The most frequent qualifying pair, ties going to the one that is seen first.
pub open spec fn is_best_pair(s: Seq<char>, p: (char, char)) -> bool {
    exists|f: int| best_at(s, p, f)
}

/// The pair that a merge step on `s` selects, `None` when no qualifying pair stands in `s`.
pub open spec fn best_pair(s: Seq<char>) -> Option<(char, char)> {
    if exists|p: (char, char)| is_best_pair(s, p) {
        Some(choose|p: (char, char)| is_best_pair(s, p))
    } else {
        None
    }
}

pub proof fn lemma_count_bound(s: Seq<char>, p: (char, char), lo: int, hi: int)
    requires
        lo <= hi,
    ensures
        count_in(s, p, lo, hi) <= hi - lo,
    decreases hi - lo,
{
    if hi > lo {
        lemma_count_bound(s, p, lo, hi - 1);
    }
}

pub proof fn lemma_count_split(s: Seq<char>, p: (char, char), lo: int, mid: int, hi: int)
    requires
        lo <= mid <= hi,
    ensures
        count_in(s, p, lo, hi) == count_in(s, p, lo, mid) + count_in(s, p, mid, hi),
    decreases hi - mid,
{
    if hi > mid {
        lemma_count_split(s, p, lo, mid, hi - 1);
    }
}

pub proof fn lemma_count_zero(s: Seq<char>, p: (char, char), lo: int, hi: int)
    requires
        forall|j: int| lo <= j < hi ==> !occurs_at(s, p, j),
    ensures
        count_in(s, p, lo, hi) == 0,
    decreases hi - lo,
{
    if hi > lo {
        lemma_count_zero(s, p, lo, hi - 1);
    }
}

/// At most one pair is the best of a text.
pub proof fn lemma_best_unique(s: Seq<char>, p: (char, char), f: int, q: (char, char), g: int)
    requires
        best_at(s, p, f),
        best_at(s, q, g),
    ensures
        p == q,
{
    assert(pair_at(s, f) == p);
    assert(pair_at(s, g) == q);
    if f < g {
        assert(pair_count(s, pair_at(s, f)) < pair_count(s, q));
        assert(pair_count(s, pair_at(s, g)) <= pair_count(s, p));
    } else if g < f {
        assert(pair_count(s, pair_at(s, g)) < pair_count(s, p));
        assert(pair_count(s, pair_at(s, f)) <= pair_count(s, q));
    }
}

pub proof fn lemma_best_pair_is(s: Seq<char>, p: (char, char), f: int)
    requires
        best_at(s, p, f),
    ensures
        best_pair(s) == Some(p),
{
    assert(is_best_pair(s, p));
    let q = choose|q: (char, char)| is_best_pair(s, q);
    let g = choose|g: int| best_at(s, q, g);
    lemma_best_unique(s, p, f, q, g);
}

pub proof fn lemma_no_best_pair(s: Seq<char>)
    requires
        !has_qualifying_pair(s),
    ensures
        best_pair(s) is None,
{
    if exists|p: (char, char)| is_best_pair(s, p) {
        let p = choose|p: (char, char)| is_best_pair(s, p);
        let f = choose|f: int| best_at(s, p, f);
        assert(occurs_at(s, pair_at(s, f), f));
    }
}

/// The selected pair stands somewhere in the text.
pub proof fn lemma_best_pair_occurs(s: Seq<char>, p: (char, char))
    requires
        best_pair(s) == Some(p),
    ensures
        exists|i: int| 0 <= i && i + 1 < s.len() && #[trigger] pair_at(s, i) == p,
{
    let f = choose|f: int| best_at(s, p, f);
    assert(pair_at(s, f) == p);
}

} // verus!
