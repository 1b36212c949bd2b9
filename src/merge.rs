use vstd::prelude::*;
use crate::counting::{best_pair, has_qualifying_pair, pair_at};
use crate::symbols::{from_symbols, synth, synthetic_symbol, to_symbols};
use crate::tally::most_common_pair;

verus! {

/// `s` with every occurrence of `p` replaced by `r`, scanning left to right and
/// resuming after each replaced pair.
pub open spec fn replaced(s: Seq<char>, p: (char, char), r: char) -> Seq<char>
    decreases s.len(),
{
    if s.len() < 2 {
        s
    } else if s[0] == p.0 && s[1] == p.1 {
        seq![r] + replaced(s.subrange(2, s.len() as int), p, r)
    } else {
        seq![s[0]] + replaced(s.subrange(1, s.len() as int), p, r)
    }
}

/// The pair reported by a merge step that found no qualifying pair.
pub open spec fn no_pair() -> (char, char) {
    ('\0', '\0')
}

/// The pair that a merge step on `s` reports.
pub open spec fn reported_pair(s: Seq<char>) -> (char, char) {
    match best_pair(s) {
        Some(p) => p,
        None => no_pair(),
    }
}

/// A replacement never lengthens the text, and shortens it when the pair occurs.
pub proof fn lemma_replaced_len(s: Seq<char>, p: (char, char), r: char)
    ensures
        replaced(s, p, r).len() <= s.len(),
        (exists|i: int| 0 <= i && i + 1 < s.len() && #[trigger] pair_at(s, i) == p) ==> replaced(
            s,
            p,
            r,
        ).len() < s.len(),
    decreases s.len(),
{
    if s.len() >= 2 {
        let n = s.len() as int;
        if s[0] == p.0 && s[1] == p.1 {
            lemma_replaced_len(s.subrange(2, n), p, r);
        } else {
            let t = s.subrange(1, n);
            lemma_replaced_len(t, p, r);
            if exists|i: int| 0 <= i && i + 1 < s.len() && #[trigger] pair_at(s, i) == p {
                let i = choose|i: int| 0 <= i && i + 1 < s.len() && #[trigger] pair_at(s, i) == p;
                assert(i > 0);
                assert(pair_at(t, i - 1) == p);
            }
        }
    }
}

/// Replaces every occurrence of `p` in `s` by `r`, left to right.
pub fn replace_pair(s: &Vec<char>, p: (char, char), r: char) -> (out: Vec<char>)
    ensures
        out@ == replaced(s@, p, r),
{
    let n = s.len();
    let mut out: Vec<char> = Vec::new();
    let mut i: usize = 0;
    assert(s@.subrange(0, n as int) =~= s@);
    assert(out@ + replaced(s@, p, r) =~= replaced(s@, p, r));
    while i < n
        invariant
            n == s@.len(),
            i <= n,
            out@ + replaced(s@.subrange(i as int, n as int), p, r) == replaced(s@, p, r),
        decreases n - i,
    {
        let ghost rest = s@.subrange(i as int, n as int);
        if i + 1 < n && s[i] == p.0 && s[i + 1] == p.1 {
            assert(rest.subrange(2, rest.len() as int) =~= s@.subrange(i + 2, n as int));
            assert(out@.push(r) + replaced(s@.subrange(i + 2, n as int), p, r) =~= out@ + replaced(
                rest,
                p,
                r,
            ));
            out.push(r);
            i = i + 2;
        } else {
            if i + 1 < n {
                assert(rest.subrange(1, rest.len() as int) =~= s@.subrange(i + 1, n as int));
            } else {
                assert(s@.subrange(i + 1, n as int) =~= Seq::<char>::empty());
            }
            assert(out@.push(s[i as int]) + replaced(s@.subrange(i + 1, n as int), p, r)
                =~= out@ + replaced(rest, p, r));
            out.push(s[i]);
            i = i + 1;
        }
    }
    assert(s@.subrange(n as int, n as int) =~= Seq::<char>::empty());
    assert(out@ + Seq::<char>::empty() =~= out@);
    out
}

/// One merge: the pair that was merged and the text that came out.
pub struct Merge {
    pub pair: (char, char),
    pub text: Vec<char>,
}

/// One merge step on `s` with synthetic symbol `index`, or `None` when no
/// qualifying pair stands in `s`.
pub fn merge_step(s: &Vec<char>, index: u16) -> (r: Option<Merge>)
    ensures
        r is None <==> !has_qualifying_pair(s@),
        match r {
            Some(m) => best_pair(s@) == Some(m.pair) && m.text@ == replaced(
                s@,
                m.pair,
                synth(index as int),
            ) && m.text@.len() < s@.len(),
            None => best_pair(s@) is None,
        },
{
    match most_common_pair(s) {
        None => None,
        Some(p) => {
            let sym = synthetic_symbol(index);
            let text = replace_pair(s, p, sym);
            proof {
                crate::counting::lemma_best_pair_occurs(s@, p);
                lemma_replaced_len(s@, p, sym);
            }
            Some(Merge { pair: p, text })
        },
    }
}

/// Finds the most frequent qualifying pair of `text` (ties going to the pair
/// seen first) and replaces each of its occurrences, left to right, by the
/// synthetic symbol `index`. When no qualifying pair stands in the text, the
/// pair reported is `('\0', '\0')`, which is replaced in the same way.
pub fn find_common_byte_pair(text: &str, index: u16) -> (r: ((char, char), String))
    ensures
        r.0 == reported_pair(text@),
        r.1@ == replaced(text@, r.0, synth(index as int)),
        r.1@.len() <= text@.len(),
        has_qualifying_pair(text@) ==> r.1@.len() < text@.len(),
{
    let chars = to_symbols(text);
    let p = match most_common_pair(&chars) {
        Some(p) => p,
        None => ('\0', '\0'),
    };
    let sym = synthetic_symbol(index);
    let out = replace_pair(&chars, p, sym);
    proof {
        lemma_replaced_len(chars@, p, sym);
        if has_qualifying_pair(chars@) {
            crate::counting::lemma_best_pair_occurs(chars@, p);
        }
    }
    (p, from_symbols(&out))
}

} // verus!
