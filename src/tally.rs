use vstd::prelude::*;
use crate::counting::{
    best_at, best_pair, count_in, has_qualifying_pair, lemma_best_pair_is, lemma_count_bound,
    lemma_count_split, lemma_count_zero, lemma_no_best_pair, occurs_at, pair_at, pair_count,
};
use crate::symbols::is_word_char;
use rayon::prelude::{IntoParallelIterator, ParallelIterator};

verus! {

/// How often a pair was seen in a stretch of text, and where it was seen first.
#[derive(Clone, Copy, Debug)]
pub struct PairTally {
    pub pair: (char, char),
    pub count: usize,
    pub first: usize,
}

pub open spec fn has_key(t: Seq<PairTally>, p: (char, char)) -> bool {
    exists|k: int| 0 <= k < t.len() && (#[trigger] t[k]).pair == p
}

/// `e` records the first position and the number of occurrences of its
/// pair among the positions `lo..hi` of `s`.
pub open spec fn entry_ok(s: Seq<char>, e: PairTally, lo: int, hi: int) -> bool {
    &&& lo <= e.first < hi
    &&& occurs_at(s, e.pair, e.first as int)
    &&& e.count == count_in(s, e.pair, lo, hi)
    &&& forall|j: int| lo <= j < e.first ==> !#[trigger] occurs_at(s, e.pair, j)
}

pub open spec fn distinct_keys(t: Seq<PairTally>) -> bool {
    forall|a: int, b: int| 0 <= a < b < t.len() ==> (#[trigger] t[a]).pair != (#[trigger] t[b]).pair
}

/// `t` tallies every qualifying pair that stands at a position in `lo..hi` of `s`, once each.
pub open spec fn tally_ok(s: Seq<char>, t: Seq<PairTally>, lo: int, hi: int) -> bool {
    &&& forall|k: int| 0 <= k < t.len() ==> entry_ok(s, #[trigger] t[k], lo, hi)
    &&& distinct_keys(t)
    &&& forall|i: int|
        lo <= i < hi && occurs_at(s, #[trigger] pair_at(s, i), i) ==> has_key(t, pair_at(s, i))
}

/// Start of the `k`-th stretch of `size` positions, clamped to `n`.
pub open spec fn chunk_start(n: int, size: int, k: int) -> int {
    if k * size < n {
        k * size
    } else {
        n
    }
}

/// Position of `p` in `t`, if it is there.
fn find_key(t: &Vec<PairTally>, p: (char, char)) -> (r: Option<usize>)
    ensures
        match r {
            Some(k) => k < t@.len() && t@[k as int].pair == p,
            None => !has_key(t@, p),
        },
{
    let mut k: usize = 0;
    while k < t.len()
        invariant
            k <= t@.len(),
            forall|j: int| 0 <= j < k ==> (#[trigger] t@[j]).pair != p,
        decreases t@.len() - k,
    {
        if t[k].pair.0 == p.0 && t[k].pair.1 == p.1 {
            return Some(k);
        }
        k = k + 1;
    }
    None
}

/// Tallies the qualifying pairs that stand at the positions `lo..hi` of `s`.
pub fn count_range(s: &Vec<char>, lo: usize, hi: usize) -> (r: Vec<PairTally>)
    requires
        lo <= hi <= s@.len(),
    ensures
        tally_ok(s@, r@, lo as int, hi as int),
{
    let mut t: Vec<PairTally> = Vec::new();
    let mut i: usize = lo;
    while i < hi
        invariant
            lo <= i <= hi <= s@.len(),
            tally_ok(s@, t@, lo as int, i as int),
        decreases hi - i,
    {
        let ghost old_t = t@;
        if i + 1 < s.len() && is_word_char(s[i]) && is_word_char(s[i + 1]) {
            let p = (s[i], s[i + 1]);
            assert(occurs_at(s@, p, i as int));
            match find_key(&t, p) {
                Some(k) => {
                    let e = t[k];
                    proof {
                        lemma_count_bound(s@, p, lo as int, i as int);
                    }
                    t.set(k, PairTally { pair: p, count: e.count + 1, first: e.first });
                    assert forall|m: int| 0 <= m < t@.len() implies entry_ok(
                        s@,
                        #[trigger] t@[m],
                        lo as int,
                        i + 1,
                    ) by {
                        assert(entry_ok(s@, old_t[m], lo as int, i as int));
                        if m != k {
                            assert(old_t[m].pair != p);
                        }
                    }
                    assert forall|j: int|
                        lo <= j < i + 1 && occurs_at(
                            s@,
                            #[trigger] pair_at(s@, j),
                            j,
                        ) implies has_key(t@, pair_at(s@, j)) by {
                        if j < i {
                            let w = choose|w: int|
                                0 <= w < old_t.len() && (#[trigger] old_t[w]).pair == pair_at(
                                    s@,
                                    j,
                                );
                            assert(t@[w].pair == pair_at(s@, j));
                        } else {
                            assert(t@[k as int].pair == pair_at(s@, j));
                        }
                    }
                },
                None => {
                    t.push(PairTally { pair: p, count: 1, first: i });
                    assert forall|m: int| 0 <= m < t@.len() implies entry_ok(
                        s@,
                        #[trigger] t@[m],
                        lo as int,
                        i + 1,
                    ) by {
                        if m < old_t.len() {
                            assert(entry_ok(s@, old_t[m], lo as int, i as int));
                            assert(old_t[m].pair != p);
                        } else {
                            assert forall|j: int| lo <= j < i implies !occurs_at(s@, p, j) by {
                                if occurs_at(s@, p, j) {
                                    assert(pair_at(s@, j) == p);
                                    assert(has_key(old_t, pair_at(s@, j)));
                                }
                            }
                            lemma_count_zero(s@, p, lo as int, i as int);
                        }
                    }
                    assert forall|j: int|
                        lo <= j < i + 1 && occurs_at(
                            s@,
                            #[trigger] pair_at(s@, j),
                            j,
                        ) implies has_key(t@, pair_at(s@, j)) by {
                        if j < i {
                            let w = choose|w: int|
                                0 <= w < old_t.len() && (#[trigger] old_t[w]).pair == pair_at(
                                    s@,
                                    j,
                                );
                            assert(t@[w].pair == pair_at(s@, j));
                        } else {
                            assert(t@[old_t.len() as int].pair == pair_at(s@, j));
                        }
                    }
                },
            }
        } else {
            assert forall|m: int| 0 <= m < t@.len() implies entry_ok(
                s@,
                #[trigger] t@[m],
                lo as int,
                i + 1,
            ) by {
                assert(entry_ok(s@, old_t[m], lo as int, i as int));
                assert(!occurs_at(s@, t@[m].pair, i as int));
            }
        }
        i = i + 1;
    }
    t
}

/// `chunk_start(n, size, k)`, computed without overflow.
fn chunk_bound(n: usize, size: usize, k: usize) -> (r: usize)
    ensures
        r == chunk_start(n as int, size as int, k as int),
{
    match k.checked_mul(size) {
        Some(v) => if v < n {
            v
        } else {
            n
        },
        None => n,
    }
}

proof fn lemma_chunk_start_monotone(n: int, size: int, k: int)
    requires
        size >= 0,
        k >= 0,
    ensures
        chunk_start(n, size, k) <= chunk_start(n, size, k + 1),
{
    assert(k * size <= (k + 1) * size) by (nonlinear_arith)
        requires
            size >= 0,
            k >= 0,
    ;
}

/// Tallies the `k`-th stretch of `size` positions of `s`.
pub fn count_chunk(s: &Vec<char>, size: usize, k: usize) -> (r: Vec<PairTally>)
    ensures
        tally_ok(
            s@,
            r@,
            chunk_start(s@.len() as int, size as int, k as int),
            chunk_start(s@.len() as int, size as int, k + 1),
        ),
{
    let n = s.len();
    let lo = chunk_bound(n, size, k);
    let hi = if size == 0 {
        0
    } else if k == usize::MAX {
        n
    } else {
        chunk_bound(n, size, k + 1)
    };
    proof {
        lemma_chunk_start_monotone(n as int, size as int, k as int);
        if size == 0 {
            assert((k + 1) * size == 0);
        } else if k == usize::MAX {
            assert((k + 1) * size >= k + 1) by (nonlinear_arith)
                requires
                    size > 0,
            ;
        }
    }
    count_range(s, lo, hi)
}

/// Relies on `rayon::current_num_threads`: how many workers the current pool has.
#[verifier::external_body]
fn worker_count() -> (r: usize) {
    rayon::current_num_threads()
}

/// Relies on rayon's parallel iterator over `0..n`: `map` applies `count_chunk`
/// to each index and `collect` keeps the order of the indices.
#[verifier::external_body]
fn count_chunks_in_parallel(s: &Vec<char>, size: usize, n: usize) -> (r: Vec<Vec<PairTally>>)
    ensures
        r@.len() == n,
        forall|k: int|
            0 <= k < n ==> tally_ok(
                s@,
                (#[trigger] r@[k])@,
                chunk_start(s@.len() as int, size as int, k),
                chunk_start(s@.len() as int, size as int, k + 1),
            ),
{
    (0..n).into_par_iter().map(|k| count_chunk(s, size, k)).collect()
}


/// `e` is an entry of a tally of `0..lo` into which the entries `done` of a
/// tally of `lo..hi` have been merged.
pub open spec fn merged_ok(
    s: Seq<char>,
    e: PairTally,
    lo: int,
    hi: int,
    done: Seq<PairTally>,
) -> bool {
    &&& 0 <= e.first < hi
    &&& occurs_at(s, e.pair, e.first as int)
    &&& forall|j: int| 0 <= j < e.first ==> !#[trigger] occurs_at(s, e.pair, j)
    &&& e.count == count_in(s, e.pair, 0, lo) + if has_key(done, e.pair) {
        count_in(s, e.pair, lo, hi)
    } else {
        0
    }
}

proof fn lemma_keys_kept(old: Seq<PairTally>, new: Seq<PairTally>, q: (char, char))
    requires
        old.len() <= new.len(),
        forall|w: int| 0 <= w < old.len() ==> (#[trigger] new[w]).pair == old[w].pair,
        has_key(old, q),
    ensures
        has_key(new, q),
{
    let w = choose|w: int| 0 <= w < old.len() && (#[trigger] old[w]).pair == q;
    assert(new[w].pair == q);
}

/// Adds the tally `part` of the positions `lo..hi` into the tally `acc` of `0..lo`.
fn merge_tally(
    acc: &mut Vec<PairTally>,
    part: &Vec<PairTally>,
    Ghost(s): Ghost<Seq<char>>,
    Ghost(lo): Ghost<int>,
    Ghost(hi): Ghost<int>,
)
    requires
        0 <= lo <= hi <= s.len() <= usize::MAX,
        tally_ok(s, old(acc)@, 0, lo),
        tally_ok(s, part@, lo, hi),
    ensures
        tally_ok(s, final(acc)@, 0, hi),
{
    let mut m: usize = 0;
    proof {
        assert forall|k: int| 0 <= k < acc@.len() implies merged_ok(
            s,
            #[trigger] acc@[k],
            lo,
            hi,
            part@.take(0),
        ) by {
            assert(entry_ok(s, acc@[k], 0, lo));
        }
    }
    while m < part.len()
        invariant
            0 <= lo <= hi <= s.len() <= usize::MAX,
            tally_ok(s, part@, lo, hi),
            m <= part@.len(),
            forall|k: int|
                0 <= k < acc@.len() ==> merged_ok(
                    s,
                    #[trigger] acc@[k],
                    lo,
                    hi,
                    part@.take(m as int),
                ),
            distinct_keys(acc@),
            forall|i: int|
                0 <= i < lo && occurs_at(s, #[trigger] pair_at(s, i), i) ==> has_key(
                    acc@,
                    pair_at(s, i),
                ),
            forall|j: int| 0 <= j < m ==> has_key(acc@, (#[trigger] part@[j]).pair),
        decreases part@.len() - m,
    {
        let e = part[m];
        let p = e.pair;
        let ghost old_acc = acc@;
        let ghost done = part@.take(m as int);
        let ghost done2 = part@.take(m + 1);
        proof {
            assert(entry_ok(s, e, lo, hi));
            assert(!has_key(done, p)) by {
                if has_key(done, p) {
                    let w = choose|w: int| 0 <= w < done.len() && (#[trigger] done[w]).pair == p;
                    assert(part@[w].pair == part@[m as int].pair);
                }
            }
            assert(done2 =~= done.push(e));
            assert forall|q: (char, char)| q != p implies has_key(done2, q) == has_key(done, q) by {
                if has_key(done2, q) {
                    let w = choose|w: int| 0 <= w < done2.len() && (#[trigger] done2[w]).pair == q;
                    assert(done[w].pair == q);
                }
                if has_key(done, q) {
                    lemma_keys_kept(done, done2, q);
                }
            }
            assert(done2[m as int].pair == p);
        }
        match find_key(acc, p) {
            Some(k) => {
                let a = acc[k];
                proof {
                    assert(merged_ok(s, old_acc[k as int], lo, hi, done));
                    lemma_count_split(s, p, 0, lo, hi);
                    lemma_count_bound(s, p, 0, hi);
                    assert(a.count + e.count == count_in(s, p, 0, hi));
                }
                acc.set(k, PairTally { pair: p, count: a.count + e.count, first: a.first });
                assert(acc@[k as int].pair == p);
            },
            None => {
                proof {
                    assert forall|j: int| 0 <= j < lo implies !occurs_at(s, p, j) by {
                        if occurs_at(s, p, j) {
                            assert(pair_at(s, j) == p);
                        }
                    }
                    lemma_count_zero(s, p, 0, lo);
                    assert forall|j: int| 0 <= j < e.first implies !occurs_at(s, p, j) by {
                        if j >= lo {
                            assert(!occurs_at(s, e.pair, j));
                        }
                    }
                }
                acc.push(e);
                assert(acc@[old_acc.len() as int].pair == p);
            },
        }
        proof {
            assert forall|k2: int| 0 <= k2 < acc@.len() implies merged_ok(
                s,
                #[trigger] acc@[k2],
                lo,
                hi,
                done2,
            ) by {
                if k2 < old_acc.len() {
                    assert(merged_ok(s, old_acc[k2], lo, hi, done));
                }
            }
            assert forall|i: int|
                0 <= i < lo && occurs_at(s, #[trigger] pair_at(s, i), i) implies has_key(
                acc@,
                pair_at(s, i),
            ) by {
                lemma_keys_kept(old_acc, acc@, pair_at(s, i));
            }
            assert forall|j: int| 0 <= j < m + 1 implies has_key(
                acc@,
                (#[trigger] part@[j]).pair,
            ) by {
                if j < m {
                    lemma_keys_kept(old_acc, acc@, part@[j].pair);
                }
            }
        }
        m = m + 1;
    }
    proof {
        assert(part@.take(m as int) =~= part@);
        assert forall|k: int| 0 <= k < acc@.len() implies entry_ok(
            s,
            #[trigger] acc@[k],
            0,
            hi,
        ) by {
            let e = acc@[k];
            assert(merged_ok(s, e, lo, hi, part@));
            lemma_count_split(s, e.pair, 0, lo, hi);
            if !has_key(part@, e.pair) {
                assert forall|j: int| lo <= j < hi implies !occurs_at(s, e.pair, j) by {
                    if occurs_at(s, e.pair, j) {
                        assert(pair_at(s, j) == e.pair);
                    }
                }
                lemma_count_zero(s, e.pair, lo, hi);
            }
        }
        assert forall|i: int|
            0 <= i < hi && occurs_at(s, #[trigger] pair_at(s, i), i) implies has_key(
            acc@,
            pair_at(s, i),
        ) by {
            if i >= lo {
                let w = choose|w: int|
                    0 <= w < part@.len() && (#[trigger] part@[w]).pair == pair_at(s, i);
                assert(has_key(acc@, part@[w].pair));
            }
        }
    }
}

/// Smallest stretch that is worth handing to a worker of its own.
pub const MIN_CHUNK_SIZE: usize = 10000;

/// Tallies every qualifying pair of `s`, counting stretches of the text in parallel.
pub fn tally_pairs(s: &Vec<char>) -> (r: Vec<PairTally>)
    ensures
        tally_ok(s@, r@, 0, s@.len() as int),
{
    let n = s.len();
    let workers = worker_count();
    let share = if workers == 0 {
        n
    } else {
        n / workers
    };
    let size = if share < MIN_CHUNK_SIZE {
        MIN_CHUNK_SIZE
    } else {
        share
    };
    proof {
        assert((n as int) / (size as int) < n || n == 0) by (nonlinear_arith)
            requires
                size >= 2,
        ;
    }
    let n_chunks = n / size + 1;
    proof {
        let q = (n as int) / (size as int);
        let rem = (n as int) % (size as int);
        vstd::arithmetic::div_mod::lemma_fundamental_div_mod(n as int, size as int);
        assert((q + 1) * size > n) by (nonlinear_arith)
            requires
                n == size * q + rem,
                rem < size,
        ;
        assert(chunk_start(n as int, size as int, 0) == 0);
    }
    let parts = count_chunks_in_parallel(s, size, n_chunks);
    let mut acc: Vec<PairTally> = Vec::new();
    let mut c: usize = 0;
    let mut lo: usize = 0;
    while c < n_chunks
        invariant
            n == s@.len(),
            size > 0,
            c <= n_chunks,
            parts@.len() == n_chunks,
            forall|k: int|
                0 <= k < n_chunks ==> tally_ok(
                    s@,
                    (#[trigger] parts@[k])@,
                    chunk_start(n as int, size as int, k),
                    chunk_start(n as int, size as int, k + 1),
                ),
            lo == chunk_start(n as int, size as int, c as int),
            tally_ok(s@, acc@, 0, lo as int),
            chunk_start(n as int, size as int, n_chunks as int) == n,
        decreases n_chunks - c,
    {
        let hi = chunk_bound(n, size, c + 1);
        proof {
            lemma_chunk_start_monotone(n as int, size as int, c as int);
            assert(tally_ok(s@, parts@[c as int]@, lo as int, hi as int));
        }
        merge_tally(&mut acc, &parts[c], Ghost(s@), Ghost(lo as int), Ghost(hi as int));
        lo = hi;
        c = c + 1;
    }
    acc
}

/// Position of the entry with the highest count, ties going to the one seen first.
fn select_best(t: &Vec<PairTally>) -> (r: Option<usize>)
    ensures
        r is None <==> t@.len() == 0,
        match r {
            Some(b) => b < t@.len() && forall|k: int|
                0 <= k < t@.len() ==> (#[trigger] t@[k]).count < t@[b as int].count || (t@[k].count
                    == t@[b as int].count && t@[k].first >= t@[b as int].first),
            None => true,
        },
{
    if t.len() == 0 {
        return None;
    }
    let mut b: usize = 0;
    let mut k: usize = 1;
    while k < t.len()
        invariant
            1 <= k <= t@.len(),
            b < k,
            forall|j: int|
                0 <= j < k ==> (#[trigger] t@[j]).count < t@[b as int].count || (t@[j].count
                    == t@[b as int].count && t@[j].first >= t@[b as int].first),
        decreases t@.len() - k,
    {
        if t[k].count > t[b].count || (t[k].count == t[b].count && t[k].first < t[b].first) {
            b = k;
        }
        k = k + 1;
    }
    Some(b)
}

/// The most frequent qualifying pair of `s`, ties going to the pair seen first;
/// `None` when no qualifying pair stands in `s`.
pub fn most_common_pair(s: &Vec<char>) -> (r: Option<(char, char)>)
    ensures
        r == best_pair(s@),
        r is None <==> !has_qualifying_pair(s@),
{
    let t = tally_pairs(s);
    match select_best(&t) {
        None => {
            proof {
                if has_qualifying_pair(s@) {
                    let i = choose|i: int| occurs_at(s@, #[trigger] pair_at(s@, i), i);
                    assert(has_key(t@, pair_at(s@, i)));
                }
                lemma_no_best_pair(s@);
            }
            None
        },
        Some(b) => {
            let e = t[b];
            proof {
                let ss = s@;
                assert(entry_ok(ss, e, 0, ss.len() as int));
                assert forall|j: int| occurs_at(ss, #[trigger] pair_at(ss, j), j) implies pair_count(
                    ss,
                    pair_at(ss, j),
                ) <= pair_count(ss, e.pair) by {
                    assert(has_key(t@, pair_at(ss, j)));
                    let w = choose|w: int|
                        0 <= w < t@.len() && (#[trigger] t@[w]).pair == pair_at(ss, j);
                    assert(entry_ok(ss, t@[w], 0, ss.len() as int));
                }
                assert forall|j: int|
                    0 <= j < e.first && occurs_at(ss, #[trigger] pair_at(ss, j), j) implies pair_count(
                    ss,
                    pair_at(ss, j),
                ) < pair_count(ss, e.pair) by {
                    assert(has_key(t@, pair_at(ss, j)));
                    let w = choose|w: int|
                        0 <= w < t@.len() && (#[trigger] t@[w]).pair == pair_at(ss, j);
                    assert(entry_ok(ss, t@[w], 0, ss.len() as int));
                    assert(occurs_at(ss, t@[w].pair, j));
                }
                assert(best_at(ss, e.pair, e.first as int));
                lemma_best_pair_is(ss, e.pair, e.first as int);
                assert(occurs_at(ss, pair_at(ss, e.first as int), e.first as int));
            }
            Some(e.pair)
        },
    }
}

} // verus!
