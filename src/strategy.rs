use vstd::prelude::*;
use crate::counting::best_pair;
use crate::decode::apply_merges;
use crate::merge::{merge_step, replaced, Merge};
use crate::symbols::{synth, to_symbols};

verus! {

/// Most merges a run can record: one per synthetic symbol.
pub const MAX_MERGES: usize = 0x10000;

/// Each merge of `table` merged the pair that a merge step selects on the
/// text left by the merges before it.
pub open spec fn is_greedy_table(s: Seq<char>, table: Seq<(char, char)>) -> bool {
    forall|k: int|
        0 <= k < table.len() ==> best_pair(apply_merges(s, table.subrange(0, k))) == Some(
            #[trigger] table[k],
        )
}

/// A run with budget `budget` stops when the budget is spent or no qualifying pair is left.
pub open spec fn run_complete(s: Seq<char>, table: Seq<(char, char)>, budget: int) -> bool {
    table.len() == budget || best_pair(apply_merges(s, table)) is None
}

/// The length of the text after each merge of `table`, in order.
pub open spec fn lengths_ok(s: Seq<char>, table: Seq<(char, char)>, lengths: Seq<usize>) -> bool {
    &&& lengths.len() == table.len()
    &&& forall|k: int|
        0 <= k < table.len() ==> #[trigger] lengths[k] == apply_merges(
            s,
            table.subrange(0, k + 1),
        ).len()
}

/// The outcome of a run of merges: the replacement table, the text that is
/// left, and the length of the text after each merge.
pub struct MergeRun {
    pub table: Vec<(char, char)>,
    pub text: Vec<char>,
    pub lengths: Vec<usize>,
}

proof fn lemma_apply_push(s: Seq<char>, table: Seq<(char, char)>, p: (char, char))
    ensures
        apply_merges(s, table.push(p)) == replaced(
            apply_merges(s, table),
            p,
            synth(table.len() as int),
        ),
{
    assert(table.push(p).subrange(0, table.len() as int) =~= table);
}

proof fn lemma_greedy_push(s: Seq<char>, table: Seq<(char, char)>, p: (char, char))
    requires
        is_greedy_table(s, table),
        best_pair(apply_merges(s, table)) == Some(p),
    ensures
        is_greedy_table(s, table.push(p)),
{
    let t2 = table.push(p);
    assert forall|k: int| 0 <= k < t2.len() implies best_pair(
        apply_merges(s, t2.subrange(0, k)),
    ) == Some(#[trigger] t2[k]) by {
        if k < table.len() {
            assert(t2.subrange(0, k) =~= table.subrange(0, k));
        } else {
            assert(t2.subrange(0, k) =~= table);
        }
    }
}

proof fn lemma_lengths_push(
    s: Seq<char>,
    table: Seq<(char, char)>,
    lengths: Seq<usize>,
    p: (char, char),
    n: usize,
)
    requires
        lengths_ok(s, table, lengths),
        n == apply_merges(s, table.push(p)).len(),
    ensures
        lengths_ok(s, table.push(p), lengths.push(n)),
{
    let t2 = table.push(p);
    assert forall|k: int| 0 <= k < t2.len() implies #[trigger] lengths.push(n)[k] == apply_merges(
        s,
        t2.subrange(0, k + 1),
    ).len() by {
        if k < table.len() {
            assert(t2.subrange(0, k + 1) =~= table.subrange(0, k + 1));
        } else {
            assert(t2.subrange(0, k + 1) =~= t2);
        }
    }
}

/// Runs up to `times` merge steps on `text`, stopping early when no
/// qualifying pair is left, and records each merge.
pub fn iterate(text: &str, times: u16) -> (r: MergeRun)
    ensures
        r.table@.len() <= times,
        is_greedy_table(text@, r.table@),
        run_complete(text@, r.table@, times as int),
        r.text@ == apply_merges(text@, r.table@),
        lengths_ok(text@, r.table@, r.lengths@),
{
    let mut cur = to_symbols(text);
    let mut table: Vec<(char, char)> = Vec::new();
    let mut lengths: Vec<usize> = Vec::new();
    let mut i: u16 = 0;
    while i < times
        invariant
            table@.len() == i,
            i <= times,
            is_greedy_table(text@, table@),
            cur@ == apply_merges(text@, table@),
            lengths_ok(text@, table@, lengths@),
        ensures
            table@.len() <= times,
            is_greedy_table(text@, table@),
            run_complete(text@, table@, times as int),
            cur@ == apply_merges(text@, table@),
            lengths_ok(text@, table@, lengths@),
        decreases times - i,
    {
        match merge_step(&cur, i) {
            None => {
                break ;
            },
            Some(m) => {
                proof {
                    lemma_apply_push(text@, table@, m.pair);
                    lemma_greedy_push(text@, table@, m.pair);
                    lemma_lengths_push(text@, table@, lengths@, m.pair, m.text@.len() as usize);
                }
                table.push(m.pair);
                lengths.push(m.text.len());
                cur = m.text;
                i = i + 1;
            },
        }
    }
    MergeRun { table, text: cur, lengths }
}

proof fn lemma_greedy_prefix(s: Seq<char>, t1: Seq<(char, char)>, t2: Seq<(char, char)>, k: int)
    requires
        0 <= k <= t1.len(),
        k <= t2.len(),
        is_greedy_table(s, t1),
        is_greedy_table(s, t2),
    ensures
        t1.subrange(0, k) == t2.subrange(0, k),
    decreases k,
{
    if k > 0 {
        let j = k - 1;
        lemma_greedy_prefix(s, t1, t2, j);
        assert(best_pair(apply_merges(s, t1.subrange(0, j))) == Some(t1[j]));
        assert(best_pair(apply_merges(s, t2.subrange(0, j))) == Some(t2[j]));
        assert(t1.subrange(0, k) =~= t1.subrange(0, j).push(t1[j]));
        assert(t2.subrange(0, k) =~= t2.subrange(0, j).push(t2[j]));
    }
}

/// Two runs on the same text with the same budget record the same table.
pub proof fn lemma_run_deterministic(
    s: Seq<char>,
    t1: Seq<(char, char)>,
    t2: Seq<(char, char)>,
    budget: int,
)
    requires
        t1.len() <= budget,
        t2.len() <= budget,
        is_greedy_table(s, t1),
        is_greedy_table(s, t2),
        run_complete(s, t1, budget),
        run_complete(s, t2, budget),
    ensures
        t1 == t2,
{
    let n = if t1.len() <= t2.len() {
        t1.len() as int
    } else {
        t2.len() as int
    };
    lemma_greedy_prefix(s, t1, t2, n);
    if t1.len() < t2.len() {
        assert(t1 =~= t1.subrange(0, n));
        assert(best_pair(apply_merges(s, t2.subrange(0, n))) == Some(t2[n]));
    } else if t2.len() < t1.len() {
        assert(t2 =~= t2.subrange(0, n));
        assert(best_pair(apply_merges(s, t1.subrange(0, n))) == Some(t1[n]));
    } else {
        assert(t1 =~= t1.subrange(0, n));
        assert(t2 =~= t2.subrange(0, n));
    }
}

/// `b` is the first index at which `costs` takes its least value.
pub open spec fn first_min_at(costs: Seq<i64>, b: int) -> bool {
    &&& 0 <= b < costs.len()
    &&& forall|j: int| 0 <= j < costs.len() ==> costs[b] <= #[trigger] costs[j]
    &&& forall|j: int| 0 <= j < b ==> costs[b] < #[trigger] costs[j]
}

/// When every merge lowers the recorded cost, the least cost is the last one,
/// so a bounded search keeps the whole table.
pub proof fn lemma_falling_costs_keep_all(costs: Seq<i64>)
    requires
        costs.len() > 0,
        forall|i: int, j: int|
            0 <= i < j < costs.len() ==> #[trigger] costs[j] < #[trigger] costs[i],
    ensures
        first_min_at(costs, costs.len() - 1),
{
    let last = costs.len() - 1;
    assert forall|j: int| 0 <= j < costs.len() implies costs[last] <= #[trigger] costs[j] by {
        if j < last {
            assert(costs[last] < costs[j]);
        }
    }
    assert forall|j: int| 0 <= j < last implies costs[last] < #[trigger] costs[j] by {
        assert(costs[last] < costs[j]);
    }
}

/// Where the recorded costs reach their least value first, counted as a
/// number of merges: one more than the index of the first least cost, and 0
/// when no cost was recorded.
pub fn best_prefix_len(costs: &Vec<i64>) -> (r: usize)
    ensures
        costs@.len() == 0 ==> r == 0,
        costs@.len() > 0 ==> r >= 1 && first_min_at(costs@, r - 1),
{
    if costs.len() == 0 {
        return 0;
    }
    let mut b: usize = 0;
    let mut k: usize = 1;
    while k < costs.len()
        invariant
            1 <= k <= costs@.len(),
            b < k,
            forall|j: int| 0 <= j < k ==> costs@[b as int] <= #[trigger] costs@[j],
            forall|j: int| 0 <= j < b ==> costs@[b as int] < #[trigger] costs@[j],
        decreases costs@.len() - k,
    {
        if costs[k] < costs[b] {
            b = k;
        }
        k = k + 1;
    }
    b + 1
}

/// The table of a bounded search cut to its best prefix: the merges up to the
/// first least recorded cost (`costs[k]` being the rounded cost after merge `k`).
pub fn opti_search(table: &Vec<(char, char)>, costs: &Vec<i64>) -> (r: Vec<(char, char)>)
    ensures
        costs@.len() == 0 ==> r@.len() == 0,
        costs@.len() > 0 ==> exists|b: int|
            #[trigger] first_min_at(costs@, b) && r@ == table@.subrange(
                0,
                if b + 1 <= table@.len() {
                    b + 1
                } else {
                    table@.len() as int
                },
            ),
{
    let n = best_prefix_len(costs);
    let end = if n <= table.len() {
        n
    } else {
        table.len()
    };
    let mut out: Vec<(char, char)> = Vec::new();
    let mut k: usize = 0;
    while k < end
        invariant
            end <= table@.len(),
            k <= end,
            out@ == table@.subrange(0, k as int),
        decreases end - k,
    {
        out.push(table[k]);
        assert(out@ =~= table@.subrange(0, k + 1));
        k = k + 1;
    }
    proof {
        if costs@.len() > 0 {
            let b = n - 1;
            assert(first_min_at(costs@, b as int));
        }
    }
    out
}

/// What a greedy search is doing next.
pub enum Proposal {
    /// A merge is pending; the text after it would have this many symbols.
    Candidate(usize),
    /// No qualifying pair is left.
    NoPair,
    /// Every synthetic symbol is taken.
    Exhausted,
}

/// A greedy search: merge steps are proposed one at a time and committed
/// while each makes the total cost strictly lower.
pub struct GreedySearch {
    pub text: Vec<char>,
    pub table: Vec<(char, char)>,
    pub pending: Option<Merge>,
    pub stopped: bool,
    pub source: Ghost<Seq<char>>,
}

impl GreedySearch {
    pub open spec fn wf(&self) -> bool {
        &&& self.table@.len() <= MAX_MERGES
        &&& self.text@ == apply_merges(self.source@, self.table@)
        &&& is_greedy_table(self.source@, self.table@)
        &&& match self.pending {
            Some(m) => {
                &&& self.table@.len() < MAX_MERGES
                &&& best_pair(self.text@) == Some(m.pair)
                &&& m.text@ == replaced(self.text@, m.pair, synth(self.table@.len() as int))
            },
            None => true,
        }
    }

    /// A search on `text` that has made no merge yet.
    pub fn new(text: &str) -> (r: Self)
        ensures
            r.wf(),
            r.source@ == text@,
            r.table@.len() == 0,
            r.text@ == text@,
            r.pending is None,
            !r.stopped,
    {
        GreedySearch {
            text: to_symbols(text),
            table: Vec::new(),
            pending: None,
            stopped: false,
            source: Ghost(text@),
        }
    }

    /// Computes the next merge step on the current text and keeps it pending.
    pub fn propose(&mut self) -> (r: Proposal)
        requires
            old(self).wf(),
        ensures
            final(self).wf(),
            final(self).source == old(self).source,
            final(self).table@ == old(self).table@,
            final(self).text@ == old(self).text@,
            final(self).stopped == old(self).stopped,
            match r {
                Proposal::Candidate(n) => {
                    &&& final(self).pending matches Some(m)
                    &&& m.text@.len() == n
                    &&& n < final(self).text@.len()
                },
                Proposal::NoPair => final(self).pending is None && best_pair(
                    final(self).text@,
                ) is None,
                Proposal::Exhausted => final(self).pending is None && old(self).table@.len()
                    == MAX_MERGES,
            },
    {
        if self.table.len() >= MAX_MERGES {
            self.pending = None;
            return Proposal::Exhausted;
        }
        let index = self.table.len() as u16;
        match merge_step(&self.text, index) {
            None => {
                self.pending = None;
                Proposal::NoPair
            },
            Some(m) => {
                let n = m.text.len();
                self.pending = Some(m);
                Proposal::Candidate(n)
            },
        }
    }

    /// Commits the pending merge when it lowers the total cost; otherwise,
    /// or when nothing is pending, stops the search.
    pub fn resolve(&mut self, improves: bool)
        requires
            old(self).wf(),
        ensures
            final(self).wf(),
            final(self).source == old(self).source,
            final(self).pending is None,
            match old(self).pending {
                Some(m) => if improves {
                    &&& final(self).table@ == old(self).table@.push(m.pair)
                    &&& final(self).text@ == m.text@
                    &&& final(self).stopped == old(self).stopped
                } else {
                    &&& final(self).table@ == old(self).table@
                    &&& final(self).text@ == old(self).text@
                    &&& final(self).stopped
                },
                None => {
                    &&& final(self).table@ == old(self).table@
                    &&& final(self).text@ == old(self).text@
                    &&& final(self).stopped
                },
            },
    {
        let pending = self.pending.take();
        match pending {
            Some(m) => {
                if improves {
                    proof {
                        lemma_apply_push(self.source@, self.table@, m.pair);
                        lemma_greedy_push(self.source@, self.table@, m.pair);
                    }
                    self.table.push(m.pair);
                    self.text = m.text;
                } else {
                    self.stopped = true;
                }
            },
            None => {
                self.stopped = true;
            },
        }
    }
}

} // verus!
