use vstd::prelude::*;
use crate::merge::replaced;
use crate::symbols::{from_symbols, is_reserved, synth, synth_index, to_symbols, SYNTHETIC_BASE};

verus! {

/// The original symbols that `c` stands for under `table`. A synthetic symbol
/// whose merge is in the table expands both symbols of its pair against the
/// merges made before it; every other symbol stands for itself.
pub open spec fn expand(c: char, table: Seq<(char, char)>) -> Seq<char>
    decreases table.len(),
{
    if is_reserved(c) && synth_index(c) < table.len() {
        let k = synth_index(c);
        expand(table[k].0, table.subrange(0, k)) + expand(table[k].1, table.subrange(0, k))
    } else {
        seq![c]
    }
}

/// The expansions of the symbols of `s`, in order, concatenated.
pub open spec fn flatten(s: Seq<char>, table: Seq<(char, char)>) -> Seq<char>
    decreases s.len(),
{
    if s.len() == 0 {
        Seq::empty()
    } else {
        expand(s[0], table) + flatten(s.subrange(1, s.len() as int), table)
    }
}

/// The text that comes out of `s` after the merges of `table`, in order.
pub open spec fn apply_merges(s: Seq<char>, table: Seq<(char, char)>) -> Seq<char>
    decreases table.len(),
{
    if table.len() == 0 {
        s
    } else {
        let k = table.len() - 1;
        replaced(apply_merges(s, table.subrange(0, k)), table[k], synth(k))
    }
}

/// No symbol of `s` lies in the reserved range.
pub open spec fn all_original(s: Seq<char>) -> bool {
    forall|i: int| 0 <= i < s.len() ==> !is_reserved(#[trigger] s[i])
}

/// `c` is an original symbol or names one of the first `m` merges.
pub open spec fn below(c: char, m: int) -> bool {
    !is_reserved(c) || synth_index(c) < m
}

pub open spec fn all_below(s: Seq<char>, m: int) -> bool {
    forall|i: int| 0 <= i < s.len() ==> below(#[trigger] s[i], m)
}

proof fn lemma_synth(k: int)
    requires
        0 <= k <= 0xFFFF,
    ensures
        is_reserved(synth(k)),
        synth_index(synth(k)) == k,
{
    assert(synth(k) as u32 == SYNTHETIC_BASE + k);
}

/// An original symbol expands to itself under every table.
pub proof fn lemma_expand_original(c: char, table: Seq<(char, char)>)
    requires
        !is_reserved(c),
    ensures
        expand(c, table) == seq![c],
{
}

/// Merges recorded after the ones a symbol names do not change its expansion.
proof fn lemma_expand_prefix(c: char, table: Seq<(char, char)>, m: int)
    requires
        0 <= m <= table.len(),
        below(c, m),
    ensures
        expand(c, table) == expand(c, table.subrange(0, m)),
{
    if is_reserved(c) {
        let k = synth_index(c);
        assert(table.subrange(0, m).subrange(0, k) =~= table.subrange(0, k));
    }
}

proof fn lemma_flatten_prefix(s: Seq<char>, table: Seq<(char, char)>, m: int)
    requires
        0 <= m <= table.len(),
        all_below(s, m),
    ensures
        flatten(s, table) == flatten(s, table.subrange(0, m)),
    decreases s.len(),
{
    if s.len() > 0 {
        lemma_expand_prefix(s[0], table, m);
        let rest = s.subrange(1, s.len() as int);
        assert forall|i: int| 0 <= i < rest.len() implies below(#[trigger] rest[i], m) by {
            assert(rest[i] == s[i + 1]);
        }
        lemma_flatten_prefix(rest, table, m);
    }
}

proof fn lemma_replaced_below(s: Seq<char>, p: (char, char), k: int)
    requires
        0 <= k <= 0xFFFF,
        all_below(s, k),
    ensures
        all_below(replaced(s, p, synth(k)), k + 1),
    decreases s.len(),
{
    lemma_synth(k);
    if s.len() >= 2 {
        let n = s.len() as int;
        let d: int = if s[0] == p.0 && s[1] == p.1 {
            2
        } else {
            1
        };
        let rest = s.subrange(d, n);
        assert forall|i: int| 0 <= i < rest.len() implies below(#[trigger] rest[i], k) by {
            assert(rest[i] == s[i + d]);
        }
        lemma_replaced_below(rest, p, k);
        let out = replaced(s, p, synth(k));
        let tail = replaced(rest, p, synth(k));
        assert forall|i: int| 0 <= i < out.len() implies below(#[trigger] out[i], k + 1) by {
            if i > 0 {
                assert(out[i] == tail[i - 1]);
            }
        }
    } else {
        assert forall|i: int| 0 <= i < s.len() implies below(#[trigger] s[i], k + 1) by {
            assert(below(s[i], k));
        }
    }
}

/// Decoding a merged text against the table extended by that merge gives back
/// the text before the merge.
proof fn lemma_replaced_flatten(s: Seq<char>, table: Seq<(char, char)>)
    requires
        1 <= table.len() <= 0x10000,
        all_below(s, table.len() - 1),
    ensures
        flatten(replaced(s, table[table.len() - 1], synth(table.len() - 1)), table) == flatten(
            s,
            table.subrange(0, table.len() - 1),
        ),
    decreases s.len(),
{
    let k = table.len() - 1;
    let p = table[k];
    let prefix = table.subrange(0, k);
    lemma_synth(k);
    if s.len() < 2 {
        lemma_flatten_prefix(s, table, k);
    } else {
        let n = s.len() as int;
        if s[0] == p.0 && s[1] == p.1 {
            let rest = s.subrange(2, n);
            assert forall|i: int| 0 <= i < rest.len() implies below(#[trigger] rest[i], k) by {
                assert(rest[i] == s[i + 2]);
            }
            lemma_replaced_flatten(rest, table);
            let out = replaced(s, p, synth(k));
            assert(out == seq![synth(k)] + replaced(rest, p, synth(k)));
            assert(out.subrange(1, out.len() as int) =~= replaced(rest, p, synth(k)));
            assert(flatten(out, table) == expand(synth(k), table) + flatten(rest, prefix));
            let s1 = s.subrange(1, n);
            assert(s1.subrange(1, s1.len() as int) =~= rest);
            assert(flatten(s1, prefix) == expand(s1[0], prefix) + flatten(rest, prefix));
            assert(flatten(s, prefix) == expand(s[0], prefix) + (expand(s1[0], prefix) + flatten(
                rest,
                prefix,
            )));
            assert(flatten(s, prefix) =~= expand(p.0, prefix) + expand(p.1, prefix) + flatten(
                rest,
                prefix,
            ));
        } else {
            let rest = s.subrange(1, n);
            assert forall|i: int| 0 <= i < rest.len() implies below(#[trigger] rest[i], k) by {
                assert(rest[i] == s[i + 1]);
            }
            lemma_replaced_flatten(rest, table);
            lemma_expand_prefix(s[0], table, k);
            let out = replaced(s, p, synth(k));
            assert(out.subrange(1, out.len() as int) =~= replaced(rest, p, synth(k)));
        }
    }
}

proof fn lemma_apply_below(s: Seq<char>, table: Seq<(char, char)>)
    requires
        all_original(s),
        table.len() <= 0x10000,
    ensures
        all_below(apply_merges(s, table), table.len() as int),
    decreases table.len(),
{
    if table.len() == 0 {
        assert forall|i: int| 0 <= i < s.len() implies below(#[trigger] s[i], 0) by {
            assert(!is_reserved(s[i]));
        }
    } else {
        let k = table.len() - 1;
        lemma_apply_below(s, table.subrange(0, k));
        lemma_replaced_below(apply_merges(s, table.subrange(0, k)), table[k], k);
    }
}

/// Decoding is lossless: after any merges recorded in `table`, expanding each
/// symbol of the merged text against `table` gives back the original text.
pub proof fn lemma_round_trip(s: Seq<char>, table: Seq<(char, char)>)
    requires
        all_original(s),
        table.len() <= 0x10000,
    ensures
        flatten(apply_merges(s, table), table) == s,
    decreases table.len(),
{
    if table.len() == 0 {
        lemma_flatten_identity(s);
        assert(table =~= Seq::<(char, char)>::empty());
    } else {
        let k = table.len() - 1;
        let prefix = table.subrange(0, k);
        lemma_round_trip(s, prefix);
        lemma_apply_below(s, prefix);
        lemma_replaced_flatten(apply_merges(s, prefix), table);
        assert(apply_merges(s, table) == replaced(apply_merges(s, prefix), table[k], synth(k)));
    }
}

/// Lossless at every stage: the text after the first `m` merges of `table`,
/// decoded against the whole table, is the original text.
pub proof fn lemma_round_trip_every_prefix(s: Seq<char>, table: Seq<(char, char)>, m: int)
    requires
        all_original(s),
        table.len() <= 0x10000,
        0 <= m <= table.len(),
    ensures
        flatten(apply_merges(s, table.subrange(0, m)), table) == s,
        flatten(apply_merges(s, table.subrange(0, m)), table.subrange(0, m)) == s,
{
    let prefix = table.subrange(0, m);
    lemma_round_trip(s, prefix);
    lemma_apply_below(s, prefix);
    lemma_flatten_prefix(apply_merges(s, prefix), table, m);
}

proof fn lemma_flatten_identity(s: Seq<char>)
    requires
        all_original(s),
    ensures
        flatten(s, Seq::empty()) == s,
    decreases s.len(),
{
    if s.len() > 0 {
        let rest = s.subrange(1, s.len() as int);
        assert forall|i: int| 0 <= i < rest.len() implies !is_reserved(#[trigger] rest[i]) by {
            assert(rest[i] == s[i + 1]);
        }
        lemma_flatten_identity(rest);
        assert(s =~= seq![s[0]] + rest);
    }
}

/// Whether `text` holds a symbol of the reserved range, which decoding would
/// mistake for a merge.
pub fn has_reserved_symbols(text: &str) -> (r: bool)
    ensures
        r == !all_original(text@),
{
    let chars = to_symbols(text);
    let mut i: usize = 0;
    while i < chars.len()
        invariant
            i <= chars@.len(),
            chars@ == text@,
            forall|j: int| 0 <= j < i ==> !is_reserved(#[trigger] chars@[j]),
        decreases chars@.len() - i,
    {
        if chars[i] as u32 >= SYNTHETIC_BASE {
            return true;
        }
        i = i + 1;
    }
    false
}

/// Appends to `out` what `c` stands for under the first `limit` merges of `table`.
fn expand_into(c: char, table: &Vec<(char, char)>, limit: usize, out: &mut Vec<char>)
    requires
        limit <= table@.len(),
    ensures
        final(out)@ == old(out)@ + expand(c, table@.subrange(0, limit as int)),
    decreases limit,
{
    let code = c as u32;
    if code >= SYNTHETIC_BASE && ((code - SYNTHETIC_BASE) as usize) < limit {
        let k = (code - SYNTHETIC_BASE) as usize;
        let (a, b) = table[k];
        let ghost before = out@;
        proof {
            assert(table@.subrange(0, limit as int).subrange(0, k as int) =~= table@.subrange(
                0,
                k as int,
            ));
        }
        expand_into(a, table, k, out);
        expand_into(b, table, k, out);
        assert(out@ =~= before + expand(c, table@.subrange(0, limit as int)));
    } else {
        out.push(c);
    }
}

/// The original symbols that `c` stands for under `table`.
pub fn expand_symbol(c: char, table: &Vec<(char, char)>) -> (r: Vec<char>)
    ensures
        r@ == expand(c, table@),
{
    let mut out: Vec<char> = Vec::new();
    expand_into(c, table, table.len(), &mut out);
    assert(table@.subrange(0, table@.len() as int) =~= table@);
    assert(out@ =~= expand(c, table@));
    out
}

/// The original text that `text` stands for under `table`: the expansions of
/// its symbols, in order.
pub fn decode(text: &Vec<char>, table: &Vec<(char, char)>) -> (r: Vec<char>)
    ensures
        r@ == flatten(text@, table@),
{
    let n = text.len();
    let mut out: Vec<char> = Vec::new();
    let mut i: usize = 0;
    assert(text@.subrange(0, n as int) =~= text@);
    assert(table@.subrange(0, table@.len() as int) =~= table@);
    while i < n
        invariant
            n == text@.len(),
            i <= n,
            table@.subrange(0, table@.len() as int) == table@,
            out@ + flatten(text@.subrange(i as int, n as int), table@) == flatten(text@, table@),
        decreases n - i,
    {
        let ghost before = out@;
        let ghost rest = text@.subrange(i as int, n as int);
        assert(rest.subrange(1, rest.len() as int) =~= text@.subrange(i + 1, n as int));
        expand_into(text[i], table, table.len(), &mut out);
        assert(before + flatten(rest, table@) =~= out@ + flatten(
            text@.subrange(i + 1, n as int),
            table@,
        ));
        i = i + 1;
    }
    assert(out@ + flatten(text@.subrange(n as int, n as int), table@) =~= out@);
    out
}

/// What each merge of `table` stands for, in merge order: the expansions of
/// both symbols of its pair, between backticks.
pub fn pair_fragments(table: &Vec<(char, char)>) -> (r: Vec<String>)
    ensures
        r@.len() == table@.len(),
        forall|k: int|
            0 <= k < table@.len() ==> (#[trigger] r@[k])@ == seq!['`'] + expand(table@[k].0, table@)
                + expand(table@[k].1, table@) + seq!['`'],
{
    let mut lines: Vec<String> = Vec::new();
    let mut k: usize = 0;
    while k < table.len()
        invariant
            k <= table@.len(),
            lines@.len() == k,
            forall|j: int|
                0 <= j < k ==> (#[trigger] lines@[j])@ == seq!['`'] + expand(table@[j].0, table@)
                    + expand(table@[j].1, table@) + seq!['`'],
        decreases table@.len() - k,
    {
        let (a, b) = table[k];
        let mut line: Vec<char> = Vec::new();
        line.push('`');
        expand_into(a, table, table.len(), &mut line);
        expand_into(b, table, table.len(), &mut line);
        line.push('`');
        assert(table@.subrange(0, table@.len() as int) =~= table@);
        assert(line@ =~= seq!['`'] + expand(a, table@) + expand(b, table@) + seq!['`']);
        lines.push(from_symbols(&line));
        k = k + 1;
    }
    lines
}

} // verus!
