use bytepair::{
    best_prefix_len, decode, expand_symbol, has_reserved_symbols, iterate, opti_search,
    pair_fragments, GreedySearch, Proposal,
};

fn table_cost(table_len: usize) -> f64 {
    let n = table_len as f64;
    n * 2.0 * (30.0 + n).log2()
}

fn text_cost(text_len: usize, table_len: usize) -> f64 {
    (text_len as f64) * ((30 + table_len) as f64).log2()
}

fn run_greedy(text: &str) -> (GreedySearch, Vec<f64>) {
    let mut g = GreedySearch::new(text);
    let mut costs = Vec::new();
    while !g.stopped {
        match g.propose() {
            Proposal::Candidate(new_len) => {
                let n = g.table.len();
                let candidate = table_cost(n + 1) + text_cost(new_len, n + 1);
                let current = table_cost(n) + text_cost(g.text.len(), n);
                costs.push(candidate);
                g.resolve(candidate < current);
            }
            _ => g.resolve(false),
        }
    }
    (g, costs)
}

#[test]
fn original_symbols_expand_to_themselves() {
    let table = vec![('a', 'b'), ('\u{F0000}', 'c')];
    for c in ['a', 'z', ' ', '.', '\u{E9}', '\u{EFFFF}'] {
        assert_eq!(expand_symbol(c, &table), vec![c]);
        assert_eq!(expand_symbol(c, &Vec::new()), vec![c]);
    }
}

#[test]
fn synthetic_symbols_expand_recursively() {
    let table = vec![('a', 'b'), ('\u{F0000}', 'c'), ('\u{F0001}', '\u{F0000}')];
    assert_eq!(expand_symbol('\u{F0002}', &table), vec!['a', 'b', 'c', 'a', 'b']);
    assert_eq!(expand_symbol('\u{F0003}', &table), vec!['\u{F0003}']);
    assert_eq!(
        pair_fragments(&table),
        vec!["`ab`".to_string(), "`abc`".to_string(), "`abcab`".to_string()]
    );
}

#[test]
fn decoding_is_lossless_at_every_stage() {
    let text = "the quick brown fox jumps over the lazy dog the the the quick quick brown";
    let full = iterate(text, 20);
    let source: Vec<char> = text.chars().collect();
    for m in 0..=20u16 {
        let run = iterate(text, m);
        assert_eq!(decode(&run.text, &run.table), source);
        assert_eq!(decode(&run.text, &full.table), source);
    }
}

#[test]
fn runs_are_deterministic() {
    let text = "banana bandana cabana banana";
    let a = iterate(text, 12);
    let b = iterate(text, 12);
    assert_eq!(a.table, b.table);
    assert_eq!(a.text, b.text);
    assert_eq!(a.lengths, b.lengths);
    let (g1, c1) = run_greedy(text);
    let (g2, c2) = run_greedy(text);
    assert_eq!(g1.table, g2.table);
    assert_eq!(c1, c2);
}

#[test]
fn fixed_strategy_with_no_budget_changes_nothing() {
    let run = iterate("hello hello world", 0);
    assert!(run.table.is_empty());
    assert!(run.lengths.is_empty());
    assert_eq!(run.text, "hello hello world".chars().collect::<Vec<char>>());
}

#[test]
fn fixed_strategy_records_each_merge() {
    let run = iterate("hello hello world", 3);
    assert_eq!(run.table, vec![('h', 'e'), ('\u{F0000}', 'l'), ('\u{F0001}', 'l')]);
    assert_eq!(run.lengths, vec![15, 13, 11]);
    assert_eq!(run.text.iter().collect::<String>(), "\u{F0002}o \u{F0002}o world");
}

#[test]
fn fixed_strategy_stops_when_no_pair_is_left() {
    let run = iterate("ab ab", 10);
    assert_eq!(run.table, vec![('a', 'b')]);
    assert_eq!(run.text.iter().collect::<String>(), "\u{F0000} \u{F0000}");
}

#[test]
fn bounded_search_keeps_everything_while_cost_falls() {
    let costs: Vec<i64> = vec![100, 90, 80, 75, 74];
    assert_eq!(best_prefix_len(&costs), 5);
    let table = vec![('a', 'b'), ('c', 'd'), ('e', 'f'), ('g', 'h'), ('i', 'j')];
    assert_eq!(opti_search(&table, &costs), table);
}

#[test]
fn bounded_search_takes_first_least_cost() {
    assert_eq!(best_prefix_len(&vec![]), 0);
    assert_eq!(best_prefix_len(&vec![5, 3, 4, 3, 9]), 2);
    assert_eq!(best_prefix_len(&vec![-1, 0, -1]), 1);
    let table = vec![('a', 'b'), ('c', 'd'), ('e', 'f')];
    assert_eq!(opti_search(&table, &vec![7, 6, 8]), vec![('a', 'b'), ('c', 'd')]);
    assert_eq!(opti_search(&table, &vec![]), vec![]);
}

#[test]
fn greedy_without_repeated_pairs_accepts_nothing() {
    let (g, costs) = run_greedy("abcdefg hijk");
    assert!(g.table.is_empty());
    assert_eq!(g.text, "abcdefg hijk".chars().collect::<Vec<char>>());
    assert_eq!(costs.len(), 1);
    let (g2, costs2) = run_greedy("... ,,,");
    assert!(g2.table.is_empty());
    assert!(costs2.is_empty());
}

#[test]
fn greedy_commits_only_improving_merges() {
    let mut text = String::new();
    for _ in 0..50 {
        text.push_str("abcabc ");
    }
    let (g, costs) = run_greedy(&text);
    assert_eq!(g.table, vec![('a', 'b'), ('\u{F0000}', 'c'), ('\u{F0001}', '\u{F0001}')]);
    assert_eq!(costs.len(), 3);
    assert!(costs[0] > costs[1] && costs[1] > costs[2]);
    let run = iterate(&text, g.table.len() as u16);
    assert_eq!(run.table, g.table);
    assert_eq!(run.text, g.text);
}

#[test]
fn greedy_resolve_without_improvement_stops() {
    let mut g = GreedySearch::new("abab");
    assert!(matches!(g.propose(), Proposal::Candidate(2)));
    g.resolve(false);
    assert!(g.stopped);
    assert!(g.table.is_empty());
    let mut h = GreedySearch::new("abab");
    assert!(matches!(h.propose(), Proposal::Candidate(2)));
    h.resolve(true);
    assert!(!h.stopped);
    assert_eq!(h.table, vec![('a', 'b')]);
    assert!(matches!(h.propose(), Proposal::Candidate(1)));
}

#[test]
fn reserved_symbols_in_input_are_detected() {
    assert!(!has_reserved_symbols("plain text, \u{E9}t\u{E9}"));
    assert!(!has_reserved_symbols(""));
    assert!(has_reserved_symbols("abc\u{F0000}"));
    assert!(has_reserved_symbols("\u{10FFFF}"));
}
