use bytepair::{find_common_byte_pair, merge_step, most_common_pair, replace_pair, synthetic_symbol};

fn naive_best(chars: &[char]) -> Option<(char, char)> {
    let qualifies = |c: char| !(c.is_whitespace() || c.is_ascii_punctuation());
    let mut seen: Vec<((char, char), usize)> = Vec::new();
    for w in chars.windows(2) {
        if qualifies(w[0]) && qualifies(w[1]) {
            let p = (w[0], w[1]);
            match seen.iter_mut().find(|e| e.0 == p) {
                Some(e) => e.1 += 1,
                None => seen.push((p, 1)),
            }
        }
    }
    let mut best: Option<((char, char), usize)> = None;
    for e in seen {
        if best.map_or(true, |b| e.1 > b.1) {
            best = Some(e);
        }
    }
    best.map(|b| b.0)
}

#[test]
fn test_find_common_byte_pair() {
    let text = "hello hello world";
    let ((a, b), result) = find_common_byte_pair(text, 0);
    assert!(a != '\0' && b != '\0');
    assert!(result.chars().count() < text.chars().count());
}

#[test]
fn test_parallelization_produces_same_results() {
    let text = "the quick brown fox jumps over the lazy dog the the the quick quick brown";
    let ((a1, b1), result1) = find_common_byte_pair(text, 0);
    let ((a2, b2), result2) = find_common_byte_pair(text, 0);
    assert_eq!(a1, a2);
    assert_eq!(b1, b2);
    assert_eq!(result1, result2);
}

#[test]
fn test_parallelization_with_large_text() {
    let mut large_text = String::new();
    for _ in 0..1000 {
        large_text.push_str("hello world this is a test of parallel processing ");
    }
    let ((a, b), result) = find_common_byte_pair(&large_text, 0);
    assert!(a != '\0' && b != '\0');
    assert!(result.chars().count() < large_text.chars().count());
}

#[test]
fn hello_scenario_selects_first_seen_of_most_frequent() {
    let text = "hello hello world";
    let ((a, b), result) = find_common_byte_pair(text, 0);
    assert_eq!((a, b), ('h', 'e'));
    assert!(!a.is_whitespace() && !a.is_ascii_punctuation());
    assert!(!b.is_whitespace() && !b.is_ascii_punctuation());
    assert_eq!(result, "\u{F0000}llo \u{F0000}llo world");
    assert_eq!(result.chars().count(), 15);
}

#[test]
fn overlapping_occurrences_resolve_left_to_right() {
    let ((a, b), result) = find_common_byte_pair("aaa", 3);
    assert_eq!((a, b), ('a', 'a'));
    assert_eq!(result, "\u{F0003}a");
}

#[test]
fn most_frequent_pair_wins_over_earlier_pair() {
    let ((a, b), result) = find_common_byte_pair("xy ab ab ab", 1);
    assert_eq!((a, b), ('a', 'b'));
    assert_eq!(result, "xy \u{F0001} \u{F0001} \u{F0001}");
}

#[test]
fn empty_text_reports_no_pair() {
    let ((a, b), result) = find_common_byte_pair("", 0);
    assert_eq!((a, b), ('\0', '\0'));
    assert_eq!(result, "");
}

#[test]
fn whitespace_and_punctuation_never_merge() {
    let text = "a b. c, d!";
    let ((a, b), result) = find_common_byte_pair(text, 0);
    assert_eq!((a, b), ('\0', '\0'));
    assert_eq!(result, text);
    assert!(merge_step(&text.chars().collect(), 0).is_none());
}

#[test]
fn unicode_whitespace_is_not_merged() {
    let chars: Vec<char> = "a\u{3000}b\u{3000}a\u{3000}b".chars().collect();
    assert_eq!(most_common_pair(&chars), None);
}

#[test]
fn merge_step_never_lengthens_text() {
    for text in ["", "a", "ab", "abab", "hello hello world", "x.y z", "aaaa"] {
        let chars: Vec<char> = text.chars().collect();
        let ((_, _), out) = find_common_byte_pair(text, 7);
        assert!(out.chars().count() <= chars.len());
        if let Some(m) = merge_step(&chars, 7) {
            assert!(m.text.len() < chars.len());
        }
    }
}

#[test]
fn large_text_counts_agree_with_a_sequential_count() {
    let mut text = String::new();
    for i in 0..3000 {
        text.push_str(if i % 3 == 0 { "banana split " } else { "hello world this is a test " });
    }
    let chars: Vec<char> = text.chars().collect();
    assert!(chars.len() > 3 * 10000);
    assert_eq!(most_common_pair(&chars), naive_best(&chars));
}

#[test]
fn pairs_across_stretch_boundaries_are_counted() {
    let mut chars: Vec<char> = vec!['-'; 9999];
    chars.push('q');
    chars.push('z');
    for _ in 0..30000 {
        chars.push('-');
    }
    chars.extend("mn mn".chars());
    assert_eq!(most_common_pair(&chars), Some(('m', 'n')));
    let mut chars2: Vec<char> = vec!['-'; 9999];
    chars2.push('q');
    chars2.push('z');
    chars2.push('-');
    chars2.push('q');
    chars2.push('z');
    for _ in 0..30000 {
        chars2.push('-');
    }
    chars2.extend("mn".chars());
    assert_eq!(most_common_pair(&chars2), Some(('q', 'z')));
}

#[test]
fn replace_pair_replaces_every_match() {
    let s: Vec<char> = "abcabxab".chars().collect();
    let out = replace_pair(&s, ('a', 'b'), '#');
    assert_eq!(out.iter().collect::<String>(), "#c#x#");
}

#[test]
fn synthetic_symbols_sit_in_the_reserved_range() {
    assert_eq!(synthetic_symbol(0), '\u{F0000}');
    assert_eq!(synthetic_symbol(5), '\u{F0005}');
    assert_eq!(synthetic_symbol(u16::MAX), '\u{FFFFF}');
}
