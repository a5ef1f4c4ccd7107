use std::collections::{HashMap, HashSet};

use phrase_matcher::matcher::{remove_subsets, PhraseMatcher};
use phrase_matcher::patterns::Patterns;
use phrase_matcher::vocab::{join_span, Vocabulary};

fn tokens(s: &str) -> Vec<String> {
    s.split_whitespace().map(|t| t.to_string()).collect()
}

fn lines(ls: &[&str]) -> Vec<Vec<String>> {
    ls.iter().map(|l| tokens(l)).collect()
}

fn sorted(mut v: Vec<String>) -> Vec<String> {
    v.sort();
    v
}

#[test]
fn corpus_vocab_scenario() {
    let corpus = lines(&["a b", "c"]);
    let m = PhraseMatcher::new(&corpus, None, 2);
    assert_eq!(m.vocab.lookup(&"a".to_string()), Some(1));
    assert_eq!(m.vocab.lookup(&"b".to_string()), Some(1));
    assert_eq!(m.vocab.lookup(&"c".to_string()), Some(1));
    let mut lens = m.patterns.lengths.clone();
    lens.sort();
    assert_eq!(lens, vec![1, 2]);
    let r = sorted(m.match_phrase(&tokens("a b c"), false));
    assert_eq!(r, vec!["a b".to_string(), "c".to_string()]);
    assert!(!r.contains(&"a".to_string()));
    assert!(!r.contains(&"b".to_string()));
    assert!(!r.contains(&"b c".to_string()));
}

#[test]
fn remove_subset_drops_contained_match() {
    let corpus = lines(&["a b c", "a"]);
    let m = PhraseMatcher::new(&corpus, None, 3);
    let all = sorted(m.match_phrase(&tokens("a b c"), false));
    assert_eq!(all, vec!["a".to_string(), "a b c".to_string()]);
    let kept = m.match_phrase(&tokens("a b c"), true);
    assert_eq!(kept, vec!["a b c".to_string()]);
}

#[test]
fn compiled_pattern_found_in_longer_sentence() {
    let corpus = lines(&["the quick fox", "lazy dog"]);
    let m = PhraseMatcher::new(&corpus, None, 5);
    let r = sorted(m.match_phrase(&tokens("see the quick fox jump over the lazy dog"), false));
    assert_eq!(r, vec!["lazy dog".to_string(), "the quick fox".to_string()]);
}

#[test]
fn counts_are_codes_in_corpus_mode() {
    let corpus = lines(&["x y x", "y x"]);
    let v = Vocabulary::build_vocab(&corpus);
    assert_eq!(v.lookup(&"x".to_string()), Some(3));
    assert_eq!(v.lookup(&"y".to_string()), Some(2));
    assert_eq!(v.lookup(&"z".to_string()), None);
    assert_eq!(v.len(), 2);
}

#[test]
fn vocab_file_mode_uses_first_tokens_in_order() {
    let vl = lines(&["x 10", "y 7", "", "x 3", "z"]);
    let v = Vocabulary::read_vocab(&vl);
    assert_eq!(v.lookup(&"x".to_string()), Some(0));
    assert_eq!(v.lookup(&"y".to_string()), Some(1));
    assert_eq!(v.lookup(&"z".to_string()), Some(2));
    assert_eq!(v.lookup(&"10".to_string()), None);
    assert_eq!(v.len(), 3);
}

#[test]
fn unresolvable_pattern_is_discarded() {
    let vl = lines(&["a"]);
    let corpus = lines(&["a b", "a"]);
    let m = PhraseMatcher::new(&corpus, Some(&vl), 4);
    assert_eq!(m.patterns.lengths, vec![1]);
    assert_eq!(m.patterns.b_ints, vec![0]);
    assert_eq!(m.patterns.e_ints, vec![0]);
    assert_eq!(m.patterns.checksums.len(), 1);
    let only_bad = lines(&["a b"]);
    let m2 = PhraseMatcher::new(&only_bad, Some(&vl), 4);
    assert!(m2.patterns.lengths.is_empty());
    assert!(m2.patterns.b_ints.is_empty());
    assert!(m2.patterns.e_ints.is_empty());
    assert!(m2.patterns.checksums.is_empty());
}

#[test]
fn long_patterns_are_skipped() {
    let corpus = lines(&["a b c", "d"]);
    let m = PhraseMatcher::new(&corpus, None, 2);
    assert_eq!(m.patterns.lengths, vec![1]);
    let r = m.match_phrase(&tokens("a b c d"), false);
    assert_eq!(r, vec!["d".to_string()]);
}

#[test]
fn out_of_vocabulary_token_blocks_span() {
    let corpus = lines(&["a b"]);
    let m = PhraseMatcher::new(&corpus, None, 2);
    let spans = m.candidate_spans(&tokens("a q b"));
    assert!(spans.is_empty());
    let spans = m.candidate_spans(&tokens("q a b"));
    assert_eq!(spans, vec![(1, 2)]);
}

#[test]
fn empty_sentence_and_empty_filter_give_nothing() {
    let corpus = lines(&["a b"]);
    let m = PhraseMatcher::new(&corpus, None, 2);
    assert!(m.match_phrase(&Vec::new(), false).is_empty());
    let empty = PhraseMatcher::from_parts(Vocabulary::build_vocab(&corpus), Patterns::new());
    assert!(empty.match_phrase(&tokens("a b"), false).is_empty());
}

#[test]
fn reduction_is_idempotent() {
    let c = vec![(0, 2), (0, 0), (1, 2), (3, 4), (3, 3), (2, 5)];
    let once = remove_subsets(&c);
    let twice = remove_subsets(&once);
    assert_eq!(once, vec![(0, 2), (2, 5)]);
    assert_eq!(once, twice);
}

#[test]
fn fletcher_exact_value() {
    let m = PhraseMatcher::from_parts(Vocabulary::new(), Patterns::new());
    assert_eq!(m.fletcher(&[1, 2, 3]), 6 * 256 + 10);
    assert_eq!(m.fletcher(&[]), 0);
    assert_eq!(m.fletcher(&[300]), 45 * 256 + 45);
}

#[test]
fn crc32_exact_value() {
    let m = PhraseMatcher::from_parts(Vocabulary::new(), Patterns::new());
    assert_eq!(m.crc32("123456789"), 0xCBF4_3926);
    assert_eq!(m.crc32(""), 0);
    assert_ne!(m.crc32("a b"), m.crc32("a c"));
}

#[test]
fn join_span_uses_single_spaces() {
    let t = tokens("one  two   three");
    assert_eq!(join_span(&t, 0, 3), "one two three".to_string());
    assert_eq!(join_span(&t, 1, 2), "two".to_string());
    assert_eq!(join_span(&t, 1, 1), "".to_string());
}

#[test]
fn persist_round_trip() {
    let corpus = lines(&["a b", "c", "b c d"]);
    let m = PhraseMatcher::new(&corpus, None, 3);
    let vocab: HashMap<String, usize> = m.vocab.entries.iter().cloned().collect();
    let sets: (HashSet<usize>, HashSet<usize>, HashSet<usize>, HashSet<(u32, u32)>) = (
        m.patterns.lengths.iter().copied().collect(),
        m.patterns.b_ints.iter().copied().collect(),
        m.patterns.e_ints.iter().copied().collect(),
        m.patterns.checksums.iter().copied().collect(),
    );
    let vb = bincode::serialize(&vocab).unwrap();
    let pb = bincode::serialize(&sets).unwrap();
    let vocab2: HashMap<String, usize> = bincode::deserialize(&vb).unwrap();
    let sets2: (HashSet<usize>, HashSet<usize>, HashSet<usize>, HashSet<(u32, u32)>) =
        bincode::deserialize(&pb).unwrap();
    assert_eq!(vocab, vocab2);
    assert_eq!(sets, sets2);
    let m2 = PhraseMatcher::from_parts(
        Vocabulary { entries: vocab2.into_iter().collect() },
        Patterns {
            lengths: sets2.0.into_iter().collect(),
            b_ints: sets2.1.into_iter().collect(),
            e_ints: sets2.2.into_iter().collect(),
            checksums: sets2.3.into_iter().collect(),
        },
    );
    let s = tokens("x a b c d");
    assert_eq!(sorted(m.match_phrase(&s, false)), sorted(m2.match_phrase(&s, false)));
}

#[test]
fn inverse_orders_tokens_by_code() {
    let corpus = lines(&["x y x", "y x z"]);
    let m = PhraseMatcher::new(&corpus, None, 3);
    assert_eq!(m.inv_vocab, vec!["x".to_string(), "y".to_string(), "z".to_string()]);
    let vl = lines(&["p", "q", "r"]);
    let v = Vocabulary::read_vocab(&vl);
    assert_eq!(v.inverse(), vec!["r".to_string(), "q".to_string(), "p".to_string()]);
}
