use bpe_tokenizer::words::{get_stats, get_vocab, learn, merge_word, most_frequent_word_pair, WordSymbols};

fn table(r: &[bpe_tokenizer::words::WordCount]) -> Vec<(String, usize)> {
    r.iter().map(|e| (e.word.clone(), e.count)).collect()
}

fn strings(ws: &[&str]) -> Vec<String> {
    ws.iter().map(|w| w.to_string()).collect()
}

fn syms(ws: &[&str]) -> Vec<Vec<char>> {
    ws.iter().map(|w| w.chars().collect()).collect()
}

#[test]
fn low_lowest_two_epochs() {
    let r = learn(&strings(&["low", "low", "lowest"]), 2);
    assert_eq!(table(&r), vec![("low".to_string(), 2), ("low e s t".to_string(), 1)]);
}

#[test]
fn low_lowest_one_epoch() {
    let r = learn(&strings(&["low", "low", "lowest"]), 1);
    assert_eq!(table(&r), vec![("lo w".to_string(), 2), ("lo w e s t".to_string(), 1)]);
}

#[test]
fn zero_epochs_split_into_characters() {
    let r = learn(&strings(&["ab", "c", "ab"]), 0);
    assert_eq!(table(&r), vec![("a b".to_string(), 2), ("c".to_string(), 1)]);
    assert!(learn(&Vec::new(), 3).is_empty());
}

#[test]
fn training_stops_when_words_are_single_symbols() {
    let r = learn(&strings(&["ab", "ab"]), 5);
    assert_eq!(table(&r), vec![("ab".to_string(), 2)]);
}

#[test]
fn counts_words_in_first_occurrence_order() {
    let v = get_vocab(&strings(&["b", "a", "b", "b"]));
    assert_eq!(table(&v), vec![("b".to_string(), 3), ("a".to_string(), 1)]);
}

#[test]
fn pair_counts_are_weighted_by_word_count() {
    let v = vec![
        WordSymbols { symbols: syms(&["x", "y", "x", "y"]), count: 3 },
        WordSymbols { symbols: syms(&["y", "x"]), count: 5 },
    ];
    let mut got: Vec<(String, String, usize)> = get_stats(&v)
        .iter()
        .map(|e| (e.left.iter().collect(), e.right.iter().collect(), e.count))
        .collect();
    got.sort();
    assert_eq!(
        got,
        vec![("x".to_string(), "y".to_string(), 6), ("y".to_string(), "x".to_string(), 8)]
    );
    let best = most_frequent_word_pair(&v).unwrap();
    assert_eq!((best.0, best.1), (vec!['y'], vec!['x']));
}

#[test]
fn word_pair_ties_go_to_the_first_pair() {
    let v = vec![WordSymbols { symbols: syms(&["c", "b", "a"]), count: 1 }];
    let best = most_frequent_word_pair(&v).unwrap();
    assert_eq!((best.0, best.1), (vec!['b'], vec!['a']));
    let lone = vec![WordSymbols { symbols: syms(&["abc"]), count: 4 }];
    assert!(most_frequent_word_pair(&lone).is_none());
}

#[test]
fn merge_keeps_unpaired_symbols() {
    let merged = merge_word(&syms(&["a", "b", "b", "a", "b"]), &vec!['a'], &vec!['b']);
    assert_eq!(merged, syms(&["ab", "b", "ab"]));
    let overlapping = merge_word(&syms(&["a", "a", "a"]), &vec!['a'], &vec!['a']);
    assert_eq!(overlapping, syms(&["aa", "a"]));
}
