use bpe_tokenizer::model::{Bpe, BpeError, MergeRule};
use bpe_tokenizer::stats::{count_pairs, count_pairs_parallel, most_frequent_pair};
use bpe_tokenizer::symbols::{contains_pair, merge};
use bpe_tokenizer::text::{bytes_to_text, str2token};

fn trained(corpus: &str, epochs: usize) -> Bpe {
    let mut b = Bpe::new();
    assert_eq!(b.learn_ids(corpus, epochs), Ok(()));
    b
}

#[test]
fn merge_collapses_leftmost_non_overlapping() {
    assert_eq!(merge(&vec![1, 1, 1], (1, 1), 300), vec![300, 1]);
    assert_eq!(merge(&vec![1, 2, 3, 1, 2], (1, 2), 256), vec![256, 3, 256]);
    assert_eq!(merge(&vec![], (1, 2), 256), Vec::<u32>::new());
}

#[test]
fn merge_without_the_pair_is_unchanged() {
    let ids = vec![5, 4, 3, 2, 1];
    assert!(!contains_pair(&ids, (1, 2)));
    assert_eq!(merge(&ids, (1, 2), 256), ids);
}

#[test]
fn counts_adjacent_pairs() {
    let c = count_pairs(&vec![97, 97, 97, 98]);
    let mut got: Vec<((u32, u32), usize)> = c.iter().map(|e| (e.pair, e.count)).collect();
    got.sort();
    assert_eq!(got, vec![((97, 97), 2), ((97, 98), 1)]);
    assert!(count_pairs(&vec![7]).is_empty());
}

#[test]
fn ties_go_to_the_smallest_pair() {
    assert_eq!(most_frequent_pair(&vec![3, 2, 1, 0]), Some((1, 0)));
    assert_eq!(most_frequent_pair(&vec![9, 9, 9, 1, 2, 1, 2]), Some((1, 2)));
    assert_eq!(most_frequent_pair(&vec![4]), None);
}

#[test]
fn learns_aaab() {
    let b = trained("aaab", 1);
    assert_eq!(b.merge_rules(), vec![MergeRule { left: 97, right: 97, id: 256 }]);
    assert_eq!(b.encode("aaab"), vec![256, 97, 98]);
    let d = b.decode(&vec![256, 97, 98]).unwrap();
    assert_eq!(d.text, "aaab");
    assert!(!d.lossy);
}

#[test]
fn ids_count_up_from_256() {
    let b = trained("the cat sat on the mat with the hat", 6);
    let rules = b.merge_rules();
    assert_eq!(rules.len(), 6);
    for (k, r) in rules.iter().enumerate() {
        assert_eq!(r.id, 256 + k as u32);
    }
}

#[test]
fn expansions_concatenate() {
    let b = trained("abababab abab", 3);
    for i in 0..256u32 {
        assert_eq!(b.expansion(i), Some(vec![i as u8]));
    }
    for r in b.merge_rules() {
        let mut want = b.expansion(r.left).unwrap();
        want.extend(b.expansion(r.right).unwrap());
        assert_eq!(b.expansion(r.id), Some(want));
    }
    assert_eq!(b.expansion(256 + 3), None);
}

#[test]
fn round_trip_ascii() {
    let corpus = "low lower lowest newer newest wider";
    let b = trained(corpus, 10);
    let ids = b.encode(corpus);
    assert!(ids.len() < corpus.len());
    let d = b.decode(&ids).unwrap();
    assert_eq!(d.text, corpus);
    assert!(!d.lossy);
}

#[test]
fn training_is_deterministic() {
    let a = trained("banana bandana cabana", 5);
    let b = trained("banana bandana cabana", 5);
    assert_eq!(a.merge_rules(), b.merge_rules());
    for id in 0..(256 + 5) {
        assert_eq!(a.expansion(id), b.expansion(id));
    }
}

#[test]
fn earlier_merges_win() {
    let mut b = Bpe::new();
    // Learns (97, 98) first, then (98, 99).
    assert_eq!(b.train_bytes(&b"ababab bc".to_vec(), 1), Ok(()));
    let mut c = Bpe::new();
    assert_eq!(c.train_bytes(&b"ababab bcbcbcbc".to_vec(), 2), Ok(()));
    let rules = c.merge_rules();
    assert_eq!((rules[0].left, rules[0].right), (98, 99));
    assert_eq!((rules[1].left, rules[1].right), (97, 98));
    // In "abc" both pairs stand; rank 0 (98, 99) is merged first.
    assert_eq!(c.encode_ids(&b"abc".to_vec()), vec![97, 256]);
    assert_eq!(b.encode_ids(&b"abc".to_vec()), vec![256, 99]);
}

#[test]
fn training_stops_when_no_pair_is_left() {
    let b = trained("aa", 5);
    assert_eq!(b.num_merges(), 1);
    let e = trained("", 3);
    assert_eq!(e.num_merges(), 0);
    assert_eq!(e.encode(""), Vec::<u32>::new());
    assert_eq!(e.decode(&vec![]).unwrap().text, "");
}

#[test]
fn too_many_epochs_are_refused() {
    let mut b = trained("aaab", 1);
    assert_eq!(b.learn_ids("aaab", 5_000_000_000), Err(BpeError::CapacityExceeded));
    assert_eq!(b.num_merges(), 1);
}

#[test]
fn unknown_id_is_reported() {
    let b = trained("aaab", 1);
    assert_eq!(b.decode(&vec![97, 300, 400]).err(), Some(BpeError::UnknownId(300)));
    assert_eq!(b.decode_ids(&vec![257]), Err(BpeError::UnknownId(257)));
}

#[test]
fn invalid_utf8_is_flagged() {
    let b = Bpe::new();
    let d = b.decode(&vec![104, 255, 105]).unwrap();
    assert!(d.lossy);
    assert_eq!(d.text, "h\u{FFFD}i");
    let ok = bytes_to_text(&"héllo".as_bytes().to_vec());
    assert!(!ok.lossy);
    assert_eq!(ok.text, "héllo");
}

#[test]
fn segmentation_keeps_words_and_spaces() {
    let words = vec!["ab".to_string(), " ".to_string(), "é".to_string()];
    assert_eq!(str2token(&words), vec![97, 98, 32, 0xC3, 0xA9]);
    let b = Bpe::new();
    // Punctuation is neither a word nor whitespace run.
    assert_eq!(b.encode("hi, yo"), vec![104, 105, 32, 121, 111]);
}

#[test]
fn legacy_decode_undoes_merges() {
    let b = trained("aaab", 1);
    assert_eq!(b.decode_bpe_tokens(&vec![256, 97, 98]), "aaab");
    let c = trained("abab abab", 3);
    let ids = c.encode("abab abab");
    assert_eq!(c.decode_bpe_tokens(&ids), "abab abab");
    // Bytes are read one character each; unknown ids become U+FFFD.
    assert_eq!(Bpe::new().decode_bpe_tokens(&vec![0xC3, 0xA9, 900]), "Ã©\u{FFFD}");
}

#[test]
fn parallel_counts_match_sequential_counts() {
    let mut ids: Vec<u32> = Vec::new();
    let mut x: u32 = 7;
    for _ in 0..200_003 {
        x = x.wrapping_mul(1_103_515_245).wrapping_add(12_345);
        ids.push((x >> 16) % 5);
    }
    let mut seq: Vec<((u32, u32), usize)> = count_pairs(&ids).iter().map(|e| (e.pair, e.count)).collect();
    let mut par: Vec<((u32, u32), usize)> =
        count_pairs_parallel(&ids).iter().map(|e| (e.pair, e.count)).collect();
    seq.sort();
    par.sort();
    assert_eq!(seq, par);
    let total: usize = par.iter().map(|e| e.1).sum();
    assert_eq!(total, ids.len() - 1);
    assert!(count_pairs_parallel(&vec![1]).is_empty());
}
