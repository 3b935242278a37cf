//! Properties of the model stated over its specification.

use vstd::prelude::*;
use vstd::utf8::{valid_utf8, encode_utf8};
use crate::symbols::{SymbolPair, merge_seq, has_pair, lemma_merge_bounded, lemma_merge_len};
use crate::text::{words_bytes, word_runs};
use crate::model::{
    Bpe, learned_id, ids_of, vocab_of, expand, train_pairs, first_rank, encode_seq, MAX_MERGES,
    lemma_vocab_len, lemma_merge_expand, lemma_expand_bytes, lemma_first_rank_unique,
};

verus! {

/// Learned ids are exactly 256, 257, ... in rank order, one per merge, and no
/// two merges share an id.
pub proof fn lemma_ids_monotonic(b: &Bpe)
    requires
        b.wf(),
    ensures
        b.merge_ids().len() == b.merge_pairs().len(),
        forall|k: int| 0 <= k < b.merge_ids().len() ==> #[trigger] b.merge_ids()[k] == 256 + k,
        forall|x: int, y: int|
            0 <= x < y < b.merge_ids().len() ==> #[trigger] b.merge_ids()[x] != #[trigger] b.merge_ids()[y],
{
    b.lemma_wf();
    assert forall|k: int| 0 <= k < b.merge_ids().len() implies #[trigger] b.merge_ids()[k] == 256 + k by {
        assert(b.merge_ids()[k] == learned_id(k as nat));
    }
}

/// Entries of `vocab_of(m)` below `256 + k` do not depend on merges of rank `k`
/// or later.
proof fn lemma_vocab_prefix(m: Seq<SymbolPair>, k: int, j: int)
    requires
        0 <= k <= m.len(),
        0 <= j < 256 + k,
    ensures
        vocab_of(m)[j] == vocab_of(m.subrange(0, k))[j],
    decreases m.len(),
{
    if k < m.len() {
        let t = m.drop_last();
        lemma_vocab_len(t);
        lemma_vocab_prefix(t, k, j);
        assert(t.subrange(0, k) =~= m.subrange(0, k));
    } else {
        assert(m.subrange(0, k) =~= m);
    }
}

/// Each raw byte expands to itself, and each learned id to the expansion of its
/// left symbol followed by that of its right symbol.
pub proof fn lemma_expansions(b: &Bpe)
    requires
        b.wf(),
    ensures
        b.byte_vocab().len() == 256 + b.merge_pairs().len(),
        forall|i: int| 0 <= i < 256 ==> #[trigger] b.byte_vocab()[i] == seq![i as u8],
        forall|k: int|
            0 <= k < b.merge_pairs().len() ==> #[trigger] b.byte_vocab()[256 + k] == b.byte_vocab()[b.merge_pairs()[k].0 as int]
                + b.byte_vocab()[b.merge_pairs()[k].1 as int],
{
    b.lemma_wf();
    let m = b.merge_pairs();
    lemma_vocab_len(m);
    assert forall|i: int| 0 <= i < 256 implies #[trigger] b.byte_vocab()[i] == seq![i as u8] by {
        lemma_vocab_prefix(m, 0, i);
    }
    assert forall|k: int| 0 <= k < m.len() implies #[trigger] b.byte_vocab()[256 + k] == b.byte_vocab()[m[k].0 as int]
        + b.byte_vocab()[m[k].1 as int] by {
        assert(b.merge_ids()[k] == learned_id(k as nat));
        let pre = m.subrange(0, k + 1);
        lemma_vocab_prefix(m, k + 1, 256 + k);
        assert(pre.drop_last() =~= m.subrange(0, k));
        lemma_vocab_len(m.subrange(0, k));
        lemma_vocab_prefix(m, k, m[k].0 as int);
        lemma_vocab_prefix(m, k, m[k].1 as int);
    }
}

/// Encoding keeps the flat byte expansion and uses only known ids.
proof fn lemma_encode_expand(b: &Bpe, s: Seq<u32>)
    requires
        b.wf(),
        forall|i: int| 0 <= i < s.len() ==> s[i] < 256 + b.merge_pairs().len(),
    ensures
        expand(b.byte_vocab(), encode_seq(b.merge_pairs(), s)) == expand(b.byte_vocab(), s),
        forall|i: int|
            0 <= i < encode_seq(b.merge_pairs(), s).len() ==> encode_seq(b.merge_pairs(), s)[i] < 256
                + b.merge_pairs().len(),
    decreases s.len(),
{
    let m = b.merge_pairs();
    if exists|k: int| first_rank(m, s, k) {
        let k = choose|k: int| first_rank(m, s, k);
        let id = learned_id(k as nat);
        let t = merge_seq(s, m[k], id);
        lemma_merge_len(s, m[k], id);
        b.lemma_wf();
        lemma_expansions(b);
        assert(b.byte_vocab()[256 + k] == b.byte_vocab()[m[k].0 as int] + b.byte_vocab()[m[k].1 as int]);
        lemma_merge_expand(b.byte_vocab(), s, m[k], id);
        lemma_merge_bounded(s, m[k], id, 256 + m.len() as int);
        lemma_encode_expand(b, t);
    }
}

/// Decoding the encoding of a byte sequence gives the bytes back: every id of
/// the encoding is known, and their expansions concatenate to the input.
pub proof fn lemma_round_trip(b: &Bpe, bytes: Seq<u8>)
    requires
        b.wf(),
    ensures
        forall|i: int|
            0 <= i < encode_seq(b.merge_pairs(), ids_of(bytes)).len() ==> #[trigger] encode_seq(
                b.merge_pairs(),
                ids_of(bytes),
            )[i] < 256 + b.merge_pairs().len(),
        expand(b.byte_vocab(), encode_seq(b.merge_pairs(), ids_of(bytes))) == bytes,
{
    lemma_expansions(b);
    lemma_expand_bytes(b.byte_vocab(), bytes);
    lemma_encode_expand(b, ids_of(bytes));
}

/// Two models trained on the same bytes for the same number of epochs have the
/// same merge table, the same ids and the same byte vocabulary.
pub proof fn lemma_training_deterministic(a: &Bpe, b: &Bpe, bytes: Seq<u8>, epochs: nat)
    requires
        a.wf(),
        b.wf(),
        a.merge_pairs() == train_pairs(ids_of(bytes), epochs, 0),
        b.merge_pairs() == train_pairs(ids_of(bytes), epochs, 0),
    ensures
        a.merge_pairs() == b.merge_pairs(),
        a.merge_ids() == b.merge_ids(),
        a.byte_vocab() == b.byte_vocab(),
{
    a.lemma_wf();
    b.lemma_wf();
    assert(a.merge_ids() =~= b.merge_ids());
}

/// Some present rank at or below `j` is the lowest present rank.
proof fn lemma_first_rank_exists(m: Seq<SymbolPair>, s: Seq<u32>, j: int)
    requires
        0 <= j < m.len(),
        has_pair(s, m[j]),
    ensures
        exists|r: int| r <= j && first_rank(m, s, r),
    decreases j,
{
    if exists|i: int| 0 <= i < j && has_pair(s, #[trigger] m[i]) {
        let i = choose|i: int| 0 <= i < j && has_pair(s, #[trigger] m[i]);
        lemma_first_rank_exists(m, s, i);
    } else {
        assert(first_rank(m, s, j));
    }
}

/// When the pairs of ranks `j < k` both stand in `s`, encoding first merges a
/// pair of rank at most `j`, never the pair of rank `k`.
pub proof fn lemma_priority(m: Seq<SymbolPair>, s: Seq<u32>, j: int, k: int)
    requires
        0 <= j < k < m.len(),
        has_pair(s, m[j]),
        has_pair(s, m[k]),
    ensures
        exists|r: int|
            r <= j && first_rank(m, s, r) && encode_seq(m, s) == encode_seq(
                m,
                merge_seq(s, m[r], learned_id(r as nat)),
            ),
{
    lemma_first_rank_exists(m, s, j);
    let r = choose|r: int| r <= j && first_rank(m, s, r);
    let c = choose|c: int| first_rank(m, s, c);
    lemma_first_rank_unique(m, s, r, c);
    lemma_merge_len(s, m[r], learned_id(r as nat));
    assert(r <= j && first_rank(m, s, r) && encode_seq(m, s) == encode_seq(
        m,
        merge_seq(s, m[r], learned_id(r as nat)),
    ));
}

/// The bytes of a sequence of strings are valid UTF-8.
pub proof fn lemma_words_bytes_valid(w: Seq<Seq<char>>)
    ensures
        valid_utf8(words_bytes(w)),
    decreases w.len(),
{
    if w.len() > 0 {
        lemma_words_bytes_valid(w.drop_last());
        vstd::utf8::encode_utf8_valid_utf8(w.last());
        vstd::utf8::valid_utf8_concat(words_bytes(w.drop_last()), encode_utf8(w.last()));
    } else {
        assert(words_bytes(w) =~= encode_utf8(Seq::<char>::empty()));
        vstd::utf8::encode_utf8_valid_utf8(Seq::<char>::empty());
    }
}

/// Encoding a text and expanding the ids gives back the bytes of its word and
/// whitespace runs, which are valid UTF-8: decoding them needs no lossy
/// replacement.
pub proof fn lemma_text_round_trip(b: &Bpe, text: Seq<char>)
    requires
        b.wf(),
    ensures
        forall|i: int|
            0 <= i < encode_seq(b.merge_pairs(), ids_of(words_bytes(word_runs(text)))).len()
                ==> #[trigger] encode_seq(b.merge_pairs(), ids_of(words_bytes(word_runs(text))))[i]
                < 256 + b.merge_pairs().len(),
        expand(b.byte_vocab(), encode_seq(b.merge_pairs(), ids_of(words_bytes(word_runs(text)))))
            == words_bytes(word_runs(text)),
        valid_utf8(words_bytes(word_runs(text))),
{
    lemma_round_trip(b, words_bytes(word_runs(text)));
    lemma_words_bytes_valid(word_runs(text));
}

} // verus!
