//! Text in and out: word segmentation, bytes of words, and UTF-8 decoding.

use vstd::prelude::*;
use vstd::utf8::{valid_utf8, encode_utf8};
use crate::symbols::SymbolPair;
use crate::model::{Bpe, BpeError, MAX_MERGES, MergeRule, learned_id, ids_of, expand, train_pairs, encode_seq};

verus! {

/// The runs that word segmentation finds in `text`: maximal word runs and
/// maximal whitespace runs, in order.
pub uninterp spec fn word_runs(text: Seq<char>) -> Seq<Seq<char>>;

/// The text that lossy UTF-8 decoding makes of `b`.
pub uninterp spec fn lossy_text(b: Seq<u8>) -> Seq<char>;

/// Relies on regex::Regex::new and Regex::find_iter with the pattern
/// `\b\w+\b|\s+`, which is valid: the matched runs, in order.
#[verifier::external_body]
fn find_word_runs(text: &str) -> (r: Vec<String>)
    ensures
        r@.len() == word_runs(text@).len(),
        forall|i: int| 0 <= i < r@.len() ==> #[trigger] r@[i]@ == word_runs(text@)[i],
{
    let re = regex::Regex::new(r"(\b\w+\b|\s+)").unwrap();
    re.find_iter(text).map(|m| m.as_str().to_string()).collect()
}

/// Relies on std::str::from_utf8: it succeeds exactly when `b` is valid UTF-8,
/// and the text it gives encodes back to `b`.
#[verifier::external_body]
fn strict_utf8(b: &Vec<u8>) -> (r: Option<String>)
    ensures
        r is Some <==> valid_utf8(b@),
        r matches Some(s) ==> encode_utf8(s@) == b@,
{
    match std::str::from_utf8(b.as_slice()) {
        Ok(s) => Some(s.to_string()),
        Err(_) => None,
    }
}

/// Relies on String::from_utf8_lossy: invalid sequences become U+FFFD.
#[verifier::external_body]
fn lossy_utf8(b: &Vec<u8>) -> (r: String)
    ensures
        r@ == lossy_text(b@),
{
    String::from_utf8_lossy(b.as_slice()).into_owned()
}

/// Relies on `String`'s `FromIterator<char>`: the string of exactly these
/// characters.
#[verifier::external_body]
pub(crate) fn string_of_chars(c: &Vec<char>) -> (r: String)
    ensures
        r@ == c@,
{
    c.iter().collect()
}

/// `s` with each occurrence of `id` replaced by the two symbols of `p`.
pub open spec fn unmerge_seq(s: Seq<u32>, id: u32, p: SymbolPair) -> Seq<u32>
    decreases s.len(),
{
    if s.len() == 0 {
        Seq::empty()
    } else {
        unmerge_seq(s.drop_last(), id, p) + if s.last() == id {
            seq![p.0, p.1]
        } else {
            seq![s.last()]
        }
    }
}

/// `s` with the merges of `m` undone, the latest first.
pub open spec fn undo_merges(m: Seq<SymbolPair>, s: Seq<u32>) -> Seq<u32>
    decreases m.len(),
{
    if m.len() == 0 {
        s
    } else {
        undo_merges(m.drop_last(), unmerge_seq(s, learned_id((m.len() - 1) as nat), m.last()))
    }
}

/// A symbol read as one character: a byte as the character of that code,
/// anything else as U+FFFD.
pub open spec fn legacy_char(x: u32) -> char {
    if x < 256 {
        (x as u8) as char
    } else {
        '\u{FFFD}'
    }
}

/// `s` with each occurrence of `id` replaced by the two symbols of `p`.
fn unmerge(s: &Vec<u32>, id: u32, p: SymbolPair) -> (r: Vec<u32>)
    ensures
        r@ == unmerge_seq(s@, id, p),
{
    let mut out: Vec<u32> = Vec::new();
    let mut i: usize = 0;
    while i < s.len()
        invariant
            i <= s@.len(),
            out@ == unmerge_seq(s@.subrange(0, i as int), id, p),
        decreases s@.len() - i,
    {
        if s[i] == id {
            out.push(p.0);
            out.push(p.1);
        } else {
            out.push(s[i]);
        }
        proof {
            let next = s@.subrange(0, i + 1int);
            assert(next.drop_last() =~= s@.subrange(0, i as int));
        }
        i = i + 1;
        assert(out@ =~= unmerge_seq(s@.subrange(0, i as int), id, p));
    }
    assert(s@.subrange(0, i as int) =~= s@);
    out
}

/// UTF-8 bytes of the strings of `w`, concatenated in order.
pub open spec fn words_bytes(w: Seq<Seq<char>>) -> Seq<u8>
    decreases w.len(),
{
    if w.len() == 0 {
        Seq::empty()
    } else {
        words_bytes(w.drop_last()) + encode_utf8(w.last())
    }
}

/// The views of a sequence of strings.
pub open spec fn string_views(w: Seq<String>) -> Seq<Seq<char>> {
    w.map_values(|s: String| s@)
}

/// The bytes of `words`, concatenated in order.
pub fn str2token(words: &Vec<String>) -> (r: Vec<u8>)
    ensures
        r@ == words_bytes(string_views(words@)),
{
    let mut out: Vec<u8> = Vec::new();
    let mut i: usize = 0;
    while i < words.len()
        invariant
            i <= words@.len(),
            out@ == words_bytes(string_views(words@.subrange(0, i as int))),
        decreases words@.len() - i,
    {
        let bs = words[i].as_str().as_bytes();
        let ghost start = out@;
        let mut j: usize = 0;
        while j < bs.len()
            invariant
                j <= bs@.len(),
                out@ == start + bs@.subrange(0, j as int),
            decreases bs@.len() - j,
        {
            out.push(bs[j]);
            j = j + 1;
            assert(out@ =~= start + bs@.subrange(0, j as int));
        }
        proof {
            assert(bs@.subrange(0, j as int) =~= bs@);
            let next = string_views(words@.subrange(0, i + 1int));
            assert(next.drop_last() =~= string_views(words@.subrange(0, i as int)));
        }
        i = i + 1;
    }
    assert(words@.subrange(0, i as int) =~= words@);
    out
}

/// Decoded text, and whether invalid UTF-8 had to be replaced to make it.
pub struct Decoded {
    pub text: String,
    pub lossy: bool,
}

/// `d` is what decoding makes of `bytes`: the text they encode when they are
/// valid UTF-8, else the lossy reading, flagged.
pub open spec fn decoded_from(d: Decoded, bytes: Seq<u8>) -> bool {
    if valid_utf8(bytes) {
        !d.lossy && encode_utf8(d.text@) == bytes
    } else {
        d.lossy && d.text@ == lossy_text(bytes)
    }
}

/// Reads `bytes` as text, replacing invalid UTF-8 and flagging that it did.
pub fn bytes_to_text(bytes: &Vec<u8>) -> (r: Decoded)
    ensures
        decoded_from(r, bytes@),
{
    match strict_utf8(bytes) {
        Some(text) => Decoded { text, lossy: false },
        None => Decoded { text: lossy_utf8(bytes), lossy: true },
    }
}

impl Bpe {
    /// Splits `raw_corpus` into word and whitespace runs and learns a fresh
    /// merge table on their bytes.
    pub fn learn_ids(&mut self, raw_corpus: &str, epochs: usize) -> (r: Result<(), BpeError>)
        requires
            old(self).wf(),
        ensures
            final(self).wf(),
            epochs > MAX_MERGES ==> r == Err::<(), BpeError>(BpeError::CapacityExceeded) && *final(self)
                == *old(self),
            epochs <= MAX_MERGES ==> r is Ok && final(self).merge_pairs() == train_pairs(
                ids_of(words_bytes(word_runs(raw_corpus@))),
                epochs as nat,
                0,
            ),
    {
        let words = find_word_runs(raw_corpus);
        assert(string_views(words@) =~= word_runs(raw_corpus@));
        let bytes = str2token(&words);
        self.train_bytes(&bytes, epochs)
    }

    /// Encodes `text`: its word and whitespace runs, as bytes, merged by the
    /// learned pairs in rank order.
    pub fn encode(&self, text: &str) -> (r: Vec<u32>)
        requires
            self.wf(),
        ensures
            r@ == encode_seq(self.merge_pairs(), ids_of(words_bytes(word_runs(text@)))),
    {
        let words = find_word_runs(text);
        assert(string_views(words@) =~= word_runs(text@));
        let bytes = str2token(&words);
        self.encode_ids(&bytes)
    }

    /// Textual decoding kept for compatibility: undoes the merges from the
    /// latest to the earliest, then reads each remaining symbol as one
    /// character (a byte as the character of that code). Unlike `decode`, it
    /// does not reassemble multi-byte UTF-8 characters.
    pub fn decode_bpe_tokens(&self, tokens: &Vec<u32>) -> (r: String)
        requires
            self.wf(),
        ensures
            r@ == undo_merges(self.merge_pairs(), tokens@).map_values(|x: u32| legacy_char(x)),
    {
        let rules = self.merge_rules();
        let ghost m = self.merge_pairs();
        proof {
            self.lemma_wf();
        }
        let mut s: Vec<u32> = Vec::new();
        let mut i: usize = 0;
        while i < tokens.len()
            invariant
                i <= tokens@.len(),
                s@ == tokens@.subrange(0, i as int),
            decreases tokens@.len() - i,
        {
            s.push(tokens[i]);
            i = i + 1;
            assert(s@ =~= tokens@.subrange(0, i as int));
        }
        assert(s@ =~= tokens@);
        let mut k: usize = rules.len();
        assert(m.subrange(0, k as int) =~= m);
        while k > 0
            invariant
                k <= rules@.len(),
                rules@.len() == m.len(),
                forall|j: int|
                    0 <= j < rules@.len() ==> (#[trigger] rules@[j].left, rules@[j].right) == m[j]
                        && rules@[j].id == learned_id(j as nat),
                undo_merges(m.subrange(0, k as int), s@) == undo_merges(m, tokens@),
            decreases k,
        {
            let rule: MergeRule = rules[k - 1];
            proof {
                let pre = m.subrange(0, k as int);
                assert(pre.drop_last() =~= m.subrange(0, k - 1));
                assert(pre.last() == (rule.left, rule.right));
            }
            s = unmerge(&s, rule.id, (rule.left, rule.right));
            k = k - 1;
        }
        assert(m.subrange(0, 0) =~= Seq::<SymbolPair>::empty());
        let mut chars: Vec<char> = Vec::new();
        let mut j: usize = 0;
        while j < s.len()
            invariant
                j <= s@.len(),
                chars@ == s@.subrange(0, j as int).map_values(|x: u32| legacy_char(x)),
            decreases s@.len() - j,
        {
            let x = s[j];
            let c: char = if x < 256 {
                (x as u8) as char
            } else {
                '\u{FFFD}'
            };
            chars.push(c);
            j = j + 1;
            assert(chars@ =~= s@.subrange(0, j as int).map_values(|x: u32| legacy_char(x)));
        }
        assert(s@.subrange(0, j as int) =~= s@);
        string_of_chars(&chars)
    }

    /// Decodes `ids` into text through the byte vocabulary; fails on the first
    /// id that has no expansion.
    pub fn decode(&self, ids: &Vec<u32>) -> (r: Result<Decoded, BpeError>)
        requires
            self.wf(),
        ensures
            match r {
                Ok(d) => (forall|i: int| 0 <= i < ids@.len() ==> #[trigger] ids@[i] < 256
                    + self.merge_pairs().len()) && decoded_from(d, expand(self.byte_vocab(), ids@)),
                Err(e) => exists|i: int|
                    0 <= i < ids@.len() && ids@[i] >= 256 + self.merge_pairs().len() && (forall|
                        j: int,
                    |
                        0 <= j < i ==> #[trigger] ids@[j] < 256 + self.merge_pairs().len()) && e
                        == BpeError::UnknownId(#[trigger] ids@[i]),
            },
    {
        match self.decode_ids(ids) {
            Ok(bytes) => Ok(bytes_to_text(&bytes)),
            Err(e) => Err(e),
        }
    }
}

} // verus!
