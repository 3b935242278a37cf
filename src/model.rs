//! The byte-level model: merge table, byte vocabulary, training, and encoding
//! and decoding over ids.

use vstd::prelude::*;
use crate::symbols::{
    SymbolPair, merge_seq, merge, has_pair, pair_at, contains_pair, lemma_merge_bounded,
    lemma_merge_len,
};
use crate::stats::{best_pair, is_best_pair, most_frequent_pair, lemma_count_positive};

verus! {

/// Largest number of merges a model can hold: learned ids run from 256 up to
/// `u32::MAX`.
pub const MAX_MERGES: u64 = 4294967040;

/// Errors reported by training and decoding.
#[derive(Debug, Clone, Copy, PartialEq, Eq)]
pub enum BpeError {
    /// Training was asked for more merges than the symbol id space can name.
    CapacityExceeded,
    /// Decoding met an id that has no byte expansion.
    UnknownId(u32),
}

/// One learned merge: the pair `(left, right)` is replaced by `id`.
#[derive(Debug, Clone, Copy, PartialEq, Eq)]
pub struct MergeRule {
    pub left: u32,
    pub right: u32,
    pub id: u32,
}

/// The id that the merge of rank `k` introduces.
pub open spec fn learned_id(k: nat) -> u32 {
    (256 + k) as u32
}

/// The bytes `b` read as symbols.
pub open spec fn ids_of(b: Seq<u8>) -> Seq<u32> {
    b.map_values(|x: u8| x as u32)
}

/// The byte vocabulary implied by a merge table: ids 0 to 255 stand for
/// themselves, and the id of rank `k` for the concatenation of the expansions of
/// its pair.
pub open spec fn vocab_of(m: Seq<SymbolPair>) -> Seq<Seq<u8>>
    decreases m.len(),
{
    if m.len() == 0 {
        Seq::new(256, |i: int| seq![i as u8])
    } else {
        let v = vocab_of(m.drop_last());
        let p = m.last();
        v.push(v[p.0 as int] + v[p.1 as int])
    }
}

/// Flat byte expansion of a symbol sequence.
pub open spec fn expand(v: Seq<Seq<u8>>, s: Seq<u32>) -> Seq<u8>
    decreases s.len(),
{
    if s.len() == 0 {
        Seq::empty()
    } else {
        v[s[0] as int] + expand(v, s.subrange(1, s.len() as int))
    }
}

/// The pairs that byte-level training learns on `s` within `epochs` epochs,
/// when `next` merges have been learned already.
pub open spec fn train_pairs(s: Seq<u32>, epochs: nat, next: nat) -> Seq<SymbolPair>
    decreases epochs,
{
    if epochs == 0 || s.len() < 2 {
        Seq::empty()
    } else {
        let p = best_pair(s);
        seq![p] + train_pairs(merge_seq(s, p, learned_id(next)), (epochs - 1) as nat, next + 1)
    }
}

pub proof fn lemma_vocab_len(m: Seq<SymbolPair>)
    ensures
        vocab_of(m).len() == 256 + m.len(),
    decreases m.len(),
{
    if m.len() > 0 {
        lemma_vocab_len(m.drop_last());
    }
}

/// Under a vocabulary in which each byte expands to itself, the bytes read as
/// symbols expand back to the bytes.
pub proof fn lemma_expand_bytes(v: Seq<Seq<u8>>, b: Seq<u8>)
    requires
        v.len() >= 256,
        forall|i: int| 0 <= i < 256 ==> #[trigger] v[i] == seq![i as u8],
    ensures
        expand(v, ids_of(b)) == b,
    decreases b.len(),
{
    if b.len() > 0 {
        let t = b.subrange(1, b.len() as int);
        lemma_expand_bytes(v, t);
        assert(v[b[0] as int] == seq![b[0]]);
        assert(ids_of(b).subrange(1, b.len() as int) =~= ids_of(t));
        assert(b =~= seq![b[0]] + t);
    }
}

pub proof fn lemma_expand_push(v: Seq<Seq<u8>>, x: Seq<u8>, s: Seq<u32>)
    requires
        forall|i: int| 0 <= i < s.len() ==> s[i] < v.len(),
    ensures
        expand(v.push(x), s) == expand(v, s),
    decreases s.len(),
{
    if s.len() > 0 {
        let t = s.subrange(1, s.len() as int);
        assert(forall|i: int| 0 <= i < t.len() ==> t[i] == s[i + 1]);
        lemma_expand_push(v, x, t);
    }
}

pub proof fn lemma_expand_pair_len(v: Seq<Seq<u8>>, s: Seq<u32>, w: int, p: SymbolPair)
    requires
        pair_at(s, w, p),
    ensures
        expand(v, s).len() >= v[p.0 as int].len() + v[p.1 as int].len(),
    decreases s.len(),
{
    let t = s.subrange(1, s.len() as int);
    if w == 0 {
        assert(t.subrange(1, t.len() as int) =~= s.subrange(2, s.len() as int));
        assert(t[0] == s[1]);
    } else {
        assert(pair_at(t, w - 1, p));
        lemma_expand_pair_len(v, t, w - 1, p);
    }
}

/// Merging a pair into an id that expands to the pair's two expansions keeps
/// the flat byte expansion.
pub proof fn lemma_merge_expand(v: Seq<Seq<u8>>, s: Seq<u32>, p: SymbolPair, id: u32)
    requires
        v[id as int] == v[p.0 as int] + v[p.1 as int],
    ensures
        expand(v, merge_seq(s, p, id)) == expand(v, s),
    decreases s.len(),
{
    if s.len() >= 2 {
        let t1 = s.subrange(1, s.len() as int);
        let t2 = s.subrange(2, s.len() as int);
        if s[0] == p.0 && s[1] == p.1 {
            lemma_merge_expand(v, t2, p, id);
            let m = merge_seq(t2, p, id);
            assert((seq![id] + m).subrange(1, m.len() + 1int) =~= m);
            assert(t1.subrange(1, t1.len() as int) =~= t2);
            assert(t1[0] == s[1]);
            assert(expand(v, t1) == v[s[1] as int] + expand(v, t2));
            assert(v[id as int] + expand(v, t2) =~= v[s[0] as int] + (v[s[1] as int] + expand(v, t2)));
        } else {
            lemma_merge_expand(v, t1, p, id);
            let m = merge_seq(t1, p, id);
            assert((seq![s[0]] + m).subrange(1, m.len() + 1int) =~= m);
        }
    }
}

/// `k` is the lowest rank whose pair stands in `s`.
pub open spec fn first_rank(m: Seq<SymbolPair>, s: Seq<u32>, k: int) -> bool {
    &&& 0 <= k < m.len()
    &&& has_pair(s, m[k])
    &&& forall|j: int| 0 <= j < k ==> !has_pair(s, #[trigger] m[j])
}

/// Encoding of `s` under the merge table `m`: while some learned pair stands in
/// the sequence, merge the one of lowest rank into its id.
pub open spec fn encode_seq(m: Seq<SymbolPair>, s: Seq<u32>) -> Seq<u32>
    decreases s.len(),
{
    if exists|k: int| first_rank(m, s, k) {
        let k = choose|k: int| first_rank(m, s, k);
        let t = merge_seq(s, m[k], learned_id(k as nat));
        if t.len() < s.len() {
            encode_seq(m, t)
        } else {
            s
        }
    } else {
        s
    }
}

pub proof fn lemma_first_rank_unique(m: Seq<SymbolPair>, s: Seq<u32>, a: int, b: int)
    requires
        first_rank(m, s, a),
        first_rank(m, s, b),
    ensures
        a == b,
{
    if a < b {
        assert(!has_pair(s, m[a]));
    } else if b < a {
        assert(!has_pair(s, m[b]));
    }
}

pub proof fn lemma_expand_append(v: Seq<Seq<u8>>, a: Seq<u32>, x: u32)
    ensures
        expand(v, a.push(x)) == expand(v, a) + v[x as int],
    decreases a.len(),
{
    if a.len() == 0 {
        assert(a.push(x).subrange(1, 1) =~= Seq::<u32>::empty());
        assert(a.push(x)[0] == x);
        assert(a =~= Seq::<u32>::empty());
        assert(v[x as int] + Seq::<u8>::empty() =~= v[x as int]);
    } else {
        let t = a.subrange(1, a.len() as int);
        lemma_expand_append(v, t, x);
        assert(a.push(x).subrange(1, a.len() + 1int) =~= t.push(x));
        assert(a.push(x)[0] == a[0]);
        assert(v[a[0] as int] + (expand(v, t) + v[x as int]) =~= (v[a[0] as int] + expand(v, t))
            + v[x as int]);
    }
}

/// A byte-pair-encoding model: the merge table in rank order and the byte
/// vocabulary built alongside it.
pub struct Bpe {
    merges: Vec<MergeRule>,
    vocab: Vec<Vec<u8>>,
}

impl Bpe {
    /// The learned pairs, by rank.
    pub closed spec fn merge_pairs(&self) -> Seq<SymbolPair> {
        self.merges@.map_values(|m: MergeRule| (m.left, m.right))
    }

    /// The ids assigned to the learned pairs, by rank.
    pub closed spec fn merge_ids(&self) -> Seq<u32> {
        self.merges@.map_values(|m: MergeRule| m.id)
    }

    /// The byte expansion of each id.
    pub closed spec fn byte_vocab(&self) -> Seq<Seq<u8>> {
        self.vocab@.map_values(|v: Vec<u8>| v@)
    }

    /// The merge of rank `k` introduces id `256 + k` and joins two symbols that
    /// were known before it; the byte vocabulary is the one the table implies.
    pub closed spec fn wf(&self) -> bool {
        &&& self.merges@.len() <= MAX_MERGES
        &&& forall|k: int|
            0 <= k < self.merges@.len() ==> {
                &&& #[trigger] self.merges@[k].id == learned_id(k as nat)
                &&& self.merges@[k].left < 256 + k
                &&& self.merges@[k].right < 256 + k
            }
        &&& self.byte_vocab() == vocab_of(self.merge_pairs())
    }

    /// What a well-formed model holds: the merge of rank `k` has id `256 + k`
    /// and joins two symbols below that id, and the byte vocabulary is the one
    /// the merge table implies.
    pub proof fn lemma_wf(&self)
        requires
            self.wf(),
        ensures
            self.merge_pairs().len() <= MAX_MERGES,
            self.merge_ids().len() == self.merge_pairs().len(),
            forall|k: int|
                0 <= k < self.merge_pairs().len() ==> {
                    &&& #[trigger] self.merge_ids()[k] == learned_id(k as nat)
                    &&& self.merge_pairs()[k].0 < 256 + k
                    &&& self.merge_pairs()[k].1 < 256 + k
                },
            self.byte_vocab() == vocab_of(self.merge_pairs()),
    {
        assert forall|k: int| 0 <= k < self.merge_pairs().len() implies {
            &&& #[trigger] self.merge_ids()[k] == learned_id(k as nat)
            &&& self.merge_pairs()[k].0 < 256 + k
            &&& self.merge_pairs()[k].1 < 256 + k
        } by {
            assert(self.merges@[k].id == learned_id(k as nat));
        }
    }

    /// A model with no merges.
    pub fn new() -> (r: Bpe)
        ensures
            r.wf(),
            r.merge_pairs().len() == 0,
    {
        let r = Bpe { merges: Vec::new(), vocab: base_vocab() };
        assert(r.byte_vocab() =~= vocab_of(r.merge_pairs()));
        r
    }

    /// Learns a fresh merge table on the byte sequence `bytes`, replacing the
    /// current one: each epoch merges the most frequent adjacent pair (ties go
    /// to the smallest pair) into the next id, starting at 256, and training
    /// stops early once fewer than two symbols remain.
    pub fn train_bytes(&mut self, bytes: &Vec<u8>, epochs: usize) -> (r: Result<(), BpeError>)
        requires
            old(self).wf(),
        ensures
            final(self).wf(),
            epochs > MAX_MERGES ==> r == Err::<(), BpeError>(BpeError::CapacityExceeded) && *final(self)
                == *old(self),
            epochs <= MAX_MERGES ==> r is Ok && final(self).merge_pairs() == train_pairs(
                ids_of(bytes@),
                epochs as nat,
                0,
            ),
    {
        if epochs as u64 > MAX_MERGES {
            return Err(BpeError::CapacityExceeded);
        }
        let total: usize = bytes.len();
        let mut ids = bytes_to_ids(bytes);
        let ghost start = ids@;
        let mut merges: Vec<MergeRule> = Vec::new();
        let mut vocab = base_vocab();
        let mut i: usize = 0;
        let mut done = false;
        proof {
            lemma_expand_bytes(vocab_of(Seq::empty()), bytes@);
        }
        while i < epochs && !done
            invariant
                epochs <= MAX_MERGES,
                i <= epochs,
                merges@.len() == i,
                vocab@.len() == 256 + i,
                done ==> ids@.len() < 2,
                bytes@.len() == total,
                expand(vocab@.map_values(|v: Vec<u8>| v@), ids@) == bytes@,
                forall|j: int| 0 <= j < ids@.len() ==> #[trigger] ids@[j] < 256 + i,
                forall|k: int|
                    0 <= k < merges@.len() ==> {
                        &&& #[trigger] merges@[k].id == learned_id(k as nat)
                        &&& merges@[k].left < 256 + k
                        &&& merges@[k].right < 256 + k
                    },
                vocab@.map_values(|v: Vec<u8>| v@) == vocab_of(
                    merges@.map_values(|m: MergeRule| (m.left, m.right)),
                ),
                merges@.map_values(|m: MergeRule| (m.left, m.right)) + train_pairs(
                    ids@,
                    (epochs - i) as nat,
                    i as nat,
                ) == train_pairs(start, epochs as nat, 0),
            decreases epochs - i + if done { 0int } else { 1int },
        {
            match most_frequent_pair(&ids) {
                None => {
                    done = true;
                },
                Some(p) => {
                    let ghost old_pairs = merges@.map_values(|m: MergeRule| (m.left, m.right));
                    proof {
                        lemma_count_positive(ids@, p);
                        let w = choose|w: int| #[trigger] pair_at(ids@, w, p);
                        assert(ids@[w] < 256 + i);
                        assert(ids@[w + 1] < 256 + i);
                        lemma_expand_pair_len(vocab@.map_values(|v: Vec<u8>| v@), ids@, w, p);
                    }
                    let id: u32 = (256 + i) as u32;
                    let ghost old_ids = ids@;
                    ids = merge(&ids, p, id);
                    proof {
                        lemma_merge_bounded(old_ids, p, id, 256 + i + 1);
                        lemma_vocab_len(old_pairs);
                        assert(vocab@[p.0 as int]@ == vocab_of(old_pairs)[p.0 as int]);
                        assert(vocab@[p.1 as int]@ == vocab_of(old_pairs)[p.1 as int]);
                    }
                    let e = concat_bytes(&vocab[p.0 as usize], &vocab[p.1 as usize]);
                    let ghost old_vocab = vocab@.map_values(|v: Vec<u8>| v@);
                    vocab.push(e);
                    proof {
                        let new_vocab = vocab@.map_values(|v: Vec<u8>| v@);
                        assert(new_vocab =~= old_vocab.push(e@));
                        lemma_merge_expand(new_vocab, old_ids, p, id);
                        lemma_expand_push(old_vocab, e@, old_ids);
                    }
                    let ghost old_merges = merges@;
                    merges.push(MergeRule { left: p.0, right: p.1, id });
                    proof {
                        assert(merges@[i as int].id == learned_id(i as nat));
                        assert(merges@[i as int].left < 256 + i);
                        assert(merges@[i as int].right < 256 + i);
                        assert(forall|k: int| 0 <= k < i ==> merges@[k] == old_merges[k]);
                        let new_pairs = merges@.map_values(|m: MergeRule| (m.left, m.right));
                        assert(new_pairs =~= old_pairs.push(p));
                        assert(new_pairs.drop_last() =~= old_pairs);
                        assert(vocab@.map_values(|v: Vec<u8>| v@) =~= vocab_of(new_pairs));
                        assert(new_pairs + train_pairs(ids@, (epochs - i - 1) as nat, (i + 1) as nat)
                            =~= old_pairs + train_pairs(old_ids, (epochs - i) as nat, i as nat));
                    }
                    i = i + 1;
                },
            }
        }
        proof {
            let pairs = merges@.map_values(|m: MergeRule| (m.left, m.right));
            assert(pairs + train_pairs(ids@, (epochs - i) as nat, i as nat) =~= pairs);
        }
        self.merges = merges;
        self.vocab = vocab;
        Ok(())
    }

    /// Number of learned merges.
    pub fn num_merges(&self) -> (r: usize)
        ensures
            r == self.merge_pairs().len(),
    {
        self.merges.len()
    }

    /// The merge table in rank order.
    pub fn merge_rules(&self) -> (r: Vec<MergeRule>)
        ensures
            r@.len() == self.merge_pairs().len(),
            forall|k: int|
                0 <= k < r@.len() ==> (#[trigger] r@[k].left, r@[k].right) == self.merge_pairs()[k]
                    && r@[k].id == self.merge_ids()[k],
    {
        let mut r: Vec<MergeRule> = Vec::new();
        let mut k: usize = 0;
        while k < self.merges.len()
            invariant
                k <= self.merges@.len(),
                r@ == self.merges@.subrange(0, k as int),
            decreases self.merges@.len() - k,
        {
            r.push(self.merges[k]);
            k = k + 1;
            assert(r@ =~= self.merges@.subrange(0, k as int));
        }
        r
    }

    /// The byte expansion of `id`, if it has one.
    pub fn expansion(&self, id: u32) -> (r: Option<Vec<u8>>)
        ensures
            r is Some <==> id < self.byte_vocab().len(),
            r matches Some(b) ==> b@ == self.byte_vocab()[id as int],
    {
        if (id as usize) < self.vocab.len() {
            let src = &self.vocab[id as usize];
            let mut b: Vec<u8> = Vec::new();
            let mut j: usize = 0;
            while j < src.len()
                invariant
                    j <= src@.len(),
                    b@ == src@.subrange(0, j as int),
                decreases src@.len() - j,
            {
                b.push(src[j]);
                j = j + 1;
                assert(b@ =~= src@.subrange(0, j as int));
            }
            assert(src@.subrange(0, j as int) =~= src@);
            Some(b)
        } else {
            None
        }
    }

    /// The lowest rank whose pair stands in `ids`, if any.
    fn first_present_rank(&self, ids: &Vec<u32>) -> (r: Option<usize>)
        ensures
            match r {
                Some(k) => first_rank(self.merge_pairs(), ids@, k as int),
                None => forall|k: int|
                    0 <= k < self.merge_pairs().len() ==> !has_pair(
                        ids@,
                        #[trigger] self.merge_pairs()[k],
                    ),
            },
    {
        let mut k: usize = 0;
        while k < self.merges.len()
            invariant
                k <= self.merges@.len(),
                forall|j: int| 0 <= j < k ==> !has_pair(ids@, #[trigger] self.merge_pairs()[j]),
            decreases self.merges@.len() - k,
        {
            let rule = self.merges[k];
            if contains_pair(ids, (rule.left, rule.right)) {
                return Some(k);
            }
            k = k + 1;
        }
        None
    }

    /// Encodes the byte sequence `bytes`: starting from the bytes as symbols,
    /// repeatedly merges the learned pair of lowest rank that stands in the
    /// sequence, until none does.
    pub fn encode_ids(&self, bytes: &Vec<u8>) -> (r: Vec<u32>)
        requires
            self.wf(),
        ensures
            r@ == encode_seq(self.merge_pairs(), ids_of(bytes@)),
    {
        let mut tokens = bytes_to_ids(bytes);
        let ghost m = self.merge_pairs();
        loop
            invariant
                self.wf(),
                m == self.merge_pairs(),
                encode_seq(m, tokens@) == encode_seq(m, ids_of(bytes@)),
            decreases tokens@.len(),
        {
            match self.first_present_rank(&tokens) {
                None => {
                    assert(!exists|k: int| first_rank(m, tokens@, k));
                    return tokens;
                },
                Some(k) => {
                    let rule = self.merges[k];
                    let ghost before = tokens@;
                    proof {
                        lemma_merge_len(before, m[k as int], learned_id(k as nat));
                        let c = choose|c: int| first_rank(m, before, c);
                        lemma_first_rank_unique(m, before, c, k as int);
                    }
                    tokens = merge(&tokens, (rule.left, rule.right), rule.id);
                },
            }
        }
    }

    /// The flat byte expansion of `ids`, or the first id that has none.
    pub fn decode_ids(&self, ids: &Vec<u32>) -> (r: Result<Vec<u8>, BpeError>)
        requires
            self.wf(),
        ensures
            match r {
                Ok(b) => (forall|i: int| 0 <= i < ids@.len() ==> #[trigger] ids@[i] < 256
                    + self.merge_pairs().len()) && b@ == expand(self.byte_vocab(), ids@),
                Err(e) => exists|i: int|
                    0 <= i < ids@.len() && ids@[i] >= 256 + self.merge_pairs().len() && (forall|
                        j: int,
                    |
                        0 <= j < i ==> #[trigger] ids@[j] < 256 + self.merge_pairs().len()) && e
                        == BpeError::UnknownId(#[trigger] ids@[i]),
            },
    {
        proof {
            lemma_vocab_len(self.merge_pairs());
        }
        let ghost v = self.byte_vocab();
        let mut out: Vec<u8> = Vec::new();
        let mut i: usize = 0;
        while i < ids.len()
            invariant
                self.wf(),
                v == self.byte_vocab(),
                v.len() == self.vocab@.len(),
                self.vocab@.len() == 256 + self.merge_pairs().len(),
                i <= ids@.len(),
                forall|j: int| 0 <= j < i ==> #[trigger] ids@[j] < self.vocab@.len(),
                out@ == expand(v, ids@.subrange(0, i as int)),
            decreases ids@.len() - i,
        {
            let x = ids[i];
            if x as usize >= self.vocab.len() {
                assert(ids@[i as int] >= 256 + self.merge_pairs().len());
                return Err(BpeError::UnknownId(x));
            }
            let piece = &self.vocab[x as usize];
            let mut j: usize = 0;
            let ghost start = out@;
            while j < piece.len()
                invariant
                    j <= piece@.len(),
                    out@ == start + piece@.subrange(0, j as int),
                decreases piece@.len() - j,
            {
                out.push(piece[j]);
                j = j + 1;
                assert(out@ =~= start + piece@.subrange(0, j as int));
            }
            proof {
                assert(piece@.subrange(0, j as int) =~= piece@);
                assert(ids@.subrange(0, i + 1int) =~= ids@.subrange(0, i as int).push(x));
                lemma_expand_append(v, ids@.subrange(0, i as int), x);
            }
            i = i + 1;
        }
        assert(ids@.subrange(0, i as int) =~= ids@);
        Ok(out)
    }
}

/// The seeded vocabulary: each byte expands to itself.
fn base_vocab() -> (r: Vec<Vec<u8>>)
    ensures
        r@.len() == 256,
        r@.map_values(|v: Vec<u8>| v@) == vocab_of(Seq::empty()),
{
    let mut r: Vec<Vec<u8>> = Vec::with_capacity(256);
    let mut i: usize = 0;
    while i < 256
        invariant
            i <= 256,
            r@.len() == i,
            forall|j: int| 0 <= j < i ==> #[trigger] r@[j]@ == seq![j as u8],
        decreases 256 - i,
    {
        let b: Vec<u8> = vec![i as u8];
        r.push(b);
        i = i + 1;
    }
    assert(r@.map_values(|v: Vec<u8>| v@) =~= vocab_of(Seq::empty()));
    r
}

/// `a` followed by `b`.
fn concat_bytes(a: &Vec<u8>, b: &Vec<u8>) -> (r: Vec<u8>)
    requires
        a@.len() + b@.len() <= usize::MAX,
    ensures
        r@ == a@ + b@,
{
    let mut r: Vec<u8> = Vec::with_capacity(a.len() + b.len());
    let mut i: usize = 0;
    while i < a.len()
        invariant
            i <= a@.len(),
            r@ == a@.subrange(0, i as int),
        decreases a@.len() - i,
    {
        r.push(a[i]);
        i = i + 1;
        assert(r@ =~= a@.subrange(0, i as int));
    }
    let mut j: usize = 0;
    while j < b.len()
        invariant
            j <= b@.len(),
            i == a@.len(),
            r@ == a@ + b@.subrange(0, j as int),
        decreases b@.len() - j,
    {
        r.push(b[j]);
        j = j + 1;
        assert(r@ =~= a@ + b@.subrange(0, j as int));
    }
    assert(a@ + b@.subrange(0, j as int) =~= a@ + b@);
    r
}

/// The bytes of `b` as symbols.
pub fn bytes_to_ids(b: &Vec<u8>) -> (r: Vec<u32>)
    ensures
        r@ == ids_of(b@),
{
    let mut r: Vec<u32> = Vec::with_capacity(b.len());
    let mut i: usize = 0;
    while i < b.len()
        invariant
            i <= b@.len(),
            r@ == ids_of(b@.subrange(0, i as int)),
        decreases b@.len() - i,
    {
        r.push(b[i] as u32);
        i = i + 1;
        assert(r@ =~= ids_of(b@.subrange(0, i as int)));
    }
    assert(b@.subrange(0, i as int) =~= b@);
    r
}

} // verus!
