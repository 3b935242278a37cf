//! Symbols, symbol pairs, and the rewrite that merges a pair into one symbol.

use vstd::prelude::*;

verus! {

/// A symbol: a raw byte (0 to 255) or a learned id (256 and above).
pub type Symbol = u32;

/// An ordered pair of adjacent symbols.
pub type SymbolPair = (u32, u32);

/// The pair `p` stands at position `i` of `s`.
pub open spec fn pair_at(s: Seq<u32>, i: int, p: SymbolPair) -> bool {
    0 <= i && i + 1 < s.len() && s[i] == p.0 && s[i + 1] == p.1
}

/// The pair `p` stands somewhere in `s`.
pub open spec fn has_pair(s: Seq<u32>, p: SymbolPair) -> bool {
    exists|i: int| #[trigger] pair_at(s, i, p)
}

/// Replace every non-overlapping occurrence of `p` in `s`, scanning left to
/// right, by the single symbol `id`.
pub open spec fn merge_seq(s: Seq<u32>, p: SymbolPair, id: u32) -> Seq<u32>
    decreases s.len(),
{
    if s.len() < 2 {
        s
    } else if s[0] == p.0 && s[1] == p.1 {
        seq![id] + merge_seq(s.subrange(2, s.len() as int), p, id)
    } else {
        seq![s[0]] + merge_seq(s.subrange(1, s.len() as int), p, id)
    }
}

pub proof fn lemma_merge_len(s: Seq<u32>, p: SymbolPair, id: u32)
    ensures
        merge_seq(s, p, id).len() <= s.len(),
        has_pair(s, p) ==> merge_seq(s, p, id).len() < s.len(),
    decreases s.len(),
{
    if s.len() >= 2 {
        if s[0] == p.0 && s[1] == p.1 {
            lemma_merge_len(s.subrange(2, s.len() as int), p, id);
        } else {
            let t = s.subrange(1, s.len() as int);
            lemma_merge_len(t, p, id);
            if has_pair(s, p) {
                let i = choose|i: int| #[trigger] pair_at(s, i, p);
                assert(pair_at(t, i - 1, p));
            }
        }
    }
}

/// Merging a pair into a sequence that holds no occurrence of it leaves the
/// sequence unchanged.
pub proof fn lemma_merge_absent(s: Seq<u32>, p: SymbolPair, id: u32)
    requires
        !has_pair(s, p),
    ensures
        merge_seq(s, p, id) == s,
    decreases s.len(),
{
    if s.len() >= 2 {
        let t = s.subrange(1, s.len() as int);
        assert(!pair_at(s, 0, p));
        assert forall|i: int| !pair_at(t, i, p) by {
            if pair_at(t, i, p) {
                assert(pair_at(s, i + 1, p));
            }
        }
        lemma_merge_absent(t, p, id);
        assert(s =~= seq![s[0]] + t);
    }
}

/// Every symbol of the merged sequence is below `bound` when those of `s` are
/// and `id` is.
pub proof fn lemma_merge_bounded(s: Seq<u32>, p: SymbolPair, id: u32, bound: int)
    requires
        forall|i: int| 0 <= i < s.len() ==> s[i] < bound,
        id < bound,
    ensures
        forall|i: int| 0 <= i < merge_seq(s, p, id).len() ==> merge_seq(s, p, id)[i] < bound,
    decreases s.len(),
{
    if s.len() >= 2 {
        let t2 = s.subrange(2, s.len() as int);
        let t1 = s.subrange(1, s.len() as int);
        assert(forall|i: int| 0 <= i < t2.len() ==> t2[i] == s[i + 2]);
        assert(forall|i: int| 0 <= i < t1.len() ==> t1[i] == s[i + 1]);
        lemma_merge_bounded(t2, p, id, bound);
        lemma_merge_bounded(t1, p, id, bound);
        let m = merge_seq(s, p, id);
        if s[0] == p.0 && s[1] == p.1 {
            assert(forall|i: int| 0 < i < m.len() ==> m[i] == merge_seq(t2, p, id)[i - 1]);
        } else {
            assert(forall|i: int| 0 < i < m.len() ==> m[i] == merge_seq(t1, p, id)[i - 1]);
        }
    }
}

/// Rewrites `ids`, collapsing each non-overlapping occurrence of `pair`
/// (leftmost first) into the symbol `id`.
pub fn merge(ids: &Vec<u32>, pair: SymbolPair, id: u32) -> (r: Vec<u32>)
    ensures
        r@ == merge_seq(ids@, pair, id),
{
    let n = ids.len();
    let mut out: Vec<u32> = Vec::with_capacity(n);
    let mut i: usize = 0;
    assert(ids@.subrange(0, n as int) =~= ids@);
    assert(out@ + merge_seq(ids@, pair, id) =~= merge_seq(ids@, pair, id));
    while i < n
        invariant
            n == ids@.len(),
            i <= n,
            merge_seq(ids@, pair, id) == out@ + merge_seq(ids@.subrange(i as int, n as int), pair, id),
        decreases n - i,
    {
        let ghost rest = ids@.subrange(i as int, n as int);
        if i + 1 < n && ids[i] == pair.0 && ids[i + 1] == pair.1 {
            assert(rest.subrange(2, rest.len() as int) =~= ids@.subrange(i + 2, n as int));
            out.push(id);
            i = i + 2;
        } else {
            if i + 1 < n {
                assert(rest.subrange(1, rest.len() as int) =~= ids@.subrange(i + 1, n as int));
            } else {
                assert(ids@.subrange(i + 1, n as int) =~= Seq::<u32>::empty());
                assert(rest =~= seq![ids@[i as int]]);
            }
            out.push(ids[i]);
            i = i + 1;
        }
        assert(merge_seq(ids@, pair, id) =~= out@ + merge_seq(ids@.subrange(i as int, n as int), pair, id));
    }
    assert(ids@.subrange(n as int, n as int) =~= Seq::<u32>::empty());
    assert(out@ + Seq::<u32>::empty() =~= out@);
    out
}

/// Whether `pair` stands somewhere in `ids`.
pub fn contains_pair(ids: &Vec<u32>, pair: SymbolPair) -> (r: bool)
    ensures
        r == has_pair(ids@, pair),
{
    if ids.len() < 2 {
        assert(forall|j: int| !#[trigger] pair_at(ids@, j, pair));
        return false;
    }
    let n = ids.len();
    let mut i: usize = 0;
    while i + 1 < n
        invariant
            n == ids@.len(),
            n >= 2,
            i + 1 <= n,
            forall|j: int| 0 <= j < i ==> !#[trigger] pair_at(ids@, j, pair),
        decreases ids@.len() - i,
    {
        if ids[i] == pair.0 && ids[i + 1] == pair.1 {
            assert(pair_at(ids@, i as int, pair));
            return true;
        }
        i = i + 1;
    }
    assert forall|j: int| !#[trigger] pair_at(ids@, j, pair) by {
        if j >= i {
            assert(!(0 <= j && j + 1 < ids@.len()));
        }
    }
    false
}

} // verus!
