//! Counting adjacent symbol pairs, sequentially or in parallel, and choosing
//! the pair to merge.

use vstd::prelude::*;
use rayon::iter::{IndexedParallelIterator, IntoParallelRefIterator, ParallelIterator};
use crate::symbols::{SymbolPair, pair_at, has_pair};

verus! {

/// Number of positions `i` with `s[i] == p.0` and `s[i + 1] == p.1`.
pub open spec fn pair_count(s: Seq<u32>, p: SymbolPair) -> nat
    decreases s.len(),
{
    if s.len() < 2 {
        0
    } else {
        pair_count(s.drop_last(), p) + if s[s.len() - 2] == p.0 && s[s.len() - 1] == p.1 {
            1nat
        } else {
            0nat
        }
    }
}

/// Lexicographic order on pairs: by left symbol, then by right symbol.
pub open spec fn pair_le(a: SymbolPair, b: SymbolPair) -> bool {
    a.0 < b.0 || (a.0 == b.0 && a.1 <= b.1)
}

/// `p` occurs in `s`, no pair occurs more often, and among the pairs that occur
/// as often `p` is the smallest.
pub open spec fn is_best_pair(s: Seq<u32>, p: SymbolPair) -> bool {
    &&& pair_count(s, p) > 0
    &&& forall|q: SymbolPair|
        #[trigger] pair_count(s, q) < pair_count(s, p) || (pair_count(s, q) == pair_count(s, p) && pair_le(
            p,
            q,
        ))
}

/// The pair that a training epoch merges on `s`.
pub open spec fn best_pair(s: Seq<u32>) -> SymbolPair {
    choose|p: SymbolPair| is_best_pair(s, p)
}

pub proof fn lemma_count_positive(s: Seq<u32>, p: SymbolPair)
    ensures
        pair_count(s, p) > 0 <==> has_pair(s, p),
    decreases s.len(),
{
    if s.len() >= 2 {
        let t = s.drop_last();
        lemma_count_positive(t, p);
        if has_pair(t, p) {
            let i = choose|i: int| #[trigger] pair_at(t, i, p);
            assert(pair_at(s, i, p));
        }
        if has_pair(s, p) {
            let i = choose|i: int| #[trigger] pair_at(s, i, p);
            if i + 2 < s.len() {
                assert(pair_at(t, i, p));
            }
        }
        if s[s.len() - 2] == p.0 && s[s.len() - 1] == p.1 {
            assert(pair_at(s, s.len() - 2, p));
        }
    } else {
        assert(forall|i: int| !#[trigger] pair_at(s, i, p));
    }
}

pub proof fn lemma_best_unique(s: Seq<u32>, p: SymbolPair, q: SymbolPair)
    requires
        is_best_pair(s, p),
        is_best_pair(s, q),
    ensures
        p == q,
{
    assert(pair_count(s, q) < pair_count(s, p) || pair_le(p, q));
    assert(pair_count(s, p) < pair_count(s, q) || pair_le(q, p));
}

/// A pair and how many times it occurs.
#[derive(Clone, Copy, Debug, PartialEq, Eq)]
pub struct PairCount {
    pub pair: SymbolPair,
    pub count: usize,
}

/// The entries list each pair of `s` that occurs at least once, once each, with
/// its number of occurrences.
pub open spec fn counts_of(entries: Seq<PairCount>, s: Seq<u32>) -> bool {
    &&& forall|a: int, b: int|
        0 <= a < b < entries.len() ==> entries[a].pair != entries[b].pair
    &&& forall|j: int|
        0 <= j < entries.len() ==> #[trigger] entries[j].count == pair_count(s, entries[j].pair)
            && entries[j].count > 0
    &&& forall|p: SymbolPair|
        #[trigger] pair_count(s, p) > 0 ==> exists|j: int|
            0 <= j < entries.len() && #[trigger] entries[j].pair == p
}

/// Position of the entry for `p`, if there is one.
fn find_pair(entries: &Vec<PairCount>, p: SymbolPair) -> (r: Option<usize>)
    ensures
        match r {
            Some(k) => k < entries@.len() && entries@[k as int].pair == p,
            None => forall|j: int| 0 <= j < entries@.len() ==> #[trigger] entries@[j].pair != p,
        },
{
    let mut k: usize = 0;
    while k < entries.len()
        invariant
            k <= entries@.len(),
            forall|j: int| 0 <= j < k ==> #[trigger] entries@[j].pair != p,
        decreases entries@.len() - k,
    {
        if entries[k].pair.0 == p.0 && entries[k].pair.1 == p.1 {
            return Some(k);
        }
        k = k + 1;
    }
    None
}

/// Counts the adjacent pairs of `ids`.
pub fn count_pairs(ids: &Vec<u32>) -> (r: Vec<PairCount>)
    ensures
        counts_of(r@, ids@),
{
    let n = ids.len();
    let mut entries: Vec<PairCount> = Vec::new();
    if n < 2 {
        assert(forall|p: SymbolPair| pair_count(ids@, p) == 0);
        return entries;
    }
    let mut i: usize = 0;
    assert(forall|p: SymbolPair| #[trigger] pair_count(ids@.subrange(0, 1), p) == 0);
    while i + 1 < n
        invariant
            n == ids@.len(),
            n >= 2,
            i + 1 <= n,
            entries@.len() <= i,
            counts_of(entries@, ids@.subrange(0, i + 1)),
            forall|j: int| 0 <= j < entries@.len() ==> #[trigger] entries@[j].count <= i,
        decreases n - i,
    {
        let ghost pre = ids@.subrange(0, i + 1);
        let ghost post = ids@.subrange(0, i + 2);
        let p: SymbolPair = (ids[i], ids[i + 1]);
        assert(post.drop_last() =~= pre);
        assert(forall|q: SymbolPair| q != p ==> #[trigger] pair_count(post, q) == pair_count(pre, q));
        assert(pair_count(post, p) == pair_count(pre, p) + 1);
        let found = find_pair(&entries, p);
        let ghost old_entries = entries@;
        if let Some(k) = found {
            let e = entries[k];
            entries.set(k, PairCount { pair: p, count: e.count + 1 });
            assert forall|q: SymbolPair| #[trigger] pair_count(post, q) > 0 implies exists|j: int|
                0 <= j < entries@.len() && #[trigger] entries@[j].pair == q by {
                if q == p {
                    assert(entries@[k as int].pair == q);
                } else {
                    let j = choose|j: int| 0 <= j < old_entries.len() && #[trigger] old_entries[j].pair == q;
                    assert(entries@[j].pair == q);
                }
            }
        } else {
            assert(pair_count(pre, p) == 0);
            entries.push(PairCount { pair: p, count: 1 });
            assert forall|q: SymbolPair| #[trigger] pair_count(post, q) > 0 implies exists|j: int|
                0 <= j < entries@.len() && #[trigger] entries@[j].pair == q by {
                if q == p {
                    assert(entries@[old_entries.len() as int].pair == q);
                } else {
                    let j = choose|j: int| 0 <= j < old_entries.len() && #[trigger] old_entries[j].pair == q;
                    assert(entries@[j].pair == q);
                }
            }
        }
        i = i + 1;
    }
    assert(ids@.subrange(0, n as int) =~= ids@);
    entries
}

/// The pair that occurs most often in `ids`; among pairs that occur equally
/// often, the smallest by (left, right). `None` when `ids` has no pair.
pub fn most_frequent_pair(ids: &Vec<u32>) -> (r: Option<SymbolPair>)
    ensures
        r is None <==> ids@.len() < 2,
        r matches Some(p) ==> p == best_pair(ids@) && is_best_pair(ids@, p),
{
    let entries = count_pairs_parallel(ids);
    if entries.len() == 0 {
        if ids.len() >= 2 {
            let ghost p = (ids@[0], ids@[1]);
            assert(pair_at(ids@, 0, p));
            proof { lemma_count_positive(ids@, p); }
        }
        return None;
    }
    let mut b: usize = 0;
    let mut k: usize = 1;
    while k < entries.len()
        invariant
            0 < k <= entries@.len(),
            b < entries@.len(),
            counts_of(entries@, ids@),
            forall|j: int|
                0 <= j < k ==> #[trigger] entries@[j].count < entries@[b as int].count || (
                entries@[j].count == entries@[b as int].count && pair_le(
                    entries@[b as int].pair,
                    entries@[j].pair,
                )),
        decreases entries@.len() - k,
    {
        let e = entries[k];
        let cur = entries[b];
        if e.count > cur.count || (e.count == cur.count && (e.pair.0 < cur.pair.0 || (e.pair.0
            == cur.pair.0 && e.pair.1 < cur.pair.1))) {
            b = k;
        }
        k = k + 1;
    }
    let p = entries[b].pair;
    assert(entries@[b as int].count == pair_count(ids@, p));
    assert forall|q: SymbolPair|
        #[trigger] pair_count(ids@, q) < pair_count(ids@, p) || (pair_count(ids@, q) == pair_count(ids@, p)
            && pair_le(p, q)) by {
        if pair_count(ids@, q) > 0 {
            let j = choose|j: int| 0 <= j < entries@.len() && #[trigger] entries@[j].pair == q;
            assert(entries@[j].count == pair_count(ids@, q));
        } else {
            assert(pair_count(ids@, q) < pair_count(ids@, p));
        }
    }
    assert(is_best_pair(ids@, p));
    proof {
        lemma_best_unique(ids@, p, best_pair(ids@));
        lemma_count_positive(ids@, p);
        if ids@.len() < 2 {
            let i = choose|i: int| #[trigger] pair_at(ids@, i, p);
            assert(pair_at(ids@, i, p));
        }
    }
    Some(p)
}

/// Number of adjacent-pair windows that each parallel task counts.
pub const CHUNK: usize = 65536;

pub proof fn lemma_count_bounded(s: Seq<u32>, p: SymbolPair)
    ensures
        pair_count(s, p) <= s.len(),
    decreases s.len(),
{
    if s.len() >= 2 {
        lemma_count_bounded(s.drop_last(), p);
    }
}

/// Counting over `s[0..b]` is counting over `s[0..a]` plus counting over
/// `s[a - 1..b]`: the two parts share one element, so no window is lost or
/// counted twice.
pub proof fn lemma_count_split(s: Seq<u32>, a: int, b: int, p: SymbolPair)
    requires
        1 <= a <= b <= s.len(),
    ensures
        pair_count(s.subrange(0, b), p) == pair_count(s.subrange(0, a), p) + pair_count(
            s.subrange(a - 1, b),
            p,
        ),
    decreases b - a,
{
    if b == a {
        assert(s.subrange(a - 1, b).len() == 1);
    } else {
        lemma_count_split(s, a, b - 1, p);
        assert(s.subrange(0, b).drop_last() =~= s.subrange(0, b - 1));
        assert(s.subrange(a - 1, b).drop_last() =~= s.subrange(a - 1, b - 1));
    }
}

/// Counts the adjacent pairs of `ids[lo..hi]`.
pub fn count_pairs_in(ids: &Vec<u32>, lo: usize, hi: usize) -> (r: Vec<PairCount>)
    requires
        lo <= hi <= ids@.len(),
    ensures
        counts_of(r@, ids@.subrange(lo as int, hi as int)),
{
    let mut part: Vec<u32> = Vec::with_capacity(hi - lo);
    let mut i: usize = lo;
    while i < hi
        invariant
            lo <= i <= hi,
            hi <= ids@.len(),
            part@ == ids@.subrange(lo as int, i as int),
        decreases hi - i,
    {
        part.push(ids[i]);
        i = i + 1;
        assert(part@ =~= ids@.subrange(lo as int, i as int));
    }
    count_pairs(&part)
}

/// Relies on rayon's `par_iter`, `map` and `collect_into_vec`: the tasks run in
/// parallel and entry `i` of the result is what `count_pairs_in` returns for
/// `ranges[i]`, in the order of `ranges`.
#[verifier::external_body]
fn par_count_ranges(ids: &Vec<u32>, ranges: &Vec<(usize, usize)>) -> (r: Vec<Vec<PairCount>>)
    requires
        forall|k: int| 0 <= k < ranges@.len() ==> #[trigger] ranges@[k].0 <= ranges@[k].1 <= ids@.len(),
    ensures
        r@.len() == ranges@.len(),
        forall|k: int|
            0 <= k < r@.len() ==> counts_of(
                #[trigger] r@[k]@,
                ids@.subrange(ranges@[k].0 as int, ranges@[k].1 as int),
            ),
{
    let mut out = Vec::new();
    ranges.par_iter().map(|&(lo, hi)| count_pairs_in(ids, lo, hi)).collect_into_vec(&mut out);
    out
}

/// `c` lists each pair `p` with `f(p) > 0` once, with count `f(p)`, and
/// nothing else.
pub open spec fn tallied(c: Seq<PairCount>, f: spec_fn(SymbolPair) -> nat) -> bool {
    &&& forall|a: int, b: int| 0 <= a < b < c.len() ==> c[a].pair != c[b].pair
    &&& forall|j: int| 0 <= j < c.len() ==> #[trigger] c[j].count == f(c[j].pair) && c[j].count > 0
    &&& forall|p: SymbolPair|
        #[trigger] f(p) > 0 ==> exists|j: int| 0 <= j < c.len() && #[trigger] c[j].pair == p
}

proof fn lemma_tallied_counts(c: Seq<PairCount>, s: Seq<u32>)
    ensures
        tallied(c, |p: SymbolPair| pair_count(s, p)) <==> counts_of(c, s),
{
    let f = |p: SymbolPair| pair_count(s, p);
    if counts_of(c, s) {
        assert forall|p: SymbolPair| #[trigger] f(p) > 0 implies exists|j: int|
            0 <= j < c.len() && #[trigger] c[j].pair == p by {
            assert(pair_count(s, p) > 0);
        }
    }
    if tallied(c, f) {
        assert forall|p: SymbolPair| #[trigger] pair_count(s, p) > 0 implies exists|j: int|
            0 <= j < c.len() && #[trigger] c[j].pair == p by {
            assert(f(p) > 0);
        }
    }
}

/// Sum of the counts of the entries of `e` for pair `p`.
pub open spec fn entries_sum(e: Seq<PairCount>, p: SymbolPair) -> nat
    decreases e.len(),
{
    if e.len() == 0 {
        0
    } else {
        entries_sum(e.drop_last(), p) + if e.last().pair == p {
            e.last().count as nat
        } else {
            0nat
        }
    }
}

proof fn lemma_entries_sum(e: Seq<PairCount>, s: Seq<u32>, k: int, p: SymbolPair)
    requires
        counts_of(e, s),
        0 <= k <= e.len(),
    ensures
        entries_sum(e.subrange(0, k), p) == if exists|t: int| 0 <= t < k && #[trigger] e[t].pair == p {
            pair_count(s, p)
        } else {
            0
        },
    decreases k,
{
    if k > 0 {
        lemma_entries_sum(e, s, k - 1, p);
        assert(e.subrange(0, k).drop_last() =~= e.subrange(0, k - 1));
        if e[k - 1].pair == p {
            assert(e[k - 1].count == pair_count(s, e[k - 1].pair));
            assert(!exists|t: int| 0 <= t < k - 1 && #[trigger] e[t].pair == p);
        } else {
            if exists|t: int| 0 <= t < k && #[trigger] e[t].pair == p {
                let t = choose|t: int| 0 <= t < k && #[trigger] e[t].pair == p;
                assert(t < k - 1);
            }
        }
    }
}

/// Adds `cnt` to the count of `pair` in `acc`.
fn add_one(acc: &mut Vec<PairCount>, pair: SymbolPair, cnt: usize, Ghost(f): Ghost<spec_fn(SymbolPair) -> nat>)
    requires
        tallied(old(acc)@, f),
        cnt > 0,
        f(pair) + cnt <= usize::MAX,
    ensures
        tallied(final(acc)@, |p: SymbolPair| f(p) + if p == pair { cnt as nat } else { 0nat }),
{
    let ghost g = |p: SymbolPair| f(p) + if p == pair { cnt as nat } else { 0nat };
    let ghost old_acc = acc@;
    match find_pair(acc, pair) {
        Some(k) => {
            let c = acc[k].count;
            acc.set(k, PairCount { pair, count: c + cnt });
            assert forall|j: int| 0 <= j < acc@.len() implies #[trigger] acc@[j].count == g(acc@[j].pair)
                && acc@[j].count > 0 by {
                if j != k {
                    assert(acc@[j] == old_acc[j]);
                    assert(old_acc[j].count == f(old_acc[j].pair));
                }
            }
            assert forall|p: SymbolPair| #[trigger] g(p) > 0 implies exists|j: int|
                0 <= j < acc@.len() && #[trigger] acc@[j].pair == p by {
                if p == pair {
                    assert(acc@[k as int].pair == p);
                } else {
                    assert(f(p) > 0);
                    let j = choose|j: int| 0 <= j < old_acc.len() && #[trigger] old_acc[j].pair == p;
                    assert(acc@[j].pair == p);
                }
            }
        },
        None => {
            assert(f(pair) == 0);
            acc.push(PairCount { pair, count: cnt });
            assert forall|j: int| 0 <= j < acc@.len() implies #[trigger] acc@[j].count == g(acc@[j].pair)
                && acc@[j].count > 0 by {
                if j < old_acc.len() {
                    assert(acc@[j] == old_acc[j]);
                    assert(old_acc[j].count == f(old_acc[j].pair));
                }
            }
            assert forall|p: SymbolPair| #[trigger] g(p) > 0 implies exists|j: int|
                0 <= j < acc@.len() && #[trigger] acc@[j].pair == p by {
                if p == pair {
                    assert(acc@[old_acc.len() as int].pair == p);
                } else {
                    assert(f(p) > 0);
                    let j = choose|j: int| 0 <= j < old_acc.len() && #[trigger] old_acc[j].pair == p;
                    assert(acc@[j].pair == p);
                }
            }
        },
    }
}

/// Adds the counts of `part`, those of `s2`, to `acc`, those of `s1`, giving
/// those of `s`.
fn add_counts(
    acc: &mut Vec<PairCount>,
    part: &Vec<PairCount>,
    Ghost(s1): Ghost<Seq<u32>>,
    Ghost(s2): Ghost<Seq<u32>>,
    Ghost(s): Ghost<Seq<u32>>,
)
    requires
        counts_of(old(acc)@, s1),
        counts_of(part@, s2),
        forall|p: SymbolPair| #[trigger] pair_count(s, p) == pair_count(s1, p) + pair_count(s2, p),
        s.len() <= usize::MAX,
    ensures
        counts_of(final(acc)@, s),
{
    proof {
        lemma_tallied_counts(acc@, s1);
        assert(part@.subrange(0, 0) =~= Seq::<PairCount>::empty());
        let f0 = |p: SymbolPair| pair_count(s1, p) + entries_sum(part@.subrange(0, 0), p);
        assert((|p: SymbolPair| pair_count(s1, p)) =~= f0);
    }
    let mut i: usize = 0;
    while i < part.len()
        invariant
            i <= part@.len(),
            counts_of(part@, s2),
            s.len() <= usize::MAX,
            forall|p: SymbolPair| #[trigger] pair_count(s, p) == pair_count(s1, p) + pair_count(s2, p),
            tallied(acc@, |p: SymbolPair| pair_count(s1, p) + entries_sum(part@.subrange(0, i as int), p)),
        decreases part@.len() - i,
    {
        let e = part[i];
        let ghost f = |p: SymbolPair| pair_count(s1, p) + entries_sum(part@.subrange(0, i as int), p);
        proof {
            lemma_entries_sum(part@, s2, i as int, e.pair);
            assert(e.count == pair_count(s2, e.pair));
            lemma_count_bounded(s, e.pair);
        }
        add_one(acc, e.pair, e.count, Ghost(f));
        proof {
            let nxt = |p: SymbolPair| pair_count(s1, p) + entries_sum(part@.subrange(0, i + 1int), p);
            assert(part@.subrange(0, i + 1int).drop_last() =~= part@.subrange(0, i as int));
            assert((|p: SymbolPair| f(p) + if p == e.pair { e.count as nat } else { 0nat }) =~= nxt);
        }
        i = i + 1;
    }
    proof {
        let fin = |p: SymbolPair| pair_count(s1, p) + entries_sum(part@.subrange(0, i as int), p);
        assert forall|p: SymbolPair| #[trigger] fin(p) == pair_count(s, p) by {
            lemma_entries_sum(part@, s2, i as int, p);
            if pair_count(s2, p) > 0 {
                assert(exists|t: int| 0 <= t < part@.len() && #[trigger] part@[t].pair == p);
            }
        }
        assert(fin =~= (|p: SymbolPair| pair_count(s, p)));
        lemma_tallied_counts(acc@, s);
    }
}

/// Counts the adjacent pairs of `ids` as `count_pairs` does, in parallel over
/// chunks that overlap by one symbol.
pub fn count_pairs_parallel(ids: &Vec<u32>) -> (r: Vec<PairCount>)
    ensures
        counts_of(r@, ids@),
{
    let n = ids.len();
    if n < 2 {
        return count_pairs(ids);
    }
    let mut ranges: Vec<(usize, usize)> = Vec::new();
    let mut lo: usize = 0;
    while lo + 1 < n
        invariant
            n == ids@.len(),
            n >= 2,
            lo + 1 <= n,
            ranges@.len() == 0 ==> lo == 0,
            ranges@.len() > 0 ==> ranges@[ranges@.len() - 1].1 == lo + 1,
            ranges@.len() > 0 ==> ranges@[0].0 == 0,
            forall|k: int| 0 <= k < ranges@.len() ==> #[trigger] ranges@[k].0 < ranges@[k].1 <= n,
            forall|k: int|
                0 <= k < ranges@.len() - 1 ==> #[trigger] ranges@[k + 1].0 + 1 == ranges@[k].1,
        decreases n - lo,
    {
        let hi: usize = if n - lo > CHUNK + 1 {
            lo + CHUNK + 1
        } else {
            n
        };
        ranges.push((lo, hi));
        lo = hi - 1;
    }
    let parts = par_count_ranges(ids, &ranges);
    let mut acc: Vec<PairCount> = Vec::new();
    let mut k: usize = 0;
    let mut end: usize = 1;
    assert(forall|p: SymbolPair| #[trigger] pair_count(ids@.subrange(0, 1), p) == 0);
    while k < parts.len()
        invariant
            n == ids@.len(),
            parts@.len() == ranges@.len(),
            ranges@.len() > 0,
            ranges@[0].0 == 0,
            ranges@[ranges@.len() - 1].1 == n,
            forall|q: int| 0 <= q < ranges@.len() ==> #[trigger] ranges@[q].0 < ranges@[q].1 <= n,
            forall|q: int|
                0 <= q < ranges@.len() - 1 ==> #[trigger] ranges@[q + 1].0 + 1 == ranges@[q].1,
            forall|q: int|
                0 <= q < parts@.len() ==> counts_of(
                    #[trigger] parts@[q]@,
                    ids@.subrange(ranges@[q].0 as int, ranges@[q].1 as int),
                ),
            k <= parts@.len(),
            1 <= end <= n,
            k == 0 ==> end == 1,
            k > 0 ==> end == ranges@[k - 1].1,
            counts_of(acc@, ids@.subrange(0, end as int)),
        decreases parts@.len() - k,
    {
        let (a, b) = ranges[k];
        let ghost s1 = ids@.subrange(0, end as int);
        let ghost s2 = ids@.subrange(a as int, b as int);
        let ghost s = ids@.subrange(0, b as int);
        if k > 0 {
            let ghost q: int = k - 1;
            assert(ranges@[q + 1].0 + 1 == ranges@[q].1);
        }
        assert(a + 1 == end);
        assert forall|p: SymbolPair| #[trigger] pair_count(s, p) == pair_count(s1, p) + pair_count(s2, p) by {
            lemma_count_split(ids@, end as int, b as int, p);
        }
        assert(counts_of(parts@[k as int]@, s2));
        add_counts(&mut acc, &parts[k], Ghost(s1), Ghost(s2), Ghost(s));
        end = b;
        k = k + 1;
    }
    assert(ids@.subrange(0, n as int) =~= ids@);
    acc
}

} // verus!
