//! Word-level training: words split into character symbols, weighted pair
//! counts, and merges of the most frequent adjacent pair.

use vstd::prelude::*;
use crate::text::{string_of_chars, string_views};

verus! {

/// A word of the corpus and how many times it occurs.
pub struct WordCount {
    pub word: String,
    pub count: usize,
}

/// Number of occurrences of `w` in `corpus`.
pub open spec fn occurrences(corpus: Seq<Seq<char>>, w: Seq<char>) -> nat
    decreases corpus.len(),
{
    if corpus.len() == 0 {
        0
    } else {
        occurrences(corpus.drop_last(), w) + if corpus.last() == w {
            1nat
        } else {
            0nat
        }
    }
}

/// The distinct words of `corpus`, in order of first occurrence.
pub open spec fn distinct_words(corpus: Seq<Seq<char>>) -> Seq<Seq<char>>
    decreases corpus.len(),
{
    if corpus.len() == 0 {
        Seq::empty()
    } else {
        let d = distinct_words(corpus.drop_last());
        if d.contains(corpus.last()) {
            d
        } else {
            d.push(corpus.last())
        }
    }
}


/// `v` lists each distinct word of `corpus` once, with its number of
/// occurrences, and nothing else.
pub open spec fn word_counts_of(v: Seq<WordCount>, corpus: Seq<Seq<char>>) -> bool {
    &&& forall|a: int, b: int| 0 <= a < b < v.len() ==> v[a].word@ != v[b].word@
    &&& forall|j: int|
        0 <= j < v.len() ==> #[trigger] v[j].count == occurrences(corpus, v[j].word@) && v[j].count
            > 0
    &&& forall|w: Seq<char>|
        #[trigger] occurrences(corpus, w) > 0 ==> exists|j: int|
            0 <= j < v.len() && #[trigger] v[j].word@ == w
}

/// Counts the occurrences of each distinct word of `corpus`.
pub fn get_vocab(corpus: &Vec<String>) -> (r: Vec<WordCount>)
    ensures
        word_counts_of(r@, string_views(corpus@)),
        r@.len() == distinct_words(string_views(corpus@)).len(),
        forall|j: int| 0 <= j < r@.len() ==> #[trigger] r@[j].word@ == distinct_words(string_views(corpus@))[j],
{
    let mut v: Vec<WordCount> = Vec::new();
    let mut i: usize = 0;
    assert(string_views(corpus@.subrange(0, 0)) =~= Seq::<Seq<char>>::empty());
    while i < corpus.len()
        invariant
            i <= corpus@.len(),
            v@.len() <= i,
            word_counts_of(v@, string_views(corpus@.subrange(0, i as int))),
            forall|j: int| 0 <= j < v@.len() ==> #[trigger] v@[j].count <= i,
            v@.len() == distinct_words(string_views(corpus@.subrange(0, i as int))).len(),
            forall|j: int| 0 <= j < v@.len() ==> #[trigger] v@[j].word@ == distinct_words(
                string_views(corpus@.subrange(0, i as int)),
            )[j],
        decreases corpus@.len() - i,
    {
        let ghost pre = string_views(corpus@.subrange(0, i as int));
        let ghost post = string_views(corpus@.subrange(0, i + 1int));
        let w = &corpus[i];
        assert(post.drop_last() =~= pre);
        assert(post.last() == w@);
        let mut k: usize = 0;
        let mut found: Option<usize> = None;
        while k < v.len()
            invariant
                k <= v@.len(),
                found matches Some(f) ==> f < v@.len() && v@[f as int].word@ == w@,
                found is None ==> forall|j: int| 0 <= j < k ==> #[trigger] v@[j].word@ != w@,
            decreases v@.len() - k,
        {
            if found.is_none() && v[k].word == *w {
                found = Some(k);
            }
            k = k + 1;
        }
        let ghost old_v = v@;
        match found {
            Some(f) => {
                let c = v[f].count;
                let word = v[f].word.clone();
                v.set(f, WordCount { word, count: c + 1 });
                assert(distinct_words(pre).contains(w@)) by {
                    assert(distinct_words(pre)[f as int] == w@);
                }
                assert forall|q: Seq<char>| #[trigger] occurrences(post, q) > 0 implies exists|j: int|
                    0 <= j < v@.len() && #[trigger] v@[j].word@ == q by {
                    if q == w@ {
                        assert(v@[f as int].word@ == q);
                    } else {
                        assert(occurrences(pre, q) > 0);
                        let j = choose|j: int| 0 <= j < old_v.len() && #[trigger] old_v[j].word@ == q;
                        assert(v@[j].word@ == q);
                    }
                }
            },
            None => {
                assert(occurrences(pre, w@) == 0);
                assert(!distinct_words(pre).contains(w@)) by {
                    if distinct_words(pre).contains(w@) {
                        let t = choose|t: int| 0 <= t < distinct_words(pre).len() && distinct_words(pre)[t] == w@;
                        assert(v@[t].word@ == w@);
                    }
                }
                v.push(WordCount { word: w.clone(), count: 1 });
                assert forall|q: Seq<char>| #[trigger] occurrences(post, q) > 0 implies exists|j: int|
                    0 <= j < v@.len() && #[trigger] v@[j].word@ == q by {
                    if q == w@ {
                        assert(v@[old_v.len() as int].word@ == q);
                    } else {
                        assert(occurrences(pre, q) > 0);
                        let j = choose|j: int| 0 <= j < old_v.len() && #[trigger] old_v[j].word@ == q;
                        assert(v@[j].word@ == q);
                    }
                }
            },
        }
        i = i + 1;
    }
    assert(corpus@.subrange(0, i as int) =~= corpus@);
    v
}

/// A word split into symbols, and its number of occurrences.
pub struct WordSymbols {
    pub symbols: Vec<Vec<char>>,
    pub count: usize,
}

/// The symbols of `e`, as character sequences.
pub open spec fn sym_view(e: WordSymbols) -> Seq<Seq<char>> {
    e.symbols@.map_values(|x: Vec<char>| x@)
}

/// Number of positions of `w` where symbol `a` is followed by symbol `b`.
pub open spec fn sym_pair_count(w: Seq<Seq<char>>, a: Seq<char>, b: Seq<char>) -> nat
    decreases w.len(),
{
    if w.len() < 2 {
        0
    } else {
        sym_pair_count(w.drop_last(), a, b) + if w[w.len() - 2] == a && w[w.len() - 1] == b {
            1nat
        } else {
            0nat
        }
    }
}

/// Occurrences of the pair `(a, b)` in the words of `v`, each word weighted by
/// its count.
pub open spec fn weighted_count(v: Seq<(Seq<Seq<char>>, nat)>, a: Seq<char>, b: Seq<char>) -> nat
    decreases v.len(),
{
    if v.len() == 0 {
        0
    } else {
        weighted_count(v.drop_last(), a, b) + v.last().1 * sym_pair_count(v.last().0, a, b)
    }
}

/// The words of `v` as symbol sequences, with their counts.
pub open spec fn words_view(v: Seq<WordSymbols>) -> Seq<(Seq<Seq<char>>, nat)> {
    v.map_values(|e: WordSymbols| (sym_view(e), e.count as nat))
}

/// `n`, or `usize::MAX` where `n` exceeds it.
pub open spec fn saturate(n: nat) -> nat {
    if n > usize::MAX {
        usize::MAX as nat
    } else {
        n
    }
}

/// A pair of symbols and its weighted number of occurrences, saturated at
/// `usize::MAX`.
pub struct SymPairCount {
    pub left: Vec<char>,
    pub right: Vec<char>,
    pub count: usize,
}

/// Whether `a` and `b` hold the same characters.
pub fn chars_eq(a: &Vec<char>, b: &Vec<char>) -> (r: bool)
    ensures
        r == (a@ == b@),
{
    if a.len() != b.len() {
        return false;
    }
    let mut i: usize = 0;
    while i < a.len()
        invariant
            a@.len() == b@.len(),
            i <= a@.len(),
            forall|j: int| 0 <= j < i ==> a@[j] == b@[j],
        decreases a@.len() - i,
    {
        if a[i] != b[i] {
            return false;
        }
        i = i + 1;
    }
    assert(a@ =~= b@);
    true
}

/// A copy of `a`.
pub fn copy_chars(a: &Vec<char>) -> (r: Vec<char>)
    ensures
        r@ == a@,
{
    let mut r: Vec<char> = Vec::new();
    let mut i: usize = 0;
    while i < a.len()
        invariant
            i <= a@.len(),
            r@ == a@.subrange(0, i as int),
        decreases a@.len() - i,
    {
        r.push(a[i]);
        i = i + 1;
        assert(r@ =~= a@.subrange(0, i as int));
    }
    assert(a@.subrange(0, i as int) =~= a@);
    r
}

proof fn lemma_saturate_add(n: nat, f: nat)
    ensures
        saturate(saturate(n) + f) == saturate(n + f),
{
}

/// Position of the entry for `(a, b)`, if there is one.
fn find_sym_pair(c: &Vec<SymPairCount>, a: &Vec<char>, b: &Vec<char>) -> (r: Option<usize>)
    ensures
        match r {
            Some(k) => k < c@.len() && c@[k as int].left@ == a@ && c@[k as int].right@ == b@,
            None => forall|j: int|
                0 <= j < c@.len() ==> !(#[trigger] c@[j].left@ == a@ && c@[j].right@ == b@),
        },
{
    let mut k: usize = 0;
    while k < c.len()
        invariant
            k <= c@.len(),
            forall|j: int| 0 <= j < k ==> !(#[trigger] c@[j].left@ == a@ && c@[j].right@ == b@),
        decreases c@.len() - k,
    {
        if chars_eq(&c[k].left, a) && chars_eq(&c[k].right, b) {
            return Some(k);
        }
        k = k + 1;
    }
    None
}

/// `c` lists each pair `(a, b)` with `f(a, b) > 0` once, with count
/// `saturate(f(a, b))`, and nothing else.
pub open spec fn tallies(c: Seq<SymPairCount>, f: spec_fn(Seq<char>, Seq<char>) -> nat) -> bool {
    &&& forall|x: int, y: int|
        0 <= x < y < c.len() ==> (c[x].left@, c[x].right@) != (c[y].left@, c[y].right@)
    &&& forall|j: int|
        0 <= j < c.len() ==> #[trigger] c[j].count == saturate(f(c[j].left@, c[j].right@)) && f(
            c[j].left@,
            c[j].right@,
        ) > 0
    &&& forall|a: Seq<char>, b: Seq<char>|
        #[trigger] f(a, b) > 0 ==> exists|j: int|
            0 <= j < c.len() && #[trigger] c[j].left@ == a && c[j].right@ == b
}

proof fn lemma_tallies_ext(
    c: Seq<SymPairCount>,
    f: spec_fn(Seq<char>, Seq<char>) -> nat,
    g: spec_fn(Seq<char>, Seq<char>) -> nat,
)
    requires
        tallies(c, f),
        forall|a: Seq<char>, b: Seq<char>| #[trigger] f(a, b) == g(a, b),
    ensures
        tallies(c, g),
{
    assert(f =~= g);
}

/// Adds `freq` to the tally of `(left, right)`, saturating.
fn tally_pair(
    c: &mut Vec<SymPairCount>,
    left: &Vec<char>,
    right: &Vec<char>,
    freq: usize,
    Ghost(f): Ghost<spec_fn(Seq<char>, Seq<char>) -> nat>,
)
    requires
        tallies(old(c)@, f),
        freq > 0,
    ensures
        tallies(
            final(c)@,
            |a: Seq<char>, b: Seq<char>|
                f(a, b) + if a == left@ && b == right@ {
                    freq as nat
                } else {
                    0nat
                },
        ),
{
    let ghost g = |a: Seq<char>, b: Seq<char>|
        f(a, b) + if a == left@ && b == right@ {
            freq as nat
        } else {
            0nat
        };
    let ghost old_c = c@;
    match find_sym_pair(c, left, right) {
        Some(k) => {
            let cnt = c[k].count.saturating_add(freq);
            let l2 = copy_chars(&c[k].left);
            let r2 = copy_chars(&c[k].right);
            proof {
                lemma_saturate_add(f(left@, right@), freq as nat);
            }
            c.set(k, SymPairCount { left: l2, right: r2, count: cnt });
            assert forall|q: int| 0 <= q < c@.len() implies #[trigger] c@[q].count == saturate(
                g(c@[q].left@, c@[q].right@),
            ) && g(c@[q].left@, c@[q].right@) > 0 by {
                if q != k {
                    assert(c@[q] == old_c[q]);
                    assert(old_c[q].count == saturate(f(old_c[q].left@, old_c[q].right@)));
                }
            }
            assert forall|a: Seq<char>, b: Seq<char>| #[trigger] g(a, b) > 0 implies exists|q: int|
                0 <= q < c@.len() && #[trigger] c@[q].left@ == a && c@[q].right@ == b by {
                if a == left@ && b == right@ {
                    assert(c@[k as int].left@ == a && c@[k as int].right@ == b);
                } else {
                    assert(f(a, b) > 0);
                    let q = choose|q: int|
                        0 <= q < old_c.len() && #[trigger] old_c[q].left@ == a && old_c[q].right@ == b;
                    assert(c@[q].left@ == a && c@[q].right@ == b);
                }
            }
        },
        None => {
            assert(f(left@, right@) == 0);
            let l2 = copy_chars(left);
            let r2 = copy_chars(right);
            c.push(SymPairCount { left: l2, right: r2, count: freq });
            assert forall|q: int| 0 <= q < c@.len() implies #[trigger] c@[q].count == saturate(
                g(c@[q].left@, c@[q].right@),
            ) && g(c@[q].left@, c@[q].right@) > 0 by {
                if q < old_c.len() {
                    assert(c@[q] == old_c[q]);
                    assert(old_c[q].count == saturate(f(old_c[q].left@, old_c[q].right@)));
                }
            }
            assert forall|a: Seq<char>, b: Seq<char>| #[trigger] g(a, b) > 0 implies exists|q: int|
                0 <= q < c@.len() && #[trigger] c@[q].left@ == a && c@[q].right@ == b by {
                if a == left@ && b == right@ {
                    assert(c@[old_c.len() as int].left@ == a && c@[old_c.len() as int].right@ == b);
                } else {
                    assert(f(a, b) > 0);
                    let q = choose|q: int|
                        0 <= q < old_c.len() && #[trigger] old_c[q].left@ == a && old_c[q].right@ == b;
                    assert(c@[q].left@ == a && c@[q].right@ == b);
                }
            }
        },
    }
}

/// Adds the pairs of one word, each weighted by `freq`, to the tallies.
fn tally_word(
    c: &mut Vec<SymPairCount>,
    syms: &Vec<Vec<char>>,
    freq: usize,
    Ghost(f): Ghost<spec_fn(Seq<char>, Seq<char>) -> nat>,
)
    requires
        tallies(old(c)@, f),
    ensures
        tallies(
            final(c)@,
            |a: Seq<char>, b: Seq<char>|
                f(a, b) + (freq as nat) * sym_pair_count(
                    syms@.map_values(|x: Vec<char>| x@),
                    a,
                    b,
                ),
        ),
{
    let ghost w = syms@.map_values(|x: Vec<char>| x@);
    let ghost target = |a: Seq<char>, b: Seq<char>| f(a, b) + (freq as nat) * sym_pair_count(w, a, b);
    let n = syms.len();
    if n < 2 || freq == 0 {
        assert forall|a: Seq<char>, b: Seq<char>| #[trigger] f(a, b) == target(a, b) by {
            if freq > 0 {
                assert(sym_pair_count(w, a, b) == 0);
                assert((freq as nat) * 0 == 0);
            } else {
                assert(0 * sym_pair_count(w, a, b) == 0);
            }
        }
        proof {
            lemma_tallies_ext(c@, f, target);
        }
        return;
    }
    let mut j: usize = 0;
    assert forall|a: Seq<char>, b: Seq<char>| #[trigger] f(a, b) == f(a, b) + (freq as nat)
        * sym_pair_count(w.subrange(0, 1), a, b) by {
        assert(sym_pair_count(w.subrange(0, 1), a, b) == 0);
        assert((freq as nat) * 0 == 0);
    }
    proof {
        lemma_tallies_ext(
            c@,
            f,
            |a: Seq<char>, b: Seq<char>|
                f(a, b) + (freq as nat) * sym_pair_count(w.subrange(0, 1), a, b),
        );
    }
    while j + 1 < n
        invariant
            n == syms@.len(),
            n >= 2,
            freq > 0,
            j + 1 <= n,
            w == syms@.map_values(|x: Vec<char>| x@),
            tallies(
                c@,
                |a: Seq<char>, b: Seq<char>|
                    f(a, b) + (freq as nat) * sym_pair_count(w.subrange(0, j + 1), a, b),
            ),
        decreases n - j,
    {
        let ghost cur = |a: Seq<char>, b: Seq<char>|
            f(a, b) + (freq as nat) * sym_pair_count(w.subrange(0, j + 1), a, b);
        let ghost a0 = w[j as int];
        let ghost b0 = w[j + 1];
        tally_pair(c, &syms[j], &syms[j + 1], freq, Ghost(cur));
        proof {
            let s0 = w.subrange(0, j + 1int);
            let s1 = w.subrange(0, j + 2int);
            assert(s1.drop_last() =~= s0);
            let nxt = |a: Seq<char>, b: Seq<char>|
                f(a, b) + (freq as nat) * sym_pair_count(s1, a, b);
            let got = |a: Seq<char>, b: Seq<char>|
                cur(a, b) + if a == syms@[j as int]@ && b == syms@[j + 1]@ {
                    freq as nat
                } else {
                    0nat
                };
            assert forall|a: Seq<char>, b: Seq<char>| #[trigger] got(a, b) == nxt(a, b) by {
                let m = sym_pair_count(s0, a, b);
                if a == a0 && b == b0 {
                    assert(sym_pair_count(s1, a, b) == m + 1);
                    assert((freq as nat) * (m + 1) == (freq as nat) * m + freq) by (nonlinear_arith);
                } else {
                    assert(sym_pair_count(s1, a, b) == m);
                }
            }
            lemma_tallies_ext(c@, got, nxt);
        }
        j = j + 1;
    }
    assert(w.subrange(0, j + 1int) =~= w);
}

/// Counts the adjacent symbol pairs of the words of `v`, each occurrence
/// weighted by its word's count and the total saturated at `usize::MAX`.
pub fn get_stats(v: &Vec<WordSymbols>) -> (r: Vec<SymPairCount>)
    ensures
        tallies(r@, |a: Seq<char>, b: Seq<char>| weighted_count(words_view(v@), a, b)),
{
    let mut c: Vec<SymPairCount> = Vec::new();
    let mut i: usize = 0;
    assert(words_view(v@.subrange(0, 0)) =~= Seq::<(Seq<Seq<char>>, nat)>::empty());
    assert(tallies(c@, |a: Seq<char>, b: Seq<char>| weighted_count(words_view(v@.subrange(0, 0)), a, b)));
    while i < v.len()
        invariant
            i <= v@.len(),
            tallies(c@, |a: Seq<char>, b: Seq<char>| weighted_count(words_view(v@.subrange(0, i as int)), a, b)),
        decreases v@.len() - i,
    {
        let ghost pre = words_view(v@.subrange(0, i as int));
        let ghost post = words_view(v@.subrange(0, i + 1int));
        assert(post.drop_last() =~= pre);
        assert(post.last() == (sym_view(v@[i as int]), v@[i as int].count as nat));
        let ghost f0 = |a: Seq<char>, b: Seq<char>| weighted_count(pre, a, b);
        let syms = &v[i].symbols;
        let freq = v[i].count;
        proof {
            lemma_tallies_ext(c@, |a: Seq<char>, b: Seq<char>| weighted_count(words_view(v@.subrange(0, i as int)), a, b), f0);
        }
        tally_word(&mut c, syms, freq, Ghost(f0));
        proof {
            lemma_tallies_ext(
                c@,
                |a: Seq<char>, b: Seq<char>|
                    f0(a, b) + (freq as nat) * sym_pair_count(
                        syms@.map_values(|x: Vec<char>| x@),
                        a,
                        b,
                    ),
                |a: Seq<char>, b: Seq<char>| weighted_count(words_view(v@.subrange(0, i + 1int)), a, b),
            );
        }
        i = i + 1;
    }
    assert(v@.subrange(0, i as int) =~= v@);
    c
}

/// Lexicographic order on character sequences, by code point; a proper prefix
/// comes first.
pub open spec fn chars_lt(x: Seq<char>, y: Seq<char>) -> bool
    decreases x.len(),
{
    if y.len() == 0 {
        false
    } else if x.len() == 0 {
        true
    } else if x[0] != y[0] {
        (x[0] as u32) < (y[0] as u32)
    } else {
        chars_lt(x.subrange(1, x.len() as int), y.subrange(1, y.len() as int))
    }
}

/// Order on symbol pairs: by left symbol, then by right symbol.
pub open spec fn sym_pair_lt(p: (Seq<char>, Seq<char>), q: (Seq<char>, Seq<char>)) -> bool {
    chars_lt(p.0, q.0) || (p.0 == q.0 && chars_lt(p.1, q.1))
}

proof fn lemma_chars_lt_order(x: Seq<char>, y: Seq<char>, z: Seq<char>)
    ensures
        !chars_lt(x, x),
        !(chars_lt(x, y) && chars_lt(y, x)),
        x != y ==> chars_lt(x, y) || chars_lt(y, x),
        chars_lt(x, y) && chars_lt(y, z) ==> chars_lt(x, z),
    decreases x.len(),
{
    if x.len() > 0 {
        let x1 = x.subrange(1, x.len() as int);
        let y1 = y.subrange(1, y.len() as int);
        let z1 = z.subrange(1, z.len() as int);
        lemma_chars_lt_order(x1, y1, z1);
        lemma_chars_lt_order(x1, x1, x1);
        if y.len() > 0 && x != y && x[0] == y[0] {
            assert(x =~= seq![x[0]] + x1);
            assert(y =~= seq![y[0]] + y1);
        }
        if y.len() > 0 && x[0] != y[0] {
            vstd::utf8::char_u32_cast(x[0], x[0] as u32);
            vstd::utf8::char_u32_cast(y[0], y[0] as u32);
        }
    } else {
        if y.len() > 0 {
            assert(x != y);
        } else {
            assert(x =~= y);
        }
    }
}

/// `(a, b)` occurs in `v`, no pair has a larger saturated count, and no pair
/// with the same saturated count comes before it.
pub open spec fn is_best_word_pair(v: Seq<(Seq<Seq<char>>, nat)>, p: (Seq<char>, Seq<char>)) -> bool {
    &&& weighted_count(v, p.0, p.1) > 0
    &&& forall|a: Seq<char>, b: Seq<char>|
        #[trigger] saturate(weighted_count(v, a, b)) < saturate(weighted_count(v, p.0, p.1)) || (
        saturate(weighted_count(v, a, b)) == saturate(weighted_count(v, p.0, p.1)) && !sym_pair_lt(
            (a, b),
            p,
        ))
}

/// The pair that a word-level epoch merges on `v`.
pub open spec fn best_word_pair(v: Seq<(Seq<Seq<char>>, nat)>) -> (Seq<char>, Seq<char>) {
    choose|p: (Seq<char>, Seq<char>)| is_best_word_pair(v, p)
}

/// Whether `a` comes before `b` in `chars_lt` order.
pub fn chars_less(a: &Vec<char>, b: &Vec<char>) -> (r: bool)
    ensures
        r == chars_lt(a@, b@),
{
    let mut i: usize = 0;
    assert(a@.subrange(0, a@.len() as int) =~= a@);
    assert(b@.subrange(0, b@.len() as int) =~= b@);
    while i < a.len() && i < b.len()
        invariant
            i <= a@.len(),
            i <= b@.len(),
            chars_lt(a@, b@) == chars_lt(
                a@.subrange(i as int, a@.len() as int),
                b@.subrange(i as int, b@.len() as int),
            ),
        decreases a@.len() - i,
    {
        let ghost x = a@.subrange(i as int, a@.len() as int);
        let ghost y = b@.subrange(i as int, b@.len() as int);
        if a[i] != b[i] {
            return (a[i] as u32) < (b[i] as u32);
        }
        assert(x.subrange(1, x.len() as int) =~= a@.subrange(i + 1int, a@.len() as int));
        assert(y.subrange(1, y.len() as int) =~= b@.subrange(i + 1int, b@.len() as int));
        i = i + 1;
    }
    i < b.len()
}

/// Whether entry `x` comes before entry `y` in `sym_pair_lt` order.
fn entry_less(x: &SymPairCount, y: &SymPairCount) -> (r: bool)
    ensures
        r == sym_pair_lt((x.left@, x.right@), (y.left@, y.right@)),
{
    chars_less(&x.left, &y.left) || (chars_eq(&x.left, &y.left) && chars_less(&x.right, &y.right))
}

/// The index of the entry with the largest count; among equal counts, the one
/// whose pair comes first.
fn pick_best(c: &Vec<SymPairCount>) -> (r: usize)
    requires
        c@.len() > 0,
    ensures
        r < c@.len(),
        forall|j: int|
            0 <= j < c@.len() ==> #[trigger] c@[j].count < c@[r as int].count || (c@[j].count
                == c@[r as int].count && !sym_pair_lt(
                (c@[j].left@, c@[j].right@),
                (c@[r as int].left@, c@[r as int].right@),
            )),
{
    let mut b: usize = 0;
    let mut k: usize = 1;
    proof {
        let x = c@[0].left@;
        let y = c@[0].right@;
        lemma_chars_lt_order(x, x, x);
        lemma_chars_lt_order(y, y, y);
    }
    while k < c.len()
        invariant
            0 < k <= c@.len(),
            b < c@.len(),
            forall|j: int|
                0 <= j < k ==> #[trigger] c@[j].count < c@[b as int].count || (c@[j].count
                    == c@[b as int].count && !sym_pair_lt(
                    (c@[j].left@, c@[j].right@),
                    (c@[b as int].left@, c@[b as int].right@),
                )),
        decreases c@.len() - k,
    {
        let better = c[k].count > c[b].count || (c[k].count == c[b].count && entry_less(&c[k], &c[b]));
        if better {
            proof {
                let pk = (c@[k as int].left@, c@[k as int].right@);
                let pb = (c@[b as int].left@, c@[b as int].right@);
                assert forall|j: int| 0 <= j < k + 1 implies #[trigger] c@[j].count < c@[k as int].count || (c@[j].count
                    == c@[k as int].count && !sym_pair_lt(
                    (c@[j].left@, c@[j].right@),
                    pk,
                )) by {
                    let pj = (c@[j].left@, c@[j].right@);
                    lemma_chars_lt_order(pj.0, pk.0, pb.0);
                    lemma_chars_lt_order(pj.1, pk.1, pb.1);
                    lemma_chars_lt_order(pk.0, pk.0, pk.0);
                    lemma_chars_lt_order(pk.1, pk.1, pk.1);
                }
            }
            b = k;
        } else {
            proof {
                let pk = (c@[k as int].left@, c@[k as int].right@);
                let pb = (c@[b as int].left@, c@[b as int].right@);
                lemma_chars_lt_order(pk.0, pb.0, pb.0);
                lemma_chars_lt_order(pk.1, pb.1, pb.1);
            }
        }
        k = k + 1;
    }
    b
}

proof fn lemma_best_word_unique(v: Seq<(Seq<Seq<char>>, nat)>, p: (Seq<char>, Seq<char>), q: (Seq<char>, Seq<char>))
    requires
        is_best_word_pair(v, p),
        is_best_word_pair(v, q),
    ensures
        p == q,
{
    assert(saturate(weighted_count(v, q.0, q.1)) == saturate(weighted_count(v, p.0, p.1)));
    assert(!sym_pair_lt(q, p));
    assert(!sym_pair_lt(p, q));
    lemma_chars_lt_order(p.0, q.0, q.0);
    lemma_chars_lt_order(p.1, q.1, q.1);
}

/// The pair of symbols to merge next: the largest weighted count wins, ties go
/// to the pair that comes first. `None` when no word has two symbols.
pub fn most_frequent_word_pair(v: &Vec<WordSymbols>) -> (r: Option<(Vec<char>, Vec<char>)>)
    ensures
        r is None <==> forall|a: Seq<char>, b: Seq<char>| #[trigger] weighted_count(words_view(v@), a, b) == 0,
        r matches Some(p) ==> (p.0@, p.1@) == best_word_pair(words_view(v@)) && is_best_word_pair(
            words_view(v@),
            (p.0@, p.1@),
        ),
{
    let ghost wv = words_view(v@);
    let ghost f = |a: Seq<char>, b: Seq<char>| weighted_count(words_view(v@), a, b);
    let c = get_stats(v);
    assert(tallies(c@, f));
    if c.len() == 0 {
        assert forall|a: Seq<char>, b: Seq<char>| #[trigger] weighted_count(wv, a, b) == 0 by {
            assert(f(a, b) == weighted_count(wv, a, b));
            if weighted_count(wv, a, b) > 0 {
                let j = choose|j: int| 0 <= j < c@.len() && #[trigger] c@[j].left@ == a && c@[j].right@ == b;
            }
        }
        return None;
    }
    let k = pick_best(&c);
    let ghost p = (c@[k as int].left@, c@[k as int].right@);
    assert(c@[k as int].count == saturate(f(p.0, p.1)));
    assert forall|a: Seq<char>, b: Seq<char>|
        #[trigger] saturate(weighted_count(wv, a, b)) < saturate(weighted_count(wv, p.0, p.1)) || (
        saturate(weighted_count(wv, a, b)) == saturate(weighted_count(wv, p.0, p.1)) && !sym_pair_lt(
            (a, b),
            p,
        )) by {
        assert(f(a, b) == weighted_count(wv, a, b));
        if weighted_count(wv, a, b) > 0 {
            let j = choose|j: int| 0 <= j < c@.len() && #[trigger] c@[j].left@ == a && c@[j].right@ == b;
            assert(c@[j].count == saturate(f(a, b)));
        }
    }
    assert(is_best_word_pair(wv, p));
    proof {
        lemma_best_word_unique(wv, p, best_word_pair(wv));
    }
    let l = copy_chars(&c[k].left);
    let r = copy_chars(&c[k].right);
    Some((l, r))
}

/// `w` with each non-overlapping occurrence of `a` followed by `b`, leftmost
/// first, replaced by the single symbol `a + b`.
pub open spec fn merge_syms(w: Seq<Seq<char>>, a: Seq<char>, b: Seq<char>) -> Seq<Seq<char>>
    decreases w.len(),
{
    if w.len() < 2 {
        w
    } else if w[0] == a && w[1] == b {
        seq![a + b] + merge_syms(w.subrange(2, w.len() as int), a, b)
    } else {
        seq![w[0]] + merge_syms(w.subrange(1, w.len() as int), a, b)
    }
}

/// Every word of `v` with the pair `p` merged; counts are kept.
pub open spec fn merge_words(v: Seq<(Seq<Seq<char>>, nat)>, p: (Seq<char>, Seq<char>)) -> Seq<
    (Seq<Seq<char>>, nat),
> {
    v.map_values(|e: (Seq<Seq<char>>, nat)| (merge_syms(e.0, p.0, p.1), e.1))
}

/// The word table after `epochs` word-level epochs on `v`; an epoch with no
/// pair left changes nothing.
pub open spec fn train_words(v: Seq<(Seq<Seq<char>>, nat)>, epochs: nat) -> Seq<(Seq<Seq<char>>, nat)>
    decreases epochs,
{
    if epochs == 0 || !(exists|a: Seq<char>, b: Seq<char>| weighted_count(v, a, b) > 0) {
        v
    } else {
        train_words(merge_words(v, best_word_pair(v)), (epochs - 1) as nat)
    }
}

/// The distinct words of `corpus`, each split into one symbol per character,
/// with their numbers of occurrences.
pub open spec fn initial_words(corpus: Seq<Seq<char>>) -> Seq<(Seq<Seq<char>>, nat)> {
    distinct_words(corpus).map_values(
        |w: Seq<char>| (w.map_values(|c: char| seq![c]), occurrences(corpus, w)),
    )
}

/// The symbols of `w` separated by single spaces.
pub open spec fn join_syms(w: Seq<Seq<char>>) -> Seq<char>
    decreases w.len(),
{
    if w.len() == 0 {
        Seq::empty()
    } else if w.len() == 1 {
        w[0]
    } else {
        join_syms(w.drop_last()) + seq![' '] + w.last()
    }
}

/// The views of a sequence of symbols.
pub open spec fn syms_view(s: Seq<Vec<char>>) -> Seq<Seq<char>> {
    s.map_values(|x: Vec<char>| x@)
}

/// `a` followed by `b`.
fn concat_chars(a: &Vec<char>, b: &Vec<char>) -> (r: Vec<char>)
    ensures
        r@ == a@ + b@,
{
    let mut r = copy_chars(a);
    let mut j: usize = 0;
    while j < b.len()
        invariant
            j <= b@.len(),
            r@ == a@ + b@.subrange(0, j as int),
        decreases b@.len() - j,
    {
        r.push(b[j]);
        j = j + 1;
        assert(r@ =~= a@ + b@.subrange(0, j as int));
    }
    assert(b@.subrange(0, j as int) =~= b@);
    r
}

/// Merges each non-overlapping occurrence of the symbol `a` followed by the
/// symbol `b` in `syms`, leftmost first, into one symbol.
pub fn merge_word(syms: &Vec<Vec<char>>, a: &Vec<char>, b: &Vec<char>) -> (r: Vec<Vec<char>>)
    ensures
        syms_view(r@) == merge_syms(syms_view(syms@), a@, b@),
{
    let ghost w = syms_view(syms@);
    let n = syms.len();
    let mut out: Vec<Vec<char>> = Vec::new();
    let mut i: usize = 0;
    assert(w.subrange(0, n as int) =~= w);
    assert(syms_view(out@) + merge_syms(w, a@, b@) =~= merge_syms(w, a@, b@));
    while i < n
        invariant
            n == syms@.len(),
            w == syms_view(syms@),
            i <= n,
            merge_syms(w, a@, b@) == syms_view(out@) + merge_syms(w.subrange(i as int, n as int), a@, b@),
        decreases n - i,
    {
        let ghost rest = w.subrange(i as int, n as int);
        let ghost before = syms_view(out@);
        if i + 1 < n && chars_eq(&syms[i], a) && chars_eq(&syms[i + 1], b) {
            assert(rest.subrange(2, rest.len() as int) =~= w.subrange(i + 2, n as int));
            let m = concat_chars(a, b);
            out.push(m);
            assert(syms_view(out@) =~= before.push(a@ + b@));
            i = i + 2;
        } else {
            if i + 1 < n {
                assert(rest.subrange(1, rest.len() as int) =~= w.subrange(i + 1, n as int));
            } else {
                assert(w.subrange(i + 1, n as int) =~= Seq::<Seq<char>>::empty());
                assert(rest =~= seq![w[i as int]]);
            }
            let m = copy_chars(&syms[i]);
            out.push(m);
            assert(syms_view(out@) =~= before.push(w[i as int]));
            i = i + 1;
        }
        assert(merge_syms(w, a@, b@) =~= syms_view(out@) + merge_syms(w.subrange(i as int, n as int), a@, b@));
    }
    assert(w.subrange(n as int, n as int) =~= Seq::<Seq<char>>::empty());
    assert(syms_view(out@) + Seq::<Seq<char>>::empty() =~= syms_view(out@));
    out
}

/// Every word of `v` with the pair `(a, b)` merged.
pub fn merge_vocab(v: &Vec<WordSymbols>, a: &Vec<char>, b: &Vec<char>) -> (r: Vec<WordSymbols>)
    ensures
        words_view(r@) == merge_words(words_view(v@), (a@, b@)),
{
    let mut out: Vec<WordSymbols> = Vec::new();
    let mut i: usize = 0;
    while i < v.len()
        invariant
            i <= v@.len(),
            out@.len() == i,
            words_view(out@) == merge_words(words_view(v@), (a@, b@)).subrange(0, i as int),
        decreases v@.len() - i,
    {
        let syms = merge_word(&v[i].symbols, a, b);
        let ghost before = words_view(out@);
        let ghost sv = syms_view(syms@);
        out.push(WordSymbols { symbols: syms, count: v[i].count });
        proof {
            assert(sym_view(v@[i as int]) == syms_view(v@[i as int].symbols@));
            assert(out@.len() == i + 1);
            assert(sym_view(out@[i as int]) == sv);
            assert(words_view(out@) =~= before.push(words_view(out@)[i as int]));
            assert(words_view(out@)[i as int] == merge_words(words_view(v@), (a@, b@))[i as int]);
        }
        i = i + 1;
        assert(words_view(out@) =~= merge_words(words_view(v@), (a@, b@)).subrange(0, i as int));
    }
    assert(merge_words(words_view(v@), (a@, b@)).subrange(0, i as int) =~= merge_words(words_view(v@), (a@, b@)));
    out
}

/// Relies on str::chars: the characters of `s`, in order.
#[verifier::external_body]
fn chars_of(s: &String) -> (r: Vec<char>)
    ensures
        r@ == s@,
{
    s.chars().collect()
}

/// The words of `v`, each split into one symbol per character.
fn split_words(v: &Vec<WordCount>) -> (r: Vec<WordSymbols>)
    ensures
        words_view(r@) == v@.map_values(
            |e: WordCount| (e.word@.map_values(|c: char| seq![c]), e.count as nat),
        ),
{
    let mut out: Vec<WordSymbols> = Vec::new();
    let mut i: usize = 0;
    while i < v.len()
        invariant
            i <= v@.len(),
            out@.len() == i,
            words_view(out@) == v@.map_values(
                |e: WordCount| (e.word@.map_values(|c: char| seq![c]), e.count as nat),
            ).subrange(0, i as int),
        decreases v@.len() - i,
    {
        let cs = chars_of(&v[i].word);
        let mut syms: Vec<Vec<char>> = Vec::new();
        let mut j: usize = 0;
        while j < cs.len()
            invariant
                j <= cs@.len(),
                syms_view(syms@) == cs@.map_values(|c: char| seq![c]).subrange(0, j as int),
            decreases cs@.len() - j,
        {
            let mut one: Vec<char> = Vec::new();
            one.push(cs[j]);
            assert(one@ =~= seq![cs@[j as int]]);
            let ghost before = syms_view(syms@);
            syms.push(one);
            assert(syms_view(syms@) =~= before.push(seq![cs@[j as int]]));
            j = j + 1;
            assert(syms_view(syms@) =~= cs@.map_values(|c: char| seq![c]).subrange(0, j as int));
        }
        assert(cs@.map_values(|c: char| seq![c]).subrange(0, j as int) =~= cs@.map_values(|c: char| seq![c]));
        let ghost before = words_view(out@);
        let ghost sv = syms_view(syms@);
        out.push(WordSymbols { symbols: syms, count: v[i].count });
        proof {
            assert(sym_view(out@[i as int]) == sv);
            assert(words_view(out@) =~= v@.map_values(
                |e: WordCount| (e.word@.map_values(|c: char| seq![c]), e.count as nat),
            ).subrange(0, i + 1int));
        }
        i = i + 1;
    }
    assert(v@.map_values(
        |e: WordCount| (e.word@.map_values(|c: char| seq![c]), e.count as nat),
    ).subrange(0, i as int) =~= v@.map_values(
        |e: WordCount| (e.word@.map_values(|c: char| seq![c]), e.count as nat),
    ));
    out
}

/// The symbols of `syms` separated by single spaces.
fn join_symbols(syms: &Vec<Vec<char>>) -> (r: Vec<char>)
    ensures
        r@ == join_syms(syms_view(syms@)),
{
    let mut out: Vec<char> = Vec::new();
    let mut i: usize = 0;
    while i < syms.len()
        invariant
            i <= syms@.len(),
            out@ == join_syms(syms_view(syms@).subrange(0, i as int)),
        decreases syms@.len() - i,
    {
        let ghost pre = syms_view(syms@).subrange(0, i as int);
        let ghost post = syms_view(syms@).subrange(0, i + 1int);
        assert(post.drop_last() =~= pre);
        if i > 0 {
            out.push(' ');
        }
        let piece = &syms[i];
        let ghost start = out@;
        let mut j: usize = 0;
        while j < piece.len()
            invariant
                j <= piece@.len(),
                out@ == start + piece@.subrange(0, j as int),
            decreases piece@.len() - j,
        {
            out.push(piece[j]);
            j = j + 1;
            assert(out@ =~= start + piece@.subrange(0, j as int));
        }
        assert(piece@.subrange(0, j as int) =~= piece@);
        if i == 0 {
            assert(out@ =~= post[0]);
        } else {
            assert(out@ =~= join_syms(pre) + seq![' '] + post.last());
        }
        i = i + 1;
    }
    assert(syms_view(syms@).subrange(0, i as int) =~= syms_view(syms@));
    out
}

/// Each entry as its word's characters and its count.
pub open spec fn word_table(r: Seq<WordCount>) -> Seq<(Seq<char>, nat)> {
    r.map_values(|e: WordCount| (e.word@, e.count as nat))
}

/// Each word of `m` as its symbols joined by single spaces, with its count.
pub open spec fn rendered(m: Seq<(Seq<Seq<char>>, nat)>) -> Seq<(Seq<char>, nat)> {
    m.map_values(|e: (Seq<Seq<char>>, nat)| (join_syms(e.0), e.1))
}

/// Word-level training: counts the words of `corpus`, splits each into
/// characters, and for `epochs` epochs merges the pair of adjacent symbols
/// with the largest weighted count (ties to the pair that comes first). Returns
/// each distinct word, in order of first occurrence, as its symbols joined by
/// single spaces, with its count.
pub fn learn(corpus: &Vec<String>, epochs: usize) -> (r: Vec<WordCount>)
    ensures
        word_table(r@) == rendered(train_words(initial_words(string_views(corpus@)), epochs as nat)),
{
    let counts = get_vocab(corpus);
    let mut v = split_words(&counts);
    let ghost start = initial_words(string_views(corpus@));
    assert(words_view(v@) =~= start);
    let mut e: usize = 0;
    let mut done = false;
    while e < epochs && !done
        invariant
            e <= epochs,
            train_words(words_view(v@), (epochs - e) as nat) == train_words(start, epochs as nat),
            done ==> forall|a: Seq<char>, b: Seq<char>| #[trigger] weighted_count(words_view(v@), a, b) == 0,
        decreases epochs - e + if done { 0int } else { 1int },
    {
        match most_frequent_word_pair(&v) {
            None => {
                done = true;
            },
            Some(p) => {
                let ghost wv = words_view(v@);
                v = merge_vocab(&v, &p.0, &p.1);
                assert(train_words(wv, (epochs - e) as nat) == train_words(
                    words_view(v@),
                    (epochs - e - 1) as nat,
                ));
                e = e + 1;
            },
        }
    }
    let ghost model = train_words(start, epochs as nat);
    assert(train_words(words_view(v@), (epochs - e) as nat) == words_view(v@));
    let mut out: Vec<WordCount> = Vec::new();
    let mut i: usize = 0;
    while i < v.len()
        invariant
            i <= v@.len(),
            out@.len() == i,
            words_view(v@) == model,
            forall|k: int|
                0 <= k < i ==> #[trigger] out@[k].word@ == join_syms(model[k].0) && out@[k].count
                    == model[k].1,
        decreases v@.len() - i,
    {
        let joined = join_symbols(&v[i].symbols);
        let word = string_of_chars(&joined);
        proof {
            assert(words_view(v@)[i as int] == (sym_view(v@[i as int]), v@[i as int].count as nat));
            assert(sym_view(v@[i as int]) == syms_view(v@[i as int].symbols@));
        }
        out.push(WordCount { word, count: v[i].count });
        i = i + 1;
    }
    assert(model.len() == v@.len());
    assert(model == train_words(initial_words(string_views(corpus@)), epochs as nat));
    assert(word_table(out@) =~= rendered(model));
    out
}

} // verus!
