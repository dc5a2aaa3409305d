use vstd::prelude::*;

use crate::bpe::{can_encode, char_tokens, covers};
use crate::counts::{
    best_index, best_pair, keys, law_best_pair_is_most_frequent, law_tally_counts,
    lemma_best_index, lemma_best_pair_is_key, lemma_tally_from, lemma_updated_shrinks, merged,
    occurrences, tally, updated, CountsV,
};
use crate::text::{end_marker, is_ws, split_ws, words};
use crate::token::PairV;
use crate::vocabulary::vocab_add;

verus! {

/// The pairs of tokens that stand next to each other in `toks`, left to right.
pub open spec fn windows(toks: Seq<Seq<char>>) -> Seq<PairV> {
    Seq::new(
        (if toks.len() >= 1 {
            toks.len() - 1
        } else {
            0
        }) as nat,
        |j: int| (toks[j], toks[j + 1]),
    )
}

/// The adjacent pairs of the characters of one word.
pub open spec fn word_pairs(w: Seq<char>) -> Seq<PairV> {
    windows(char_tokens(w))
}

/// The adjacent pairs of characters within the words of `text`, word after word.
pub open spec fn text_pairs(text: Seq<char>) -> Seq<PairV> {
    words(text).map_values(|w: Seq<char>| word_pairs(w)).flatten()
}

/// The adjacent pairs of characters within the words of all the texts, in order.
pub open spec fn data_pairs(texts: Seq<Seq<char>>) -> Seq<PairV> {
    texts.map_values(|t: Seq<char>| text_pairs(t)).flatten()
}

/// The characters of each string.
pub open spec fn texts_of(data: Seq<String>) -> Seq<Seq<char>> {
    data.map_values(|s: String| s@)
}

/// `d` followed by the characters of `s` that are not yet in it, each once, in order.
pub open spec fn distinct_from(d: Seq<char>, s: Seq<char>) -> Seq<char>
    decreases s.len(),
{
    if s.len() == 0 {
        d
    } else {
        let e = distinct_from(d, s.drop_last());
        if e.contains(s.last()) {
            e
        } else {
            e.push(s.last())
        }
    }
}

/// The vocabulary that training starts from: a token for each distinct character of
/// the texts and of the end-of-word marker, in order of first occurrence.
pub open spec fn initial_vocab(texts: Seq<Seq<char>>) -> Seq<Seq<char>> {
    char_tokens(distinct_from(Seq::empty(), texts.flatten() + end_marker()))
}

/// `v` after each token of `ts` is added, in order.
pub open spec fn vocab_add_all(v: Seq<Seq<char>>, ts: Seq<Seq<char>>) -> Seq<Seq<char>>
    decreases ts.len(),
{
    if ts.len() == 0 {
        v
    } else {
        vocab_add(vocab_add_all(v, ts.drop_last()), ts.last())
    }
}

/// The merges that training learns from the counts `c`: the most frequent pair, then
/// those learnt from the counts after it is merged, until no pair is left or
/// `budget` merges are made (at least one is, if any pair is left).
pub open spec fn merge_sequence(c: CountsV, budget: int) -> Seq<PairV>
    decreases c.len(),
{
    match best_pair(c) {
        None => Seq::empty(),
        Some(p) => if budget <= 1 {
            seq![p]
        } else {
            proof {
                lemma_best_pair_is_key(c);
                lemma_updated_shrinks(c, p);
            }
            seq![p] + merge_sequence(updated(c, p), budget - 1)
        },
    }
}

/// What training on `texts` learns from a BPE whose merges number `done`, with the
/// given limit: the merges it appends.
pub open spec fn learnt_merges(texts: Seq<Seq<char>>, done: nat, limit: nat) -> Seq<PairV> {
    merge_sequence(tally(data_pairs(texts)), limit - done)
}

/// The tokens that the merges `ms` make, in order.
pub open spec fn merged_tokens(ms: Seq<PairV>) -> Seq<Seq<char>> {
    ms.map_values(|p: PairV| merged(p))
}

/// The vocabulary after training on `texts` that learns the merges `ms`.
pub open spec fn trained_vocab(texts: Seq<Seq<char>>, ms: Seq<PairV>) -> Seq<Seq<char>> {
    vocab_add_all(initial_vocab(texts), merged_tokens(ms))
}

pub proof fn lemma_flatten_split<A>(s: Seq<Seq<A>>, i: int)
    requires
        0 <= i < s.len(),
    ensures
        s.take(i + 1).flatten() == s.take(i).flatten() + s[i],
        s.flatten() == s.take(i).flatten() + s[i] + s.skip(i + 1).flatten(),
{
    assert(s.take(i + 1) =~= s.take(i).push(s[i]));
    s.take(i).lemma_flatten_push(s[i]);
    assert(s =~= s.take(i + 1) + s.skip(i + 1));
    vstd::seq_lib::lemma_flatten_concat(s.take(i + 1), s.skip(i + 1));
}

pub proof fn lemma_flatten_contains<A>(s: Seq<Seq<A>>, i: int, j: int)
    requires
        0 <= i < s.len(),
        0 <= j < s[i].len(),
    ensures
        s.flatten().contains(s[i][j]),
{
    lemma_flatten_split(s, i);
    let k = s.take(i).flatten().len() + j;
    assert(s.flatten()[k] == s[i][j]);
}

pub proof fn lemma_split_ws_chars(s: Seq<char>)
    ensures
        forall|k: int, j: int|
            0 <= k < split_ws(s).0.len() && 0 <= j < split_ws(s).0[k].len() ==> s.contains(
                #[trigger] split_ws(s).0[k][j],
            ) && !is_ws(split_ws(s).0[k][j]),
        forall|k: int| 0 <= k < split_ws(s).0.len() ==> (#[trigger] split_ws(s).0[k]).len() > 0,
        forall|j: int|
            0 <= j < split_ws(s).1.len() ==> s.contains(#[trigger] split_ws(s).1[j]) && !is_ws(
                split_ws(s).1[j],
            ),
    decreases s.len(),
{
    if s.len() > 0 {
        let d = s.drop_last();
        lemma_split_ws_chars(d);
        assert forall|c: char| d.contains(c) implies s.contains(c) by {
            let i = choose|i: int| 0 <= i < d.len() && d[i] == c;
            assert(s[i] == c);
        }
        let (ws0, cur0) = split_ws(d);
        let (ws, cur) = split_ws(s);
        let c = s.last();
        assert(s[s.len() - 1] == c);
        if is_ws(c) {
            if cur0.len() > 0 {
                assert(ws == ws0.push(cur0));
                assert forall|k: int, j: int|
                    0 <= k < ws.len() && 0 <= j < ws[k].len() implies s.contains(
                    #[trigger] ws[k][j],
                ) && !is_ws(ws[k][j]) by {
                    if k < ws0.len() {
                        assert(ws[k] == ws0[k]);
                        assert(d.contains(ws0[k][j]));
                    } else {
                        assert(ws[k] == cur0);
                        assert(d.contains(cur0[j]));
                    }
                }
                assert forall|k: int| 0 <= k < ws.len() implies (#[trigger] ws[k]).len() > 0 by {
                    if k < ws0.len() {
                        assert(ws[k] == ws0[k]);
                    }
                }
            } else {
                assert(ws == ws0);
                assert forall|k: int, j: int|
                    0 <= k < ws.len() && 0 <= j < ws[k].len() implies s.contains(
                    #[trigger] ws[k][j],
                ) && !is_ws(ws[k][j]) by {
                    assert(d.contains(ws0[k][j]));
                }
            }
        } else {
            assert(ws == ws0);
            assert(cur == cur0.push(c));
            assert forall|k: int, j: int|
                0 <= k < ws.len() && 0 <= j < ws[k].len() implies s.contains(
                #[trigger] ws[k][j],
            ) && !is_ws(ws[k][j]) by {
                assert(d.contains(ws0[k][j]));
            }
            assert forall|j: int| 0 <= j < cur.len() implies s.contains(#[trigger] cur[j])
                && !is_ws(cur[j]) by {
                if j < cur0.len() {
                    assert(cur[j] == cur0[j]);
                    assert(d.contains(cur0[j]));
                }
            }
        }
    }
}

/// Every word of `s` is a non-empty run of characters of `s`, none of them whitespace.
pub proof fn lemma_words_chars(s: Seq<char>)
    ensures
        forall|k: int| 0 <= k < words(s).len() ==> (#[trigger] words(s)[k]).len() > 0,
        forall|k: int, j: int|
            0 <= k < words(s).len() && 0 <= j < words(s)[k].len() ==> s.contains(
                #[trigger] words(s)[k][j],
            ) && !is_ws(words(s)[k][j]),
{
    lemma_split_ws_chars(s);
    let (ws, cur) = split_ws(s);
    if cur.len() > 0 {
        assert forall|k: int| 0 <= k < words(s).len() implies (#[trigger] words(s)[k]).len() > 0 by {
            if k < ws.len() {
                assert(words(s)[k] == ws[k]);
            }
        }
        assert forall|k: int, j: int|
            0 <= k < words(s).len() && 0 <= j < words(s)[k].len() implies s.contains(
            #[trigger] words(s)[k][j],
        ) && !is_ws(words(s)[k][j]) by {
            if k < ws.len() {
                assert(words(s)[k] == ws[k]);
                assert(ws[k][j] == ws[k][j]);
            } else {
                assert(words(s)[k] == cur);
                assert(cur[j] == cur[j]);
            }
        }
    } else {
        assert forall|k: int, j: int|
            0 <= k < words(s).len() && 0 <= j < words(s)[k].len() implies s.contains(
            #[trigger] words(s)[k][j],
        ) && !is_ws(words(s)[k][j]) by {
            assert(ws[k][j] == ws[k][j]);
        }
        assert forall|k: int| 0 <= k < words(s).len() implies (#[trigger] words(s)[k]).len() > 0 by {
            assert(ws[k] == ws[k]);
        }
    }
}

pub proof fn lemma_distinct_from(d: Seq<char>, s: Seq<char>)
    requires
        d.no_duplicates(),
    ensures
        distinct_from(d, s).no_duplicates(),
        forall|c: char| #[trigger]
            distinct_from(d, s).contains(c) <==> (d.contains(c) || s.contains(c)),
    decreases s.len(),
{
    if s.len() > 0 {
        let s0 = s.drop_last();
        lemma_distinct_from(d, s0);
        let e = distinct_from(d, s0);
        assert forall|c: char| #[trigger]
            distinct_from(d, s).contains(c) <==> (d.contains(c) || s.contains(c)) by {
            if s.contains(c) && !s0.contains(c) {
                assert(s.last() == c) by {
                    let i = choose|i: int| 0 <= i < s.len() && s[i] == c;
                    if i < s.len() - 1 {
                        assert(s0[i] == c);
                    }
                }
                if !e.contains(c) {
                    assert(e.push(c)[e.len() as int] == c);
                }
            }
            if s0.contains(c) {
                let i = choose|i: int| 0 <= i < s0.len() && s0[i] == c;
                assert(s[i] == c);
            }
            if !e.contains(s.last()) && distinct_from(d, s).contains(c) {
                let i = choose|i: int| 0 <= i < e.len() + 1 && e.push(s.last())[i] == c;
                if i < e.len() {
                    assert(e[i] == c);
                } else {
                    assert(s[s.len() - 1] == c);
                }
            }
            if e.contains(c) && !e.contains(s.last()) {
                let i = choose|i: int| 0 <= i < e.len() && e[i] == c;
                assert(e.push(s.last())[i] == c);
            }
        }
    }
}

pub proof fn lemma_distinct_concat(d: Seq<char>, a: Seq<char>, b: Seq<char>)
    ensures
        distinct_from(d, a + b) == distinct_from(distinct_from(d, a), b),
    decreases b.len(),
{
    if b.len() == 0 {
        assert(a + b =~= a);
    } else {
        assert((a + b).drop_last() =~= a + b.drop_last());
        lemma_distinct_concat(d, a, b.drop_last());
    }
}

/// The starting vocabulary spells every text it is made from.
pub proof fn lemma_initial_vocab_covers(texts: Seq<Seq<char>>)
    ensures
        forall|i: int| 0 <= i < texts.len() ==> covers(initial_vocab(texts), #[trigger] texts[i]),
{
    let s = texts.flatten() + end_marker();
    lemma_distinct_from(Seq::empty(), s);
    let d = distinct_from(Seq::empty(), s);
    assert forall|i: int| 0 <= i < texts.len() implies covers(initial_vocab(texts), #[trigger] texts[i]) by {
        assert forall|j: int| 0 <= j < texts[i].len() implies initial_vocab(texts).contains(
            seq![#[trigger] texts[i][j]],
        ) by {
            lemma_flatten_contains(texts, i, j);
            let k = choose|k: int| 0 <= k < texts.flatten().len() && texts.flatten()[k] == texts[i][j];
            assert(s[k] == texts[i][j]);
            assert(d.contains(texts[i][j]));
            let m = choose|m: int| 0 <= m < d.len() && d[m] == texts[i][j];
            assert(initial_vocab(texts)[m] == seq![texts[i][j]]);
        }
    }
}

/// Adding tokens keeps the tokens already there.
pub proof fn lemma_add_all_keeps(v: Seq<Seq<char>>, ts: Seq<Seq<char>>, u: Seq<char>)
    requires
        v.contains(u),
    ensures
        vocab_add_all(v, ts).contains(u),
    decreases ts.len(),
{
    if ts.len() > 0 {
        lemma_add_all_keeps(v, ts.drop_last(), u);
        let w = vocab_add_all(v, ts.drop_last());
        if !w.contains(ts.last()) {
            let k = w.index_of(u);
            assert(w.push(ts.last())[k] == u);
        }
    }
}

/// Collecting distinct characters: nothing is added twice, exactly the characters
/// of `d` and `s` are held, a character is appended only when it is new, and
/// collecting from `a + b` is collecting from `a` and then from `b`.
pub proof fn law_distinct_from(d: Seq<char>, a: Seq<char>, b: Seq<char>, c: char)
    requires
        d.no_duplicates(),
    ensures
        distinct_from(d, a).no_duplicates(),
        distinct_from(d, a).contains(c) <==> (d.contains(c) || a.contains(c)),
        distinct_from(d, seq![c]) == (if d.contains(c) {
            d
        } else {
            d.push(c)
        }),
        distinct_from(d, a + b) == distinct_from(distinct_from(d, a), b),
{
    lemma_distinct_from(d, a);
    assert(seq![c].drop_last() =~= Seq::<char>::empty());
    assert(distinct_from(d, seq![c].drop_last()) == d);
    assert(seq![c].last() == c);
    lemma_distinct_concat(d, a, b);
}

/// The adjacent pairs of `a + b` are those of `a`, the pair across the join, and
/// those of `b`; a single token has none.
pub proof fn law_windows(a: Seq<Seq<char>>, b: Seq<Seq<char>>)
    ensures
        a.len() <= 1 ==> windows(a) == Seq::<PairV>::empty(),
        a.len() > 0 && b.len() > 0 ==> windows(a + b) == windows(a) + seq![(a.last(), b[0])] + windows(b),
{
    if a.len() <= 1 {
        assert(windows(a) =~= Seq::<PairV>::empty());
    }
    if a.len() > 0 && b.len() > 0 {
        let ab = a + b;
        let rhs = windows(a) + seq![(a.last(), b[0])] + windows(b);
        assert(windows(ab).len() == rhs.len());
        assert forall|j: int| 0 <= j < rhs.len() implies windows(ab)[j] == rhs[j] by {
            if j < a.len() - 1 {
                assert(rhs[j] == windows(a)[j]);
            } else if j == a.len() - 1 {
                assert(rhs[j] == (a.last(), b[0]));
            } else {
                assert(rhs[j] == windows(b)[j - a.len()]);
            }
        }
        assert(windows(ab) =~= rhs);
    }
}

/// Adding one token is `vocab_add`, and adding the tokens of `a + b` is adding those
/// of `a` and then those of `b`.
pub proof fn law_vocab_add_all(v: Seq<Seq<char>>, a: Seq<Seq<char>>, b: Seq<Seq<char>>, t: Seq<char>)
    ensures
        vocab_add_all(v, Seq::empty()) == v,
        vocab_add_all(v, seq![t]) == vocab_add(v, t),
        vocab_add_all(v, a + b) == vocab_add_all(vocab_add_all(v, a), b),
    decreases b.len(),
{
    assert(seq![t].drop_last() =~= Seq::<Seq<char>>::empty());
    assert(vocab_add_all(v, seq![t].drop_last()) == v);
    assert(seq![t].last() == t);
    if b.len() == 0 {
        assert(a + b =~= a);
    } else {
        assert((a + b).drop_last() =~= a + b.drop_last());
        law_vocab_add_all(v, a, b.drop_last(), t);
    }
}

/// After training on `texts`, whatever merges were learnt, each of the texts can be
/// encoded: every character of its words, and of the end-of-word marker, is a token.
pub proof fn law_trained_vocab_encodes(texts: Seq<Seq<char>>, ms: Seq<PairV>)
    ensures
        forall|i: int| 0 <= i < texts.len() ==> can_encode(trained_vocab(texts, ms), #[trigger] texts[i]),
{
    let init = initial_vocab(texts);
    let tv = trained_vocab(texts, ms);
    let s = texts.flatten() + end_marker();
    lemma_distinct_from(Seq::empty(), s);
    let d = distinct_from(Seq::empty(), s);
    lemma_initial_vocab_covers(texts);
    assert forall|m: int| 0 <= m < 4 implies tv.contains(seq![#[trigger] end_marker()[m]]) by {
        assert(s[texts.flatten().len() + m] == end_marker()[m]);
        assert(d.contains(end_marker()[m]));
        let k = choose|k: int| 0 <= k < d.len() && d[k] == end_marker()[m];
        assert(init[k] == seq![end_marker()[m]]);
        lemma_add_all_keeps(init, merged_tokens(ms), seq![end_marker()[m]]);
    }
    assert forall|i: int| 0 <= i < texts.len() implies can_encode(tv, #[trigger] texts[i]) by {
        let t = texts[i];
        lemma_words_chars(t);
        assert(covers(init, t));
        assert forall|k: int| 0 <= k < words(t).len() implies covers(tv, #[trigger] words(t)[k] + end_marker()) by {
            let w = words(t)[k];
            assert forall|j: int| 0 <= j < (w + end_marker()).len() implies tv.contains(
                seq![#[trigger] (w + end_marker())[j]],
            ) by {
                if j < w.len() {
                    assert((w + end_marker())[j] == w[j]);
                    assert(t.contains(words(t)[k][j]));
                    let q = choose|q: int| 0 <= q < t.len() && t[q] == w[j];
                    assert(init.contains(seq![t[q]]));
                    lemma_add_all_keeps(init, merged_tokens(ms), seq![w[j]]);
                } else {
                    assert((w + end_marker())[j] == end_marker()[j - w.len()]);
                }
            }
        }
    }
}

} // verus!

verus! {

/// Every learnt merge's joined token is in the vocabulary after training.
pub proof fn law_merged_tokens_in_vocab(texts: Seq<Seq<char>>, ms: Seq<PairV>)
    ensures
        forall|k: int| 0 <= k < ms.len() ==> trained_vocab(texts, ms).contains(merged(#[trigger] ms[k])),
    decreases ms.len(),
{
    if ms.len() > 0 {
        let m0 = ms.drop_last();
        law_merged_tokens_in_vocab(texts, m0);
        let ts = merged_tokens(ms);
        assert(ts.drop_last() =~= merged_tokens(m0));
        let w = vocab_add_all(initial_vocab(texts), merged_tokens(m0));
        assert(trained_vocab(texts, ms) == vocab_add(w, merged(ms.last())));
        assert forall|k: int| 0 <= k < ms.len() implies trained_vocab(texts, ms).contains(
            merged(#[trigger] ms[k]),
        ) by {
            if k < m0.len() {
                assert(m0[k] == ms[k]);
                assert(w.contains(merged(m0[k])));
                if !w.contains(merged(ms.last())) {
                    let j = w.index_of(merged(m0[k]));
                    assert(w.push(merged(ms.last()))[j] == merged(m0[k]));
                }
            } else {
                assert(ms[k] == ms.last());
                if !w.contains(merged(ms.last())) {
                    assert(w.push(merged(ms.last()))[w.len() as int] == merged(ms.last()));
                }
            }
        }
    }
}

/// Training learns a merge exactly when the training words hold a pair of adjacent
/// characters, and the first merge it learns is a pair that occurs at least as
/// often as any other.
pub proof fn law_first_merge_most_frequent(texts: Seq<Seq<char>>, done: nat, limit: nat)
    ensures
        learnt_merges(texts, done, limit).len() > 0 <==> data_pairs(texts).len() > 0,
        learnt_merges(texts, done, limit).len() > 0 ==> forall|q: PairV|
            #[trigger] occurrences(data_pairs(texts), q) <= occurrences(
                data_pairs(texts),
                learnt_merges(texts, done, limit)[0],
            ),
{
    let ks = data_pairs(texts);
    let c = tally(ks);
    lemma_best_index(c);
    crate::counts::lemma_best_index_finds_best_pair(c);
    law_best_pair_is_most_frequent(c);
    lemma_tally_from(Seq::empty(), ks);
    let ms = learnt_merges(texts, done, limit);
    match best_pair(c) {
        None => {
            assert(ms =~= Seq::<PairV>::empty());
            if ks.len() > 0 {
                law_tally_counts(ks, ks[0]);
                assert(ks.contains(ks[0]));
                let j = keys(c).index_of(ks[0]);
                lemma_occurrences_positive(ks, 0);
                assert(c[j].1 > 0);
            }
        },
        Some(p) => {
            assert(ms[0] == p);
            let i = best_index(c);
            assert(c[i].0 == p);
            if ks.len() == 0 {
                assert(c =~= Seq::<(PairV, nat)>::empty());
            }
            assert(keys(c)[i] == p);
            crate::vocabulary::lemma_index_of_position(keys(c), i);
            law_tally_counts(ks, p);
            assert forall|q: PairV| #[trigger] occurrences(ks, q) <= occurrences(ks, ms[0]) by {
                law_tally_counts(ks, q);
                if ks.contains(q) {
                    let jq = keys(c).index_of(q);
                    assert(c[jq].1 <= c[i].1);
                }
            }
        },
    }
}

/// A pair found at a position occurs at least once.
proof fn lemma_occurrences_positive(ks: Seq<PairV>, i: int)
    requires
        0 <= i < ks.len(),
    ensures
        occurrences(ks, ks[i]) > 0,
    decreases ks.len(),
{
    if i < ks.len() - 1 {
        lemma_occurrences_positive(ks.drop_last(), i);
        assert(ks.drop_last()[i] == ks[i]);
    }
}

} // verus!
