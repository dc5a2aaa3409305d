use vstd::prelude::*;

use crate::counts::{
    best_index, best_pair, lemma_add_count, lemma_best_index, lemma_tally_concat, lemma_tally_from,
    lemma_total_push, lemma_update_entry, merged, tally, tally_from, total, update_entry,
    update_from, updated, CountsV, PairCounts,
};
use crate::text::{
    chars_of, end_marker, replace_end_markers, replace_markers, seqs, split_whitespace, string_of,
    trim, trim_whitespace, words,
};
use crate::token::{token_texts, Pair, PairV, Token};
use crate::training::{
    data_pairs, distinct_from, initial_vocab, learnt_merges, lemma_distinct_concat,
    lemma_distinct_from, lemma_flatten_split, lemma_initial_vocab_covers, lemma_words_chars,
    merge_sequence, merged_tokens, text_pairs, texts_of, trained_vocab, vocab_add_all, windows,
    word_pairs,
};
use crate::vocabulary::{vocab_add, Vocabulary};

verus! {

/// The single-character tokens that spell `w`.
pub open spec fn char_tokens(w: Seq<char>) -> Seq<Seq<char>> {
    w.map_values(|c: char| seq![c])
}

/// Whether `vocab` holds each character of `s` as a token of its own.
pub open spec fn covers(vocab: Seq<Seq<char>>, s: Seq<char>) -> bool {
    forall|j: int| 0 <= j < s.len() ==> vocab.contains(seq![#[trigger] s[j]])
}

/// Whether every word of `text`, with the end-of-word marker after it, can be
/// spelled with single-character tokens of `vocab`.
pub open spec fn can_encode(vocab: Seq<Seq<char>>, text: Seq<char>) -> bool {
    forall|i: int| 0 <= i < words(text).len() ==> covers(vocab, #[trigger] words(text)[i] + end_marker())
}

/// `toks` with each occurrence of the pair `p`, found left to right without
/// overlap, replaced by the one token that joins the two.
pub open spec fn replace_pair_in(toks: Seq<Seq<char>>, p: PairV) -> Seq<Seq<char>>
    decreases toks.len(),
{
    if toks.len() < 2 {
        toks
    } else if (toks[0], toks[1]) == p {
        seq![toks[0] + toks[1]] + replace_pair_in(toks.skip(2), p)
    } else {
        seq![toks[0]] + replace_pair_in(toks.skip(1), p)
    }
}

/// `toks` after the merges `pairs`, applied one after the other.
pub open spec fn apply_merges(toks: Seq<Seq<char>>, pairs: Seq<PairV>) -> Seq<Seq<char>>
    decreases pairs.len(),
{
    if pairs.len() == 0 {
        toks
    } else {
        replace_pair_in(apply_merges(toks, pairs.drop_last()), pairs.last())
    }
}

/// The tokens of one word: its characters and the end-of-word marker, merged by `pairs`.
pub open spec fn encode_word(pairs: Seq<PairV>, w: Seq<char>) -> Seq<Seq<char>> {
    apply_merges(char_tokens(w + end_marker()), pairs)
}

/// The tokens of `text`: those of its words, one word after the other.
pub open spec fn encode_text(pairs: Seq<PairV>, text: Seq<char>) -> Seq<Seq<char>> {
    words(text).map_values(|w: Seq<char>| encode_word(pairs, w)).flatten()
}

/// The text of `toks`: their characters, each end-of-word marker made a space,
/// without whitespace at the ends.
pub open spec fn decode_tokens(toks: Seq<Seq<char>>) -> Seq<char> {
    trim(replace_markers(toks.flatten()))
}

/// Byte-pair encoding: a vocabulary and the merges learnt, in the order learnt.
#[derive(Debug)]
pub struct BPE {
    vocabulary: Vocabulary,
    pairs: Vec<Pair>,
    limit: usize,
}

impl Clone for BPE {
    fn clone(&self) -> (b: BPE)
        ensures
            b.vocab() == self.vocab(),
            b.merges() == self.merges(),
            b.limit() == self.limit(),
    {
        let mut pairs: Vec<Pair> = Vec::new();
        let n = self.pairs.len();
        for i in 0..n
            invariant
                n == self.pairs@.len(),
                pairs@.map_values(|p: Pair| p@) == self.merges().take(i as int),
        {
            let p = self.pairs[i].clone();
            let ghost before = pairs@;
            pairs.push(p);
            assert(pairs@.map_values(|p: Pair| p@) =~= before.map_values(|p: Pair| p@).push(p@));
            assert(self.merges().take(i + 1) =~= self.merges().take(i as int).push(self.merges()[i as int]));
        }
        assert(self.merges().take(n as int) =~= self.merges());
        BPE { vocabulary: self.vocabulary.clone(), pairs, limit: self.limit }
    }
}

impl BPE {
    /// The tokens of the vocabulary, by index.
    pub closed spec fn vocab(&self) -> Seq<Seq<char>> {
        self.vocabulary@
    }

    /// The merges, in the order in which they are applied.
    pub closed spec fn merges(&self) -> Seq<PairV> {
        self.pairs@.map_values(|p: Pair| p@)
    }

    /// The number of merges after which training stops.
    pub closed spec fn limit(&self) -> nat {
        self.limit as nat
    }

    /// No token occurs twice in the vocabulary.
    pub open spec fn wf(&self) -> bool {
        self.vocab().no_duplicates()
    }

    /// A BPE with no vocabulary and no merges, that trains without a limit.
    pub fn new() -> (b: BPE)
        ensures
            b.wf(),
            b.vocab() == Seq::<Seq<char>>::empty(),
            b.merges() == Seq::<PairV>::empty(),
            b.limit() == usize::MAX,
    {
        let b = BPE { vocabulary: Vocabulary::new(), pairs: Vec::new(), limit: usize::MAX };
        assert(b.merges() =~= Seq::<PairV>::empty());
        b
    }

    /// The vocabulary.
    pub fn vocabulary(&self) -> (v: &Vocabulary)
        ensures
            v@ == self.vocab(),
    {
        &self.vocabulary
    }

    /// The number of merges.
    pub fn pair_count(&self) -> (n: usize)
        ensures
            n == self.merges().len(),
    {
        self.pairs.len()
    }

    /// Splits a word into single-character tokens.
    fn split_word(&self, word: &Vec<char>) -> (r: Vec<Token>)
        requires
            self.wf(),
            covers(self.vocab(), word@),
        ensures
            token_texts(r@) == char_tokens(word@),
    {
        let mut tokens: Vec<Token> = Vec::new();
        let n = word.len();
        for i in 0..n
            invariant
                n == word@.len(),
                self.wf(),
                covers(self.vocab(), word@),
                token_texts(tokens@) == char_tokens(word@.take(i as int)),
        {
            let mut one: Vec<char> = Vec::new();
            one.push(word[i]);
            let token = Token::from_chars(&one);
            assert(one@ =~= seq![word@[i as int]]);
            let present = self.vocabulary.contains(&token);
            assert(present);
            let ghost before = tokens@;
            let ghost t = token@;
            tokens.push(token);
            assert(tokens@ == before.push(token));
            assert(token_texts(tokens@) =~= token_texts(before).push(t));
            assert(char_tokens(word@.take(i + 1)) =~= char_tokens(word@.take(i as int)).push(
                seq![word@[i as int]],
            ));
            assert(token_texts(tokens@) =~= char_tokens(word@.take(i + 1)));
        }
        assert(word@.take(n as int) =~= word@);
        tokens
    }

    /// Replaces each occurrence of `pair` in `tokens`, left to right, by the token
    /// that joins its two tokens.
    fn replace_pair(&self, tokens: &mut Vec<Token>, pair: &Pair)
        ensures
            token_texts(final(tokens)@) == replace_pair_in(token_texts(old(tokens)@), pair@),
    {
        let ghost ts = token_texts(tokens@);
        let mut new_tokens: Vec<Token> = Vec::new();
        let mut prev: Option<Token> = None;
        let n = tokens.len();
        assert(ts.skip(0) =~= ts);
        assert(token_texts(new_tokens@) + ts =~= ts);
        for i in 0..n
            invariant
                n == tokens@.len(),
                ts == token_texts(tokens@),
                match prev {
                    None => token_texts(new_tokens@) + replace_pair_in(ts.skip(i as int), pair@)
                        == replace_pair_in(ts, pair@),
                    Some(p) => i >= 1 && p@ == ts[i - 1] && token_texts(new_tokens@)
                        + replace_pair_in(ts.skip(i - 1), pair@) == replace_pair_in(ts, pair@),
                },
        {
            let token = &tokens[i];
            match prev {
                Some(p) => {
                    let current_pair = Pair::new(p.clone(), token.clone());
                    let ghost rest = ts.skip(i - 1);
                    assert(rest[0] == ts[i - 1] && rest[1] == ts[i as int]);
                    if current_pair == *pair {
                        let new_token = p.concat(token);
                        assert(rest.skip(2) =~= ts.skip(i + 1));
                        let ghost before = token_texts(new_tokens@);
                        new_tokens.push(new_token);
                        assert(token_texts(new_tokens@) =~= before + seq![rest[0] + rest[1]]);
                        assert(token_texts(new_tokens@) + replace_pair_in(ts.skip(i + 1), pair@)
                            =~= before + (seq![rest[0] + rest[1]] + replace_pair_in(rest.skip(2), pair@)));
                        prev = None;
                    } else {
                        assert(rest.skip(1) =~= ts.skip(i as int));
                        let ghost before = token_texts(new_tokens@);
                        new_tokens.push(p);
                        assert(token_texts(new_tokens@) =~= before + seq![rest[0]]);
                        assert(token_texts(new_tokens@) + replace_pair_in(ts.skip(i as int), pair@)
                            =~= before + (seq![rest[0]] + replace_pair_in(rest.skip(1), pair@)));
                        prev = Some(token.clone());
                    }
                },
                None => {
                    prev = Some(token.clone());
                },
            }
        }
        match prev {
            Some(p) => {
                let ghost rest = ts.skip(n - 1);
                assert(rest =~= seq![ts[n - 1]]);
                let ghost before = token_texts(new_tokens@);
                new_tokens.push(p);
                assert(token_texts(new_tokens@) =~= before + rest);
            },
            None => {
                assert(ts.skip(n as int) =~= Seq::<Seq<char>>::empty());
                assert(token_texts(new_tokens@) + Seq::<Seq<char>>::empty() =~= token_texts(
                    new_tokens@,
                ));
            },
        }
        *tokens = new_tokens;
    }

    /// `word` followed by the end-of-word marker.
    fn with_marker(word: &Vec<char>) -> (r: Vec<char>)
        ensures
            r@ == word@ + end_marker(),
    {
        let mut r: Vec<char> = Vec::new();
        let n = word.len();
        for i in 0..n
            invariant
                n == word@.len(),
                r@ == word@.take(i as int),
        {
            r.push(word[i]);
            assert(r@ =~= word@.take(i + 1));
        }
        r.push('<');
        r.push('/');
        r.push('w');
        r.push('>');
        assert(r@ =~= word@ + end_marker());
        r
    }

    /// Whether `text` can be encoded: every character of its words, and of the
    /// end-of-word marker when there is a word, is a token of the vocabulary.
    pub fn can_encode_text(&self, text: &str) -> (b: bool)
        requires
            self.wf(),
        ensures
            b == can_encode(self.vocab(), text@),
    {
        let chars = chars_of(text);
        let ws = split_whitespace(&chars);
        let ghost wv = words(text@);
        let nw = ws.len();
        for i in 0..nw
            invariant
                nw == ws@.len() == wv.len(),
                seqs(ws@) == wv,
                wv == words(text@),
                self.wf(),
                forall|k: int| 0 <= k < i ==> covers(self.vocab(), #[trigger] wv[k] + end_marker()),
        {
            assert(ws@[i as int]@ == wv[i as int]);
            let word = Self::with_marker(&ws[i]);
            let m = word.len();
            for j in 0..m
                invariant
                    m == word@.len(),
                    i < nw == wv.len(),
                    wv == words(text@),
                    word@ == wv[i as int] + end_marker(),
                    self.wf(),
                    forall|q: int| 0 <= q < j ==> self.vocab().contains(seq![#[trigger] word@[q]]),
            {
                let mut one: Vec<char> = Vec::new();
                one.push(word[j]);
                assert(one@ =~= seq![word@[j as int]]);
                let token = Token::from_chars(&one);
                if !self.vocabulary.contains(&token) {
                    assert(!self.vocab().contains(seq![word@[j as int]]));
                    assert(!covers(self.vocab(), words(text@)[i as int] + end_marker()));
                    return false;
                }
            }
        }
        true
    }

    /// The tokens of `text`: each word, with the end-of-word marker after it, spelled
    /// in single characters and then merged by each learnt pair in turn.
    pub fn encode(&self, text: &str) -> (r: Vec<Token>)
        requires
            self.wf(),
            can_encode(self.vocab(), text@),
        ensures
            token_texts(r@) == encode_text(self.merges(), text@),
    {
        let chars = chars_of(text);
        let ws = split_whitespace(&chars);
        let ghost wv = words(text@);
        let ghost f = |w: Seq<char>| encode_word(self.merges(), w);
        let mut out: Vec<Token> = Vec::new();
        let nw = ws.len();
        let np = self.pairs.len();
        assert(seqs(ws@) == wv);
        assert(wv.take(0).map_values(f) =~= Seq::<Seq<Seq<char>>>::empty());
        for i in 0..nw
            invariant
                nw == ws@.len() == wv.len(),
                np == self.pairs@.len(),
                seqs(ws@) == wv,
                wv == words(text@),
                f == (|w: Seq<char>| encode_word(self.merges(), w)),
                self.wf(),
                can_encode(self.vocab(), text@),
                token_texts(out@) == wv.take(i as int).map_values(f).flatten(),
        {
            assert(ws@[i as int]@ == wv[i as int]);
            let word = Self::with_marker(&ws[i]);
            assert(covers(self.vocab(), wv[i as int] + end_marker()));
            let mut toks = self.split_word(&word);
            let ghost start = char_tokens(word@);
            assert(self.merges().take(0) =~= Seq::<PairV>::empty());
            for j in 0..np
                invariant
                    np == self.pairs@.len(),
                    token_texts(toks@) == apply_merges(start, self.merges().take(j as int)),
            {
                let ghost ms = self.merges();
                assert(ms.take(j + 1).drop_last() =~= ms.take(j as int));
                assert(ms.take(j + 1).last() == self.pairs@[j as int]@);
                self.replace_pair(&mut toks, &self.pairs[j]);
            }
            assert(self.merges().take(np as int) =~= self.merges());
            let ghost before = token_texts(out@);
            let ghost added = token_texts(toks@);
            out.append(&mut toks);
            assert(token_texts(out@) =~= before + added);
            assert(wv.take(i + 1).map_values(f) =~= wv.take(i as int).map_values(f).push(f(wv[i as int])));
            proof {
                wv.take(i as int).map_values(f).lemma_flatten_push(f(wv[i as int]));
            }
        }
        assert(wv.take(nw as int) =~= wv);
        out
    }

    /// The text of `tokens`: their characters joined, each end-of-word marker made a
    /// space, and the whitespace at both ends removed.
    pub fn decode(&self, tokens: &[Token]) -> (s: String)
        ensures
            s@ == decode_tokens(token_texts(tokens@)),
    {
        let ghost ts = token_texts(tokens@);
        let mut chars: Vec<char> = Vec::new();
        let n = tokens.len();
        assert(ts.take(0) =~= Seq::<Seq<char>>::empty());
        for i in 0..n
            invariant
                n == tokens@.len(),
                ts == token_texts(tokens@),
                chars@ == ts.take(i as int).flatten(),
        {
            let mut cs = tokens[i].chars();
            let ghost before = chars@;
            let ghost added = cs@;
            chars.append(&mut cs);
            assert(ts.take(i + 1) =~= ts.take(i as int).push(ts[i as int]));
            proof {
                ts.take(i as int).lemma_flatten_push(ts[i as int]);
            }
        }
        assert(ts.take(n as int) =~= ts);
        let replaced = replace_end_markers(&chars);
        let trimmed = trim_whitespace(&replaced);
        string_of(&trimmed)
    }

    /// Adds the token that joins `pair` to the vocabulary and `pair` to the merges.
    fn merge_pair(&mut self, pair: Pair)
        requires
            old(self).wf(),
        ensures
            final(self).wf(),
            final(self).vocab() == vocab_add(old(self).vocab(), merged(pair@)),
            final(self).merges() == old(self).merges().push(pair@),
            final(self).limit() == old(self).limit(),
    {
        let new_token = pair.first().concat(pair.second());
        self.vocabulary.add(new_token);
        let ghost p = pair@;
        self.pairs.push(pair);
        assert(self.merges() =~= old(self).merges().push(p));
    }

    /// Keeps the first `n` merges and drops the others.
    pub fn set_pairs(&mut self, n: usize)
        requires
            n <= old(self).merges().len(),
        ensures
            final(self).merges() == old(self).merges().take(n as int),
            final(self).vocab() == old(self).vocab(),
            final(self).limit() == old(self).limit(),
    {
        self.pairs.truncate(n);
        assert(self.merges() =~= old(self).merges().take(n as int));
    }

    /// Counts, into `counts`, each pair of adjacent tokens of `toks`.
    fn count_word(counts: &mut PairCounts, toks: &Vec<Token>)
        requires
            old(counts).wf(),
            total(old(counts)@) + windows(token_texts(toks@)).len() <= usize::MAX,
        ensures
            final(counts).wf(),
            final(counts)@ == tally_from(old(counts)@, windows(token_texts(toks@))),
    {
        let ghost ws = windows(token_texts(toks@));
        let n = toks.len();
        if n < 2 {
            assert(ws =~= Seq::<PairV>::empty());
            return;
        }
        assert(ws.take(0) =~= Seq::<PairV>::empty());
        for j in 0..n - 1
            invariant
                n == toks@.len(),
                n >= 2,
                ws == windows(token_texts(toks@)),
                old(counts).wf(),
                counts.wf(),
                total(old(counts)@) + ws.len() <= usize::MAX,
                counts@ == tally_from(old(counts)@, ws.take(j as int)),
                total(counts@) == total(old(counts)@) + j,
        {
            let pair = Pair::new(toks[j].clone(), toks[j + 1].clone());
            assert(pair@ == ws[j as int]);
            proof {
                lemma_tally_from(old(counts)@, ws.take(j as int));
            }
            counts.add(&pair, 1);
            assert(ws.take(j + 1).drop_last() =~= ws.take(j as int));
            proof {
                lemma_add_count(tally_from(old(counts)@, ws.take(j as int)), pair@, 1);
            }
        }
        assert(ws.take(n - 1) =~= ws);
    }

    /// How often each pair of adjacent characters occurs within the words of `data`.
    fn count_pairs(&self, data: &[String]) -> (counts: PairCounts)
        requires
            self.wf(),
            forall|i: int| 0 <= i < data@.len() ==> covers(self.vocab(), #[trigger] texts_of(data@)[i]),
            data_pairs(texts_of(data@)).len() <= usize::MAX,
        ensures
            counts.wf(),
            counts@ == tally(data_pairs(texts_of(data@))),
    {
        let ghost texts = texts_of(data@);
        let ghost tp = texts.map_values(|t: Seq<char>| text_pairs(t));
        let mut counts = PairCounts::new();
        let n = data.len();
        assert(tp.take(0) =~= Seq::<Seq<PairV>>::empty());
        for i in 0..n
            invariant
                n == data@.len(),
                texts == texts_of(data@),
                tp == texts.map_values(|t: Seq<char>| text_pairs(t)),
                self.wf(),
                forall|i: int| 0 <= i < data@.len() ==> covers(self.vocab(), #[trigger] texts_of(data@)[i]),
                tp.flatten().len() <= usize::MAX,
                counts.wf(),
                counts@ == tally(tp.take(i as int).flatten()),
                total(counts@) == tp.take(i as int).flatten().len(),
        {
            let chars = chars_of(data[i].as_str());
            let ws = split_whitespace(&chars);
            let ghost t = texts[i as int];
            let ghost wp = words(t).map_values(|w: Seq<char>| word_pairs(w));
            let ghost base = tp.take(i as int).flatten();
            proof {
                lemma_words_chars(t);
                lemma_flatten_split(tp, i as int);
                assert(tp[i as int] == wp.flatten());
                assert(wp.take(0) =~= Seq::<Seq<PairV>>::empty());
                assert(base + wp.take(0).flatten() =~= base);
            }
            let nw = ws.len();
            for k in 0..nw
                invariant
                    nw == ws@.len() == words(t).len(),
                    seqs(ws@) == words(t),
                    wp == words(t).map_values(|w: Seq<char>| word_pairs(w)),
                    t == texts[i as int],
                    covers(self.vocab(), t),
                    self.wf(),
                    base.len() + wp.flatten().len() <= usize::MAX,
                    forall|k: int, j: int|
                        0 <= k < words(t).len() && 0 <= j < words(t)[k].len() ==> t.contains(
                            #[trigger] words(t)[k][j],
                        ),
                    counts.wf(),
                    counts@ == tally(base + wp.take(k as int).flatten()),
                    total(counts@) == base.len() + wp.take(k as int).flatten().len(),
            {
                let ghost w = words(t)[k as int];
                assert(ws@[k as int]@ == w);
                assert(covers(self.vocab(), w)) by {
                    assert forall|j: int| 0 <= j < w.len() implies self.vocab().contains(
                        seq![#[trigger] w[j]],
                    ) by {
                        assert(t.contains(words(t)[k as int][j]));
                        let m = choose|m: int| 0 <= m < t.len() && t[m] == w[j];
                        assert(self.vocab().contains(seq![t[m]]));
                    }
                }
                let toks = self.split_word(&ws[k]);
                proof {
                    lemma_flatten_split(wp, k as int);
                    assert(windows(token_texts(toks@)) == wp[k as int]);
                    lemma_tally_concat(Seq::empty(), base + wp.take(k as int).flatten(), wp[k as int]);
                    assert(base + wp.take(k + 1).flatten() =~= base + wp.take(k as int).flatten() + wp[k as int]);
                }
                Self::count_word(&mut counts, &toks);
                proof {
                    lemma_tally_from(Seq::empty(), base + wp.take(k as int).flatten());
                    lemma_tally_from(tally(base + wp.take(k as int).flatten()), wp[k as int]);
                }
            }
            proof {
                assert(wp.take(nw as int) =~= wp);
                assert(tp.take(i + 1).flatten() == base + tp[i as int]);
            }
        }
        assert(tp.take(n as int) =~= tp);
        counts
    }

    /// The pair with the highest count (the first one met among equals), if any
    /// count is positive.
    fn find_best_pair(&self, counts: &PairCounts) -> (r: Option<Pair>)
        ensures
            r matches Some(p) ==> best_pair(counts@) == Some(p@),
            r is None ==> best_pair(counts@) is None,
    {
        let ghost c = counts@;
        let mut best: Option<Pair> = None;
        let mut best_count: usize = 0;
        let n = counts.len();
        for i in 0..n
            invariant
                n == c.len(),
                c == counts@,
                best_index(c.take(i as int)) < i,
                best_index(c.take(i as int)) < 0 ==> best is None && best_count == 0,
                best_index(c.take(i as int)) >= 0 ==> (best matches Some(p) && p@ == c[best_index(
                    c.take(i as int),
                )].0 && best_count == c[best_index(c.take(i as int))].1),
        {
            let (pair, count) = counts.entry(i);
            proof {
                lemma_best_index(c.take(i as int));
                assert(c.take(i + 1).drop_last() =~= c.take(i as int));
                let b = best_index(c.take(i as int));
                if b >= 0 {
                    assert(c.take(i as int)[b] == c[b]);
                }
            }
            if count > best_count {
                best = Some(pair.clone());
                best_count = count;
            }
        }
        assert(c.take(n as int) =~= c);
        proof {
            crate::counts::lemma_best_index_finds_best_pair(c);
        }
        best
    }

    /// The counts after `pair` is merged: see `update_entry`.
    fn update_counts(&self, counts: &PairCounts, pair: &Pair) -> (r: PairCounts)
        requires
            counts.wf(),
            total(counts@) <= usize::MAX,
        ensures
            r.wf(),
            r@ == updated(counts@, pair@),
            total(r@) <= total(counts@),
    {
        let ghost c = counts@;
        let ghost p = pair@;
        let mut new_counts = PairCounts::new();
        let n = counts.len();
        assert(c.take(0) =~= Seq::<(PairV, nat)>::empty());
        for i in 0..n
            invariant
                n == c.len(),
                c == counts@,
                p == pair@,
                total(c) <= usize::MAX,
                new_counts.wf(),
                new_counts@ == update_from(Seq::empty(), c.take(i as int), p),
                total(new_counts@) <= total(c.take(i as int)),
                total(c.take(i as int)) <= total(c),
        {
            let (old_pair, old_count) = counts.entry(i);
            proof {
                assert(c.take(i + 1).drop_last() =~= c.take(i as int));
                assert(c.take(i + 1).last() == c[i as int]);
                assert(c.take(i + 1) =~= c.take(i as int).push(c[i as int]));
                lemma_total_push(c.take(i as int), c[i as int]);
                assert(c =~= c.take(i + 1) + c.skip(i + 1));
                lemma_total_concat(c.take(i + 1), c.skip(i + 1));
                lemma_update_entry(new_counts@, c[i as int], p);
            }
            if old_pair.first() == pair.first() && old_pair.second() == pair.second() {
            } else if old_pair.first() == pair.first() {
                let new_pair = Pair::new(pair.first().concat(pair.second()), old_pair.second().clone());
                new_counts.add(&new_pair, old_count);
            } else if old_pair.second() == pair.second() {
                let new_pair = Pair::new(old_pair.first().clone(), pair.first().concat(pair.second()));
                new_counts.add(&new_pair, old_count);
            } else {
                new_counts.add(old_pair, old_count);
            }
        }
        assert(c.take(n as int) =~= c);
        new_counts
    }

    /// Adds to `set` the characters of `cs` that it lacks, in order.
    fn add_distinct(set: &mut Vec<char>, cs: &Vec<char>)
        ensures
            final(set)@ == distinct_from(old(set)@, cs@),
    {
        let n = cs.len();
        assert(cs@.take(0) =~= Seq::<char>::empty());
        for i in 0..n
            invariant
                n == cs@.len(),
                set@ == distinct_from(old(set)@, cs@.take(i as int)),
        {
            let c = cs[i];
            assert(cs@.take(i + 1).drop_last() =~= cs@.take(i as int));
            let mut found = false;
            let m = set.len();
            for k in 0..m
                invariant
                    m == set@.len(),
                    found == exists|j: int| 0 <= j < k && set@[j] == c,
            {
                if set[k] == c {
                    found = true;
                }
            }
            if !found {
                set.push(c);
            }
        }
        assert(cs@.take(n as int) =~= cs@);
    }

    /// Starts the vocabulary afresh: a token for each distinct character of `data`
    /// and of the end-of-word marker.
    fn initialize_vocabulary(&mut self, data: &[String])
        ensures
            final(self).wf(),
            final(self).vocab() == initial_vocab(texts_of(data@)),
            final(self).merges() == old(self).merges(),
            final(self).limit() == old(self).limit(),
    {
        let ghost texts = texts_of(data@);
        let mut chars: Vec<char> = Vec::new();
        let n = data.len();
        assert(texts.take(0).flatten() =~= Seq::<char>::empty());
        for i in 0..n
            invariant
                n == data@.len(),
                texts == texts_of(data@),
                chars@ == distinct_from(Seq::empty(), texts.take(i as int).flatten()),
        {
            let cs = chars_of(data[i].as_str());
            proof {
                lemma_flatten_split(texts, i as int);
                lemma_distinct_concat(Seq::empty(), texts.take(i as int).flatten(), texts[i as int]);
            }
            Self::add_distinct(&mut chars, &cs);
        }
        assert(texts.take(n as int) =~= texts);
        let mut marker: Vec<char> = Vec::new();
        marker.push('<');
        marker.push('/');
        marker.push('w');
        marker.push('>');
        assert(marker@ =~= end_marker());
        proof {
            lemma_distinct_concat(Seq::empty(), texts.flatten(), end_marker());
        }
        Self::add_distinct(&mut chars, &marker);
        let ghost all = chars@;
        proof {
            lemma_distinct_from(Seq::empty(), texts.flatten() + end_marker());
        }
        let mut vocabulary = Vocabulary::new();
        let m = chars.len();
        assert(char_tokens(all.take(0)) =~= Seq::<Seq<char>>::empty());
        for k in 0..m
            invariant
                m == chars@.len(),
                all == chars@,
                all.no_duplicates(),
                vocabulary.wf(),
                vocabulary@ == char_tokens(all.take(k as int)),
        {
            let mut one: Vec<char> = Vec::new();
            one.push(chars[k]);
            assert(one@ =~= seq![all[k as int]]);
            let token = Token::from_chars(&one);
            assert(!char_tokens(all.take(k as int)).contains(seq![all[k as int]])) by {
                if char_tokens(all.take(k as int)).contains(seq![all[k as int]]) {
                    let j = choose|j: int|
                        0 <= j < k && char_tokens(all.take(k as int))[j] == seq![all[k as int]];
                    assert(char_tokens(all.take(k as int))[j][0] == all[j]);
                    assert(seq![all[k as int]][0] == all[k as int]);
                }
            }
            vocabulary.add(token);
            assert(char_tokens(all.take(k + 1)) =~= char_tokens(all.take(k as int)).push(
                seq![all[k as int]],
            ));
        }
        assert(all.take(m as int) =~= all);
        self.vocabulary = vocabulary;
    }

    /// Learns merges from `data`: starts the vocabulary from the characters of `data`,
    /// counts the pairs of adjacent characters within its words, then, while a pair
    /// is counted, merges the most frequent one, adds the joined token to the
    /// vocabulary and recounts, until the number of merges reaches the limit.
    pub fn train(&mut self, data: &[String])
        requires
            old(self).wf(),
            data_pairs(texts_of(data@)).len() <= usize::MAX,
        ensures
            final(self).wf(),
            final(self).merges() == old(self).merges() + learnt_merges(
                texts_of(data@),
                old(self).merges().len(),
                old(self).limit(),
            ),
            final(self).vocab() == trained_vocab(
                texts_of(data@),
                learnt_merges(texts_of(data@), old(self).merges().len(), old(self).limit()),
            ),
            final(self).limit() == old(self).limit(),
    {
        let ghost texts = texts_of(data@);
        self.initialize_vocabulary(data);
        proof {
            lemma_initial_vocab_covers(texts);
        }
        let mut counts = self.count_pairs(data);
        proof {
            lemma_tally_from(Seq::empty(), data_pairs(texts));
        }
        let ghost c0 = counts@;
        let ghost old_merges = old(self).merges();
        let ghost b0 = old(self).limit() - old_merges.len();
        let ghost all = merge_sequence(c0, b0);
        let ghost init = initial_vocab(texts);
        let ghost mut done: Seq<PairV> = Seq::empty();
        assert(done + merge_sequence(counts@, self.limit() - self.merges().len()) =~= all);
        assert(merged_tokens(done) =~= Seq::<Seq<char>>::empty());
        loop
            invariant_except_break
                done + merge_sequence(counts@, self.limit() - self.merges().len()) == all,
            invariant
                self.wf(),
                counts.wf(),
                total(counts@) <= usize::MAX,
                self.limit() == old(self).limit(),
                self.merges() == old_merges + done,
                self.vocab() == vocab_add_all(init, merged_tokens(done)),
                all == merge_sequence(c0, b0),
                b0 == old(self).limit() - old_merges.len(),
            ensures
                done == all,
                self.wf(),
                self.limit() == old(self).limit(),
                self.merges() == old_merges + done,
                self.vocab() == vocab_add_all(init, merged_tokens(done)),
            decreases counts@.len(),
        {
            let best = self.find_best_pair(&counts);
            match best {
                None => {
                    assert(merge_sequence(counts@, self.limit() - self.merges().len()) =~= Seq::<PairV>::empty());
                    assert(done + Seq::<PairV>::empty() =~= done);
                    break;
                },
                Some(pair) => {
                    let ghost p = pair@;
                    let ghost budget = self.limit() - self.merges().len();
                    let ghost before = counts@;
                    proof {
                        crate::counts::lemma_best_pair_is_key(before);
                        crate::counts::lemma_updated_shrinks(before, p);
                        assert(merged_tokens(done.push(p)).drop_last() =~= merged_tokens(done));
                    }
                    self.merge_pair(pair.clone());
                    counts = self.update_counts(&counts, &pair);
                    proof {
                        done = done.push(p);
                        assert(self.merges() =~= old_merges + done);
                    }
                    if self.pairs.len() >= self.limit {
                        assert(self.merges().len() == self.pairs@.len());
                        assert(budget <= 1);
                        assert(best_pair(before) == Some(p));
                        assert(merge_sequence(before, budget) == seq![p]);
                        assert(done =~= all);
                        break;
                    }
                    assert(self.merges().len() == self.pairs@.len());
                    assert(budget > 1);
                    assert(counts@ == updated(before, p));
                    assert(best_pair(before) == Some(p));
                    assert(merge_sequence(before, budget) == seq![p] + merge_sequence(
                        counts@,
                        budget - 1,
                    ));
                    assert(done + merge_sequence(counts@, budget - 1) =~= all);
                },
            }
        }
    }
}

/// The total of two count lists joined is the sum of their totals.
proof fn lemma_total_concat(a: CountsV, b: CountsV)
    ensures
        total(a + b) == total(a) + total(b),
    decreases b.len(),
{
    if b.len() == 0 {
        assert(a + b =~= a);
    } else {
        assert((a + b).drop_last() =~= a + b.drop_last());
        lemma_total_concat(a, b.drop_last());
    }
}

} // verus!

verus! {

/// No two adjacent tokens of `ts` form the pair `p`.
pub open spec fn free_of_pair(ts: Seq<Seq<char>>, p: PairV) -> bool {
    forall|i: int| 0 <= i < ts.len() - 1 ==> (#[trigger] ts[i], ts[i + 1]) != p
}

/// Replacing a pair in tokens that do not hold it changes nothing.
pub proof fn lemma_replace_pair_free(ts: Seq<Seq<char>>, p: PairV)
    requires
        free_of_pair(ts, p),
    ensures
        replace_pair_in(ts, p) == ts,
    decreases ts.len(),
{
    if ts.len() >= 2 {
        assert((ts[0], ts[1]) != p);
        let rest = ts.skip(1);
        assert forall|i: int| 0 <= i < rest.len() - 1 implies (#[trigger] rest[i], rest[i + 1]) != p by {
            assert(rest[i] == ts[i + 1] && rest[i + 1] == ts[i + 2]);
        }
        lemma_replace_pair_free(rest, p);
        assert(seq![ts[0]] + rest =~= ts);
    }
}

/// The first token after replacing a pair: the first token, or the first two
/// joined when they form the pair (pairs are taken from the left).
pub proof fn lemma_replace_pair_head(ts: Seq<Seq<char>>, p: PairV)
    ensures
        replace_pair_in(ts, p).len() == 0 <==> ts.len() == 0,
        ts.len() > 0 ==> (replace_pair_in(ts, p)[0] == ts[0] && (ts.len() < 2 || (ts[0], ts[1]) != p))
            || (ts.len() >= 2 && (ts[0], ts[1]) == p && replace_pair_in(ts, p)[0] == ts[0] + ts[1]),
{
}

/// After a pair of non-empty tokens is replaced, no two adjacent tokens form it.
pub proof fn lemma_replace_pair_leaves_none(ts: Seq<Seq<char>>, p: PairV)
    requires
        p.0.len() > 0,
        p.1.len() > 0,
    ensures
        free_of_pair(replace_pair_in(ts, p), p),
    decreases ts.len(),
{
    let r = replace_pair_in(ts, p);
    if ts.len() >= 2 {
        if (ts[0], ts[1]) == p {
            let rest = ts.skip(2);
            lemma_replace_pair_leaves_none(rest, p);
            lemma_replace_pair_head(rest, p);
            let rr = replace_pair_in(rest, p);
            assert(r == seq![ts[0] + ts[1]] + rr);
            assert forall|i: int| 0 <= i < r.len() - 1 implies (#[trigger] r[i], r[i + 1]) != p by {
                if i == 0 {
                    assert((ts[0] + ts[1]).len() > p.0.len());
                } else {
                    assert(r[i] == rr[i - 1] && r[i + 1] == rr[i]);
                }
            }
        } else {
            let rest = ts.skip(1);
            lemma_replace_pair_leaves_none(rest, p);
            lemma_replace_pair_head(rest, p);
            let rr = replace_pair_in(rest, p);
            assert(r == seq![ts[0]] + rr);
            assert(rest[0] == ts[1]);
            assert forall|i: int| 0 <= i < r.len() - 1 implies (#[trigger] r[i], r[i + 1]) != p by {
                if i == 0 {
                    if rest.len() >= 2 && (rest[0], rest[1]) == p {
                        assert(rr[0] == rest[0] + rest[1]);
                        assert((rest[0] + rest[1]).len() > p.1.len());
                    }
                } else {
                    assert(r[i] == rr[i - 1] && r[i + 1] == rr[i]);
                }
            }
        }
    }
}

/// Replacing a pair of non-empty tokens a second time changes nothing.
pub proof fn law_replace_pair_idempotent(ts: Seq<Seq<char>>, p: PairV)
    requires
        p.0.len() > 0,
        p.1.len() > 0,
    ensures
        replace_pair_in(replace_pair_in(ts, p), p) == replace_pair_in(ts, p),
{
    lemma_replace_pair_leaves_none(ts, p);
    lemma_replace_pair_free(replace_pair_in(ts, p), p);
}

/// Pairs are replaced from the left: where the last token of `a` and the first of
/// `b` do not form the pair, replacing in `a + b` replaces in `a` and in `b` apart.
pub proof fn law_replace_pair_concat(a: Seq<Seq<char>>, b: Seq<Seq<char>>, p: PairV)
    requires
        a.len() == 0 || b.len() == 0 || (a.last(), b[0]) != p,
    ensures
        replace_pair_in(a + b, p) == replace_pair_in(a, p) + replace_pair_in(b, p),
    decreases a.len(),
{
    if a.len() == 0 {
        assert(a + b =~= b);
        assert(replace_pair_in(a, p) =~= Seq::<Seq<char>>::empty());
        assert(Seq::<Seq<char>>::empty() + replace_pair_in(b, p) =~= replace_pair_in(b, p));
    } else if b.len() == 0 {
        assert(a + b =~= a);
        assert(replace_pair_in(a, p) + replace_pair_in(b, p) =~= replace_pair_in(a, p));
    } else if a.len() == 1 {
        let ab = a + b;
        assert(ab[0] == a[0] && ab[1] == b[0]);
        assert(a.last() == a[0]);
        assert(ab.skip(1) =~= b);
        assert(replace_pair_in(a, p) == a);
    } else {
        let ab = a + b;
        assert(ab[0] == a[0] && ab[1] == a[1]);
        if (a[0], a[1]) == p {
            let r = a.skip(2);
            assert(ab.skip(2) =~= r + b);
            if r.len() > 0 {
                assert(r.last() == a.last());
            }
            law_replace_pair_concat(r, b, p);
            assert(seq![a[0] + a[1]] + (replace_pair_in(r, p) + replace_pair_in(b, p)) =~= (seq![a[0]
                + a[1]] + replace_pair_in(r, p)) + replace_pair_in(b, p));
        } else {
            let r = a.skip(1);
            assert(ab.skip(1) =~= r + b);
            assert(r.last() == a.last());
            law_replace_pair_concat(r, b, p);
            assert(seq![a[0]] + (replace_pair_in(r, p) + replace_pair_in(b, p)) =~= (seq![a[0]]
                + replace_pair_in(r, p)) + replace_pair_in(b, p));
        }
    }
}

} // verus!
