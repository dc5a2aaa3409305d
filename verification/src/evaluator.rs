use vstd::prelude::*;

use crate::bpe::{can_encode, decode_tokens, encode_text};
use crate::config::strings_view;
use crate::round_trip::{has_marker, join_words, law_decode_encode};
use crate::text::words;
use crate::token::PairV;
use crate::tokenizer::Tokenizer;

verus! {

/// How many of `texts` come back unchanged when encoded with the merges `pairs`
/// and decoded.
pub open spec fn round_trips(pairs: Seq<PairV>, texts: Seq<Seq<char>>) -> nat
    decreases texts.len(),
{
    if texts.len() == 0 {
        0
    } else {
        round_trips(pairs, texts.drop_last()) + (if decode_tokens(encode_text(pairs, texts.last()))
            == texts.last() {
            1nat
        } else {
            0nat
        })
    }
}

/// Evaluates a tokenizer by a metric on a list of texts.
#[derive(Debug)]
pub struct Evaluator {
    metric: String,
    data: Vec<String>,
}

impl Clone for Evaluator {
    fn clone(&self) -> (e: Evaluator)
        ensures
            e.metric_view() == self.metric_view(),
            e.data_view() == self.data_view(),
    {
        let data = self.data.clone();
        assert(strings_view(data@) =~= strings_view(self.data@)) by {
            assert forall|i: int| 0 <= i < data@.len() implies data@[i]@ == self.data@[i]@ by {
                assert(vstd::pervasive::cloned::<String>(self.data@[i], data@[i]));
            }
        }
        Evaluator { metric: self.metric.clone(), data }
    }
}

impl Evaluator {
    /// The metric's name.
    pub closed spec fn metric_view(&self) -> Seq<char> {
        self.metric@
    }

    /// The texts evaluated on.
    pub closed spec fn data_view(&self) -> Seq<Seq<char>> {
        strings_view(self.data@)
    }

    /// An evaluator by `metric` ("perplexity" or "accuracy") on `data`.
    pub fn new(metric: String, data: Vec<String>) -> (e: Evaluator)
        ensures
            e.metric_view() == metric@,
            e.data_view() == strings_view(data@),
    {
        Evaluator { metric, data }
    }

    /// The metric's name.
    pub fn metric(&self) -> (m: &str)
        ensures
            m@ == self.metric_view(),
    {
        self.metric.as_str()
    }

    /// The texts evaluated on.
    pub fn data(&self) -> (d: &Vec<String>)
        ensures
            strings_view(d@) == self.data_view(),
    {
        &self.data
    }

    /// For accuracy: how many texts come back unchanged when tokenized and
    /// detokenized, and how many texts there are.
    pub fn accuracy_counts(&self, tokenizer: &Tokenizer) -> (r: (usize, usize))
        requires
            tokenizer.wf(),
            forall|i: int| 0 <= i < self.data_view().len() ==> can_encode(tokenizer.bpe_vocab(), #[trigger] self.data_view()[i]),
        ensures
            r.0 == round_trips(tokenizer.merges(), self.data_view()),
            r.1 == self.data_view().len(),
    {
        let ghost texts = self.data_view();
        let mut correct: usize = 0;
        let mut total: usize = 0;
        let n = self.data.len();
        for i in 0..n
            invariant
                n == texts.len(),
                texts == self.data_view(),
                tokenizer.wf(),
                forall|i: int| 0 <= i < texts.len() ==> can_encode(tokenizer.bpe_vocab(), #[trigger] texts[i]),
                correct == round_trips(tokenizer.merges(), texts.take(i as int)),
                correct <= i,
                total == i,
        {
            let text = &self.data[i];
            assert(text@ == texts[i as int]);
            let tokens = tokenizer.tokenize(text.as_str());
            let detext = tokenizer.detokenize(&tokens);
            assert(texts.take(i + 1).drop_last() =~= texts.take(i as int));
            let same = detext == *text;
            assert(same == (detext@ == text@));
            assert(texts.take(i + 1).last() == texts[i as int]);
            if same {
                correct = correct + 1;
            }
            total = total + 1;
        }
        assert(texts.take(n as int) =~= texts);
        (correct, total)
    }
}

} // verus!

verus! {

/// How many of `texts` are their words joined by single spaces.
pub open spec fn normalized_count(texts: Seq<Seq<char>>) -> nat
    decreases texts.len(),
{
    if texts.len() == 0 {
        0
    } else {
        normalized_count(texts.drop_last()) + (if join_words(words(texts.last())) == texts.last() {
            1nat
        } else {
            0nat
        })
    }
}

/// Accuracy counts exactly the texts that are already their words joined by single
/// spaces, whatever the merges, when no text holds the end-of-word marker.
pub proof fn law_accuracy_counts_normalized_texts(pairs: Seq<PairV>, texts: Seq<Seq<char>>)
    requires
        forall|i: int| 0 <= i < texts.len() ==> !has_marker(#[trigger] texts[i]),
    ensures
        round_trips(pairs, texts) == normalized_count(texts),
    decreases texts.len(),
{
    if texts.len() > 0 {
        let t0 = texts.drop_last();
        assert forall|i: int| 0 <= i < t0.len() implies !has_marker(#[trigger] t0[i]) by {
            assert(t0[i] == texts[i]);
        }
        law_accuracy_counts_normalized_texts(pairs, t0);
        let last = texts.last();
        assert(last == texts[texts.len() - 1]);
        law_decode_encode(pairs, last);
    }
}

} // verus!
