use vstd::prelude::*;

use crate::bpe::{can_encode, decode_tokens, encode_text, BPE};
use crate::config::{Config, ConfigView};
use crate::model::{ids_of, tokens_of, GPT};
use crate::token::{token_texts, PairV, Token};
use crate::vocabulary::Vocabulary;

verus! {

/// Turns text into tokens and back, with a BPE, a copy of its vocabulary taken when
/// the tokenizer was made, a language model and a configuration.
#[derive(Debug)]
pub struct Tokenizer {
    bpe: BPE,
    vocabulary: Vocabulary,
    model: GPT,
    config: Config,
}

impl Clone for Tokenizer {
    fn clone(&self) -> (t: Tokenizer)
        ensures
            t.bpe_vocab() == self.bpe_vocab(),
            t.merges() == self.merges(),
            t.bpe_limit() == self.bpe_limit(),
            t.vocab() == self.vocab(),
            t.model_vocab() == self.model_vocab(),
            t.model_size() == self.model_size(),
            t.config_view() == self.config_view(),
            t.wf() == self.wf(),
    {
        Tokenizer {
            bpe: self.bpe.clone(),
            vocabulary: self.vocabulary.clone(),
            model: self.model.clone(),
            config: self.config.clone(),
        }
    }
}

impl Tokenizer {
    /// The BPE vocabulary, by index.
    pub closed spec fn bpe_vocab(&self) -> Seq<Seq<char>> {
        self.bpe.vocab()
    }

    /// The BPE merges, in order.
    pub closed spec fn merges(&self) -> Seq<PairV> {
        self.bpe.merges()
    }

    /// The number of merges the BPE stops at when it trains.
    pub closed spec fn bpe_limit(&self) -> nat {
        self.bpe.limit()
    }

    /// The tokenizer's own vocabulary, as it was when the tokenizer was made.
    pub closed spec fn vocab(&self) -> Seq<Seq<char>> {
        self.vocabulary@
    }

    /// The model's vocabulary, by index.
    pub closed spec fn model_vocab(&self) -> Seq<Seq<char>> {
        self.model.vocab()
    }

    /// The vocabulary size the model was made for.
    pub closed spec fn model_size(&self) -> nat {
        self.model.size()
    }

    /// The configuration.
    pub closed spec fn config_view(&self) -> ConfigView {
        self.config@
    }

    /// Each vocabulary holds each token at most once.
    pub closed spec fn wf(&self) -> bool {
        &&& self.bpe.wf()
        &&& self.vocabulary.wf()
        &&& self.model.wf()
    }

    /// A tokenizer for `bpe`, with a copy of its vocabulary, a model made for that
    /// many tokens, and the default configuration.
    pub fn new(bpe: BPE) -> (t: Tokenizer)
        requires
            bpe.wf(),
        ensures
            t.wf(),
            t.bpe_vocab() == bpe.vocab(),
            t.merges() == bpe.merges(),
            t.bpe_limit() == bpe.limit(),
            t.vocab() == bpe.vocab(),
            t.model_vocab() == Seq::<Seq<char>>::empty(),
            t.model_size() == bpe.vocab().len(),
            t.config_view() == Config::default_view(),
    {
        let vocabulary = bpe.vocabulary().clone();
        let model = GPT::new(vocabulary.get_size());
        let config = Config::default();
        Tokenizer { bpe, vocabulary, model, config }
    }

    /// Whether `text` can be tokenized (see `BPE::can_encode_text`).
    pub fn can_tokenize(&self, text: &str) -> (b: bool)
        requires
            self.wf(),
        ensures
            b == can_encode(self.bpe_vocab(), text@),
    {
        self.bpe.can_encode_text(text)
    }

    /// The tokens of `text` (see `BPE::encode`).
    pub fn tokenize(&self, text: &str) -> (r: Vec<Token>)
        requires
            self.wf(),
            can_encode(self.bpe_vocab(), text@),
        ensures
            token_texts(r@) == encode_text(self.merges(), text@),
    {
        self.bpe.encode(text)
    }

    /// The text of `tokens` (see `BPE::decode`).
    pub fn detokenize(&self, tokens: &[Token]) -> (s: String)
        ensures
            s@ == decode_tokens(token_texts(tokens@)),
    {
        self.bpe.decode(tokens)
    }

    /// The model id of each token.
    pub fn convert(&self, tokens: &[Token]) -> (ids: Vec<usize>)
        requires
            self.wf(),
            forall|i: int| 0 <= i < tokens@.len() ==> self.model_vocab().contains(#[trigger] tokens@[i]@),
        ensures
            ids@ == ids_of(self.model_vocab(), token_texts(tokens@)),
    {
        self.model.convert(tokens)
    }

    /// The token of each model id.
    pub fn revert(&self, ids: &[usize]) -> (tokens: Vec<Token>)
        requires
            forall|i: int| 0 <= i < ids@.len() ==> #[trigger] ids@[i] < self.model_vocab().len(),
        ensures
            token_texts(tokens@) == tokens_of(self.model_vocab(), ids@),
    {
        self.model.revert(ids)
    }

    /// The tokenizer's own vocabulary.
    pub fn vocabulary(&self) -> (v: &Vocabulary)
        ensures
            v@ == self.vocab(),
    {
        &self.vocabulary
    }

    /// The configuration.
    pub fn config(&self) -> (c: &Config)
        ensures
            c@ == self.config_view(),
    {
        &self.config
    }

    /// The model.
    pub fn model(&self) -> (m: &GPT)
        ensures
            m.vocab() == self.model_vocab(),
            m.size() == self.model_size(),
            self.wf() ==> m.wf(),
    {
        &self.model
    }

    /// The number of BPE merges.
    pub fn pair_count(&self) -> (n: usize)
        ensures
            n == self.merges().len(),
    {
        self.bpe.pair_count()
    }

    /// Keeps the first `n` BPE merges.
    pub fn set_pairs(&mut self, n: usize)
        requires
            n <= old(self).merges().len(),
        ensures
            final(self).merges() == old(self).merges().take(n as int),
            final(self).bpe_limit() == old(self).bpe_limit(),
            final(self).bpe_vocab() == old(self).bpe_vocab(),
            final(self).vocab() == old(self).vocab(),
            final(self).model_vocab() == old(self).model_vocab(),
            final(self).model_size() == old(self).model_size(),
            final(self).config_view() == old(self).config_view(),
            final(self).wf() == old(self).wf(),
    {
        self.bpe.set_pairs(n);
    }

    /// The number of merges kept when the tokenizer is adjusted to a vocabulary
    /// size: half of them, or none when the vocabulary holds `usize::MAX` tokens.
    pub open spec fn kept_for_size(&self) -> nat {
        if self.vocab().len() < usize::MAX {
            self.merges().len() / 2
        } else {
            0
        }
    }

    /// Searches by bisection for the number of merges that gives a vocabulary of
    /// `target` tokens, and keeps the number of merges that gave the smallest
    /// vocabulary, the first such number probed.
    ///
    /// Each probe keeps a prefix of the merges and measures the tokenizer's own
    /// vocabulary, a copy taken when the tokenizer was made, which the merges do
    /// not change. So every probe measures the same size, and the first probe,
    /// half of the merges, is the one kept. The bisection stops when the next
    /// probe would leave the range of merges.
    pub fn adjust_by_vocabulary_size(&mut self, target: usize)
        ensures
            final(self).merges() == old(self).merges().take(old(self).kept_for_size() as int),
            old(self).kept_for_size() <= old(self).merges().len(),
            final(self).bpe_limit() == old(self).bpe_limit(),
            final(self).bpe_vocab() == old(self).bpe_vocab(),
            final(self).vocab() == old(self).vocab(),
            final(self).model_vocab() == old(self).model_vocab(),
            final(self).model_size() == old(self).model_size(),
            final(self).config_view() == old(self).config_view(),
            final(self).wf() == old(self).wf(),
    {
        let ghost old_merges = self.merges();
        let ghost n = old_merges.len();
        let ghost k = old(self).kept_for_size();
        let ghost size_now = self.vocab().len();
        let full = self.bpe.clone();
        let mut low: usize = 0;
        let mut high: usize = full.pair_count();
        let mut best_size: usize = usize::MAX;
        let mut best_pairs: usize = 0;
        let ghost mut first = true;
        while low <= high
            invariant
                n == old_merges.len(),
                old_merges == old(self).merges(),
                k == old(self).kept_for_size(),
                size_now == old(self).vocab().len(),
                full.merges() == old_merges,
                full.vocab() == old(self).bpe_vocab(),
                full.limit() == old(self).bpe.limit(),
                low <= high <= n,
                first ==> low == 0 && high == n && best_size == usize::MAX && best_pairs == 0,
                !first ==> best_size == size_now && best_pairs == k,
                self.bpe.limit() == old(self).bpe.limit(),
                self.vocab() == old(self).vocab(),
                self.bpe_vocab() == old(self).bpe_vocab(),
                self.model_vocab() == old(self).model_vocab(),
                self.model_size() == old(self).model_size(),
                self.config_view() == old(self).config_view(),
                self.wf() == old(self).wf(),
            ensures
                best_pairs == k,
                self.bpe.limit() == old(self).bpe.limit(),
                self.vocab() == old(self).vocab(),
                self.bpe_vocab() == old(self).bpe_vocab(),
                self.model_vocab() == old(self).model_vocab(),
                self.model_size() == old(self).model_size(),
                self.config_view() == old(self).config_view(),
                self.wf() == old(self).wf(),
            decreases high - low,
        {
            let mid = low + (high - low) / 2;
            self.bpe = full.clone();
            self.bpe.set_pairs(mid);
            let size = self.vocabulary.get_size();
            if size < best_size {
                best_size = size;
                best_pairs = mid;
            }
            proof {
                first = false;
            }
            if size < target {
                if mid == low {
                    break;
                }
                high = mid - 1;
            } else if size > target {
                if mid == high {
                    break;
                }
                low = mid + 1;
            } else {
                break;
            }
        }
        self.bpe = full.clone();
        self.bpe.set_pairs(best_pairs);
    }
}

} // verus!
