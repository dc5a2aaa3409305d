use vstd::prelude::*;

use crate::token::{token_texts, Token};
use crate::vocabulary::Vocabulary;

verus! {

/// The ids of `toks` in `vocab`: each token's index.
pub open spec fn ids_of(vocab: Seq<Seq<char>>, toks: Seq<Seq<char>>) -> Seq<usize> {
    toks.map_values(|t: Seq<char>| vocab.index_of(t) as usize)
}

/// The tokens of `ids` in `vocab`.
pub open spec fn tokens_of(vocab: Seq<Seq<char>>, ids: Seq<usize>) -> Seq<Seq<char>> {
    ids.map_values(|i: usize| vocab[i as int])
}

/// The token table of the GPT language model: the vocabulary through which its
/// transformer turns tokens into ids and back, and the vocabulary size it was made
/// for. (The transformer's layers compute in floating point and are not part of it.)
#[derive(Debug)]
pub struct GPT {
    vocabulary: Vocabulary,
    vocab_size: usize,
}

impl Clone for GPT {
    fn clone(&self) -> (g: GPT)
        ensures
            g.vocab() == self.vocab(),
            g.size() == self.size(),
    {
        GPT { vocabulary: self.vocabulary.clone(), vocab_size: self.vocab_size }
    }
}

impl GPT {
    /// The tokens of the model's vocabulary, by index.
    pub closed spec fn vocab(&self) -> Seq<Seq<char>> {
        self.vocabulary@
    }

    /// The vocabulary size the model was made for.
    pub closed spec fn size(&self) -> nat {
        self.vocab_size as nat
    }

    /// No token occurs twice in the model's vocabulary.
    pub open spec fn wf(&self) -> bool {
        self.vocab().no_duplicates()
    }

    /// A model for `vocab_size` tokens; its transformer starts with an empty vocabulary.
    pub fn new(vocab_size: usize) -> (g: GPT)
        ensures
            g.wf(),
            g.vocab() == Seq::<Seq<char>>::empty(),
            g.size() == vocab_size,
    {
        GPT { vocabulary: Vocabulary::new(), vocab_size }
    }

    /// The model's vocabulary.
    pub fn vocabulary(&self) -> (v: &Vocabulary)
        ensures
            v@ == self.vocab(),
    {
        &self.vocabulary
    }

    /// The vocabulary size the model was made for.
    pub fn vocab_size(&self) -> (n: usize)
        ensures
            n == self.size(),
    {
        self.vocab_size
    }

    /// The id of each token.
    pub fn convert(&self, tokens: &[Token]) -> (ids: Vec<usize>)
        requires
            self.wf(),
            forall|i: int| 0 <= i < tokens@.len() ==> self.vocab().contains(#[trigger] tokens@[i]@),
        ensures
            ids@ == ids_of(self.vocab(), token_texts(tokens@)),
    {
        let mut ids: Vec<usize> = Vec::new();
        let n = tokens.len();
        for i in 0..n
            invariant
                n == tokens@.len(),
                self.wf(),
                forall|i: int| 0 <= i < tokens@.len() ==> self.vocab().contains(#[trigger] tokens@[i]@),
                ids@ == ids_of(self.vocab(), token_texts(tokens@)).take(i as int),
        {
            let found = self.vocabulary.get_index(&tokens[i]);
            match found {
                Some(id) => {
                    ids.push(id);
                },
                None => {
                    assert(self.vocab().contains(tokens@[i as int]@));
                },
            }
            assert(ids@ =~= ids_of(self.vocab(), token_texts(tokens@)).take(i + 1));
        }
        assert(ids@ =~= ids_of(self.vocab(), token_texts(tokens@)));
        ids
    }

    /// The token of each id.
    pub fn revert(&self, ids: &[usize]) -> (tokens: Vec<Token>)
        requires
            forall|i: int| 0 <= i < ids@.len() ==> #[trigger] ids@[i] < self.vocab().len(),
        ensures
            token_texts(tokens@) == tokens_of(self.vocab(), ids@),
    {
        let mut tokens: Vec<Token> = Vec::new();
        let n = ids.len();
        for i in 0..n
            invariant
                n == ids@.len(),
                forall|i: int| 0 <= i < ids@.len() ==> #[trigger] ids@[i] < self.vocab().len(),
                token_texts(tokens@) == tokens_of(self.vocab(), ids@).take(i as int),
        {
            let found = self.vocabulary.get_token(ids[i]);
            match found {
                Some(token) => {
                    let t = token.clone();
                    let ghost before = tokens@;
                    tokens.push(t);
                    assert(token_texts(tokens@) =~= token_texts(before).push(t@));
                },
                None => {
                    assert(ids@[i as int] < self.vocab().len());
                },
            }
            assert(token_texts(tokens@) =~= tokens_of(self.vocab(), ids@).take(i + 1));
        }
        assert(tokens_of(self.vocab(), ids@).take(n as int) =~= tokens_of(self.vocab(), ids@));
        tokens
    }
}

} // verus!

verus! {

/// The id of a token is its position in the vocabulary, and the token of an id is
/// the one at that position; so turning tokens into ids and back gives the tokens,
/// and turning ids into tokens and back gives the ids.
pub proof fn law_convert_revert(vocab: Seq<Seq<char>>, toks: Seq<Seq<char>>, ids: Seq<usize>)
    requires
        vocab.no_duplicates(),
        vocab.len() <= usize::MAX,
    ensures
        ids_of(vocab, toks).len() == toks.len(),
        forall|i: int|
            0 <= i < toks.len() && vocab.contains(toks[i]) ==> vocab[#[trigger] ids_of(vocab, toks)[i] as int]
                == toks[i],
        tokens_of(vocab, ids).len() == ids.len(),
        forall|i: int|
            0 <= i < ids.len() && ids[i] < vocab.len() ==> #[trigger] tokens_of(vocab, ids)[i] == vocab[ids[i] as int],
        (forall|i: int| 0 <= i < toks.len() ==> vocab.contains(#[trigger] toks[i])) ==> tokens_of(
            vocab,
            ids_of(vocab, toks),
        ) == toks,
        (forall|i: int| 0 <= i < ids.len() ==> #[trigger] ids[i] < vocab.len()) ==> ids_of(
            vocab,
            tokens_of(vocab, ids),
        ) == ids,
{
    assert forall|i: int|
        0 <= i < toks.len() && vocab.contains(toks[i]) implies vocab[#[trigger] ids_of(vocab, toks)[i] as int]
        == toks[i] by {
        let j = vocab.index_of(toks[i]);
        assert(0 <= j < vocab.len() && vocab[j] == toks[i]);
    }
    if forall|i: int| 0 <= i < toks.len() ==> vocab.contains(#[trigger] toks[i]) {
        assert forall|i: int| 0 <= i < toks.len() implies tokens_of(vocab, ids_of(vocab, toks))[i]
            == toks[i] by {
            assert(vocab.contains(toks[i]));
            let j = vocab.index_of(toks[i]);
            assert(0 <= j < vocab.len() && vocab[j] == toks[i]);
        }
        assert(tokens_of(vocab, ids_of(vocab, toks)) =~= toks);
    }
    if forall|i: int| 0 <= i < ids.len() ==> #[trigger] ids[i] < vocab.len() {
        assert forall|i: int| 0 <= i < ids.len() implies ids_of(vocab, tokens_of(vocab, ids))[i]
            == ids[i] by {
            let k = ids[i] as int;
            assert(ids[i] < vocab.len());
            crate::vocabulary::law_index_of_token_at(vocab, k);
        }
        assert(ids_of(vocab, tokens_of(vocab, ids)) =~= ids);
    }
}

} // verus!
