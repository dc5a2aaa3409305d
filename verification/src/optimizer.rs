use vstd::prelude::*;

use crate::token::Token;
use crate::vocabulary::{vocab_remove, Vocabulary};

verus! {

/// Prunes a vocabulary: by frequency or by coverage, against a threshold.
#[derive(Debug)]
pub struct Optimizer {
    method: String,
    threshold: usize,
}

impl Clone for Optimizer {
    fn clone(&self) -> (o: Optimizer)
        ensures
            o.method_view() == self.method_view(),
            o.threshold_view() == self.threshold_view(),
    {
        Optimizer { method: self.method.clone(), threshold: self.threshold }
    }
}

impl Optimizer {
    /// The method's name.
    pub closed spec fn method_view(&self) -> Seq<char> {
        self.method@
    }

    /// The threshold below which a token goes.
    pub closed spec fn threshold_view(&self) -> nat {
        self.threshold as nat
    }

    /// An optimizer by `method` ("frequency" or "coverage") with `threshold`.
    pub fn new(method: String, threshold: usize) -> (o: Optimizer)
        ensures
            o.method_view() == method@,
            o.threshold_view() == threshold,
    {
        Optimizer { method, threshold }
    }

    /// The method's name.
    pub fn method(&self) -> (m: &str)
        ensures
            m@ == self.method_view(),
    {
        self.method.as_str()
    }

    /// The threshold.
    pub fn threshold(&self) -> (t: usize)
        ensures
            t == self.threshold_view(),
    {
        self.threshold
    }

    /// Removes each token whose frequency in the vocabulary is below the threshold.
    /// A vocabulary holds each token once, so each frequency is 1: a threshold above
    /// 1 empties the vocabulary, any other leaves it as it is.
    pub fn optimize_by_frequency(&self, vocabulary: &mut Vocabulary)
        requires
            old(vocabulary).wf(),
        ensures
            final(vocabulary).wf(),
            final(vocabulary)@ == (if self.threshold_view() > 1 {
                Seq::<Seq<char>>::empty()
            } else {
                old(vocabulary)@
            }),
    {
        let ghost v = vocabulary@;
        let mut freq: Vec<(Token, usize)> = Vec::new();
        let n = vocabulary.get_size();
        for i in 0..n
            invariant
                n == v.len(),
                v == vocabulary@,
                vocabulary.wf(),
                freq@.len() == i,
                forall|j: int| 0 <= j < i ==> (#[trigger] freq@[j]).0@ == v[j] && freq@[j].1 == 1,
        {
            let found = vocabulary.get_token(i);
            match found {
                Some(token) => {
                    let m = freq.len();
                    let mut at: Option<usize> = None;
                    for k in 0..m
                        invariant
                            m == freq@.len(),
                            at matches Some(j) ==> j < k && freq@[j as int].0@ == token@,
                    {
                        if at.is_none() && freq[k].0 == *token {
                            at = Some(k);
                        }
                    }
                    match at {
                        Some(j) => {
                            assert(v[j as int] == v[i as int]);
                            let count = freq[j].1 + 1;
                            freq.set(j, (token.clone(), count));
                        },
                        None => {
                            freq.push((token.clone(), 1));
                        },
                    }
                },
                None => {},
            }
        }
        let m = freq.len();
        for i in 0..m
            invariant
                m == v.len(),
                m == freq@.len(),
                forall|j: int| 0 <= j < m ==> (#[trigger] freq@[j]).0@ == v[j] && freq@[j].1 == 1,
                v.no_duplicates(),
                vocabulary.wf(),
                vocabulary@ == (if self.threshold_view() > 1 {
                    v.skip(i as int)
                } else {
                    v
                }),
        {
            if freq[i].1 < self.threshold {
                let ghost before = vocabulary@;
                assert(before[0] == v[i as int]);
                vocabulary.remove(&freq[i].0);
                assert(before.index_of(v[i as int]) == 0) by {
                    let j = before.index_of(v[i as int]);
                    assert(before.contains(v[i as int]));
                    assert(before[j] == v[i as int]);
                    assert(before[j] == v[i + j]);
                }
                assert(vocab_remove(before, v[i as int]) =~= v.skip(i + 1));
            }
        }
        assert(v.skip(m as int) =~= Seq::<Seq<char>>::empty());
    }
}

} // verus!
