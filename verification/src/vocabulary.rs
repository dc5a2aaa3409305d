use vstd::prelude::*;

use crate::token::Token;

verus! {

/// The vocabulary after `t` is added to `v`: unchanged if `t` is already there,
/// else `t` at the end, where its index is the old size.
pub open spec fn vocab_add(v: Seq<Seq<char>>, t: Seq<char>) -> Seq<Seq<char>> {
    if v.contains(t) {
        v
    } else {
        v.push(t)
    }
}

/// The vocabulary after `t` is removed from `v`: the tokens after it move down by one.
pub open spec fn vocab_remove(v: Seq<Seq<char>>, t: Seq<char>) -> Seq<Seq<char>> {
    if v.contains(t) {
        v.remove(v.index_of(t))
    } else {
        v
    }
}

/// The set of distinct tokens, each with its index.
///
/// Its view lists the tokens by index: the token at position `i` has index `i`.
#[derive(Debug)]
pub struct Vocabulary {
    token: Vec<Token>,
}

impl View for Vocabulary {
    type V = Seq<Seq<char>>;

    closed spec fn view(&self) -> Seq<Seq<char>> {
        self.token@.map_values(|t: Token| t@)
    }
}

impl Vocabulary {
    /// No token occurs twice.
    pub open spec fn wf(&self) -> bool {
        self@.no_duplicates()
    }

    /// An empty vocabulary.
    pub fn new() -> (v: Vocabulary)
        ensures
            v.wf(),
            v@ == Seq::<Seq<char>>::empty(),
    {
        let v = Vocabulary { token: Vec::new() };
        assert(v@ =~= Seq::<Seq<char>>::empty());
        v
    }

}

impl Clone for Vocabulary {
    fn clone(&self) -> (v: Vocabulary)
        ensures
            v@ == self@,
    {
        let mut out: Vec<Token> = Vec::new();
        let n = self.token.len();
        for i in 0..n
            invariant
                n == self.token@.len(),
                out@.map_values(|t: Token| t@) == self@.take(i as int),
        {
            let t = self.token[i].clone();
            assert(t@ == self@[i as int]);
            let ghost before = out@;
            out.push(t);
            assert(out@ == before.push(t));
            assert(out@.map_values(|t: Token| t@) =~= before.map_values(|t: Token| t@).push(t@));
            assert(self@.take(i + 1) =~= self@.take(i as int).push(self@[i as int]));
            assert(out@.map_values(|t: Token| t@) =~= self@.take(i + 1));
        }
        let v = Vocabulary { token: out };
        assert(v@ =~= self@);
        v
    }
}

impl Vocabulary {
    /// Adds `token` to the vocabulary if it is not already there, at the next
    /// index. (The embedding row that goes with a new token is made of random
    /// floating-point numbers and is not held here.)
    pub fn add_token(&mut self, token: &Token)
        requires
            old(self).wf(),
        ensures
            final(self).wf(),
            final(self)@ == vocab_add(old(self)@, token@),
    {
        if !self.contains(token) {
            self.add(token.clone());
        }
    }

    /// The number of tokens.
    pub fn get_size(&self) -> (n: usize)
        ensures
            n == self@.len(),
    {
        self.token.len()
    }

    fn find(&self, token: &Token) -> (r: Option<usize>)
        requires
            self.wf(),
        ensures
            r is Some <==> self@.contains(token@),
            r matches Some(i) ==> i as int == self@.index_of(token@) && i < self@.len(),
    {
        let n = self.token.len();
        for i in 0..n
            invariant
                n == self@.len(),
                self.wf(),
                forall|j: int| 0 <= j < i ==> self@[j] != token@,
        {
            if self.token[i] == *token {
                assert(self@[i as int] == token@);
                assert(self@.contains(token@));
                let ghost j = self@.index_of(token@);
                assert(0 <= j < self@.len() && self@[j] == token@);
                assert(j == i as int);
                return Some(i);
            }
        }
        None
    }

    /// Adds `token` at the next index if it is not already there.
    pub fn add(&mut self, token: Token)
        requires
            old(self).wf(),
        ensures
            final(self).wf(),
            final(self)@ == vocab_add(old(self)@, token@),
    {
        if self.find(&token).is_none() {
            let ghost t = token@;
            self.token.push(token);
            assert(self@ =~= old(self)@.push(t));
        }
    }

    /// Removes `token`, if present; the tokens after it move down one index.
    pub fn remove(&mut self, token: &Token)
        requires
            old(self).wf(),
        ensures
            final(self).wf(),
            final(self)@ == vocab_remove(old(self)@, token@),
    {
        let found = self.find(token);
        assert(self@ == old(self)@);
        match found {
            Some(idx) => {
                assert(old(self)@.contains(token@));
                let ghost j = old(self)@.index_of(token@);
                assert(0 <= j < old(self)@.len());
                assert(idx as int == old(self)@.index_of(token@));
                self.token.remove(idx);
                assert(self@ =~= old(self)@.remove(idx as int));
            },
            None => {},
        }
    }

    /// Whether `token` is in the vocabulary.
    pub fn contains(&self, token: &Token) -> (b: bool)
        requires
            self.wf(),
        ensures
            b == self@.contains(token@),
    {
        self.find(token).is_some()
    }

    /// The index of `token`, if present.
    pub fn get_index(&self, token: &Token) -> (r: Option<usize>)
        requires
            self.wf(),
        ensures
            r == (if self@.contains(token@) {
                Some(self@.index_of(token@) as usize)
            } else {
                None::<usize>
            }),
    {
        self.find(token)
    }

    /// The token with index `index`, if there is one.
    pub fn get_token(&self, index: usize) -> (r: Option<&Token>)
        ensures
            r is Some <==> index < self@.len(),
            r matches Some(t) ==> t@ == self@[index as int],
    {
        if index < self.token.len() {
            Some(&self.token[index])
        } else {
            None
        }
    }
}

} // verus!

verus! {

/// Each token's index is its position: looking up the token at an index gives back
/// that index.
pub proof fn law_index_of_token_at(v: Seq<Seq<char>>, i: int)
    requires
        v.no_duplicates(),
        0 <= i < v.len(),
    ensures
        v.contains(v[i]),
        v.index_of(v[i]) == i,
{
    lemma_index_of_position(v, i);
}

/// In a sequence without duplicates, an element's index is its position.
pub proof fn lemma_index_of_position<A>(v: Seq<A>, i: int)
    requires
        v.no_duplicates(),
        0 <= i < v.len(),
    ensures
        v.contains(v[i]),
        v.index_of(v[i]) == i,
{
    assert(v.contains(v[i]));
    let j = v.index_of(v[i]);
    assert(v[j] == v[i]);
}

/// Adding a token makes it present; adding it again changes nothing; a new token
/// gets the next index.
pub proof fn law_add(v: Seq<Seq<char>>, t: Seq<char>)
    requires
        v.no_duplicates(),
    ensures
        vocab_add(v, t).no_duplicates(),
        vocab_add(v, t).contains(t),
        vocab_add(vocab_add(v, t), t) == vocab_add(v, t),
        !v.contains(t) ==> vocab_add(v, t).index_of(t) == v.len(),
        !v.contains(t) ==> vocab_add(v, t) == v.push(t),
        v.contains(t) ==> vocab_add(v, t) == v,
        forall|u: Seq<char>| v.contains(u) ==> vocab_add(v, t).contains(u),
{
    if !v.contains(t) {
        let w = v.push(t);
        assert(w[v.len() as int] == t);
        assert(w.no_duplicates());
        law_index_of_token_at(w, v.len() as int);
        assert forall|u: Seq<char>| v.contains(u) implies w.contains(u) by {
            let k = v.index_of(u);
            assert(w[k] == u);
        }
    }
}

/// Removing a token makes it absent and keeps the others in order: the tokens
/// before it keep their indices and those after it move down by one; removing a
/// token that is not there changes nothing; removing a token just added gives back
/// the vocabulary it was added to.
pub proof fn law_remove(v: Seq<Seq<char>>, t: Seq<char>)
    requires
        v.no_duplicates(),
    ensures
        vocab_remove(v, t).no_duplicates(),
        !vocab_remove(v, t).contains(t),
        !v.contains(t) ==> vocab_remove(v, t) == v,
        forall|j: int| 0 <= j < v.len() && v[j] == t ==> vocab_remove(v, t) == v.take(j) + v.skip(j + 1),
        v.contains(t) ==> vocab_remove(v, t).len() + 1 == v.len(),
        forall|i: int| 0 <= i < v.len() && v[i] != t ==> vocab_remove(v, t).contains(#[trigger] v[i]),
        !v.contains(t) ==> vocab_remove(vocab_add(v, t), t) == v,
{
    assert forall|j: int| 0 <= j < v.len() && v[j] == t implies vocab_remove(v, t) == v.take(j) + v.skip(j + 1) by {
        lemma_index_of_position(v, j);
        assert(v.remove(j) =~= v.take(j) + v.skip(j + 1));
    }
    assert forall|i: int| 0 <= i < v.len() && v[i] != t implies vocab_remove(v, t).contains(#[trigger] v[i]) by {
        if v.contains(t) {
            let j = v.index_of(t);
            let w = v.remove(j);
            if i < j {
                assert(w[i] == v[i]);
            } else {
                assert(i != j);
                assert(w[i - 1] == v[i]);
            }
        }
    }
    if v.contains(t) {
        let j = v.index_of(t);
        let w = v.remove(j);
        if w.contains(t) {
            let k = choose|k: int| 0 <= k < w.len() && w[k] == t;
            if k < j {
                assert(v[k] == t);
            } else {
                assert(v[k + 1] == t);
            }
        }
    } else {
        let w = v.push(t);
        law_add(v, t);
        assert(w.remove(v.len() as int) =~= v);
    }
}

} // verus!
