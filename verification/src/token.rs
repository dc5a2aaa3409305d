use vstd::prelude::*;

use crate::text::{chars_of, string_of};

verus! {

/// The smallest unit of text that the tokenizer works with: a string of characters.
#[derive(Debug, Hash)]
pub struct Token {
    text: String,
}

impl View for Token {
    type V = Seq<char>;

    closed spec fn view(&self) -> Seq<char> {
        self.text@
    }
}

impl Token {
    /// Makes a token that holds a copy of `text`.
    pub fn new(text: &str) -> (t: Token)
        ensures
            t@ == text@,
    {
        Token { text: text.to_owned() }
    }

    /// A token made of the characters of `v`.
    pub(crate) fn from_chars(v: &Vec<char>) -> (t: Token)
        ensures
            t@ == v@,
    {
        Token { text: string_of(v) }
    }

    /// The token whose text is `self` followed by `other`.
    pub(crate) fn concat(&self, other: &Token) -> (t: Token)
        ensures
            t@ == self@ + other@,
    {
        let mut v = chars_of(self.text.as_str());
        let w = chars_of(other.text.as_str());
        let n = w.len();
        for i in 0..n
            invariant
                n == w@.len(),
                v@ == self@ + w@.take(i as int),
        {
            v.push(w[i]);
            assert(v@ =~= self@ + w@.take(i + 1));
        }
        assert(w@.take(n as int) =~= other@);
        Token::from_chars(&v)
    }

    /// The characters of the token, in a vector.
    pub(crate) fn chars(&self) -> (v: Vec<char>)
        ensures
            v@ == self@,
    {
        chars_of(self.text.as_str())
    }

    /// The token as it is displayed: its text.
    pub fn to_string(&self) -> (s: String)
        ensures
            s@ == self@,
    {
        self.text.clone()
    }

    /// The characters of the token.
    pub fn text(&self) -> (s: &str)
        ensures
            s@ == self@,
    {
        self.text.as_str()
    }
}

impl PartialEq for Token {
    fn eq(&self, other: &Self) -> (r: bool) {
        self.text == other.text
    }
}

impl vstd::std_specs::cmp::PartialEqSpecImpl for Token {
    open spec fn obeys_eq_spec() -> bool {
        true
    }

    open spec fn eq_spec(&self, other: &Self) -> bool {
        self@ == other@
    }
}

impl Eq for Token {}

impl Clone for Token {
    fn clone(&self) -> (t: Token)
        ensures
            t@ == self@,
    {
        Token { text: self.text.clone() }
    }
}

/// The texts of a sequence of tokens.
pub open spec fn token_texts(ts: Seq<Token>) -> Seq<Seq<char>> {
    ts.map_values(|t: Token| t@)
}

/// The characters of the two tokens of a pair.
pub type PairV = (Seq<char>, Seq<char>);

/// Two tokens that stand next to each other.
#[derive(Debug, Hash)]
pub struct Pair {
    first: Token,
    second: Token,
}

impl View for Pair {
    type V = PairV;

    closed spec fn view(&self) -> PairV {
        (self.first@, self.second@)
    }
}

impl Pair {
    /// The pair of `first` followed by `second`.
    pub fn new(first: Token, second: Token) -> (p: Pair)
        ensures
            p@ == (first@, second@),
    {
        Pair { first, second }
    }

    /// The first token of the pair.
    pub fn first(&self) -> (t: &Token)
        ensures
            t@ == self@.0,
    {
        &self.first
    }

    /// The second token of the pair.
    pub fn second(&self) -> (t: &Token)
        ensures
            t@ == self@.1,
    {
        &self.second
    }
}

impl Pair {
    /// The pair as it is displayed: both tokens in parentheses, separated by a
    /// comma and a space.
    pub fn to_string(&self) -> (s: String)
        ensures
            s@ == seq!['('] + self@.0 + seq![',', ' '] + self@.1 + seq![')'],
    {
        let mut v: Vec<char> = Vec::new();
        v.push('(');
        let mut a = self.first.chars();
        v.append(&mut a);
        v.push(',');
        v.push(' ');
        let mut b = self.second.chars();
        v.append(&mut b);
        v.push(')');
        assert(v@ =~= seq!['('] + self@.0 + seq![',', ' '] + self@.1 + seq![')']);
        string_of(&v)
    }
}

impl PartialEq for Pair {
    fn eq(&self, other: &Self) -> (r: bool) {
        self.first == other.first && self.second == other.second
    }
}

impl vstd::std_specs::cmp::PartialEqSpecImpl for Pair {
    open spec fn obeys_eq_spec() -> bool {
        true
    }

    open spec fn eq_spec(&self, other: &Self) -> bool {
        self@ == other@
    }
}

impl Eq for Pair {}

impl Clone for Pair {
    fn clone(&self) -> (p: Pair)
        ensures
            p@ == self@,
    {
        Pair { first: self.first.clone(), second: self.second.clone() }
    }
}

} // verus!
