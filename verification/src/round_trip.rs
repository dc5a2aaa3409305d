use vstd::prelude::*;

use crate::bpe::{
    apply_merges, char_tokens, decode_tokens, encode_text, encode_word, replace_pair_in,
};
use crate::text::{
    end_marker, is_ws, replace_markers, split_ws, starts_with_marker, trim_end, trim_start, words,
};
use crate::token::PairV;
use crate::training::lemma_words_chars;

verus! {

/// The words `ws` joined by single spaces.
pub open spec fn join_words(ws: Seq<Seq<char>>) -> Seq<char>
    decreases ws.len(),
{
    if ws.len() == 0 {
        Seq::empty()
    } else if ws.len() == 1 {
        ws[0]
    } else {
        join_words(ws.drop_last()) + seq![' '] + ws.last()
    }
}

/// Whether the end-of-word marker occurs in `w`.
pub open spec fn has_marker(w: Seq<char>) -> bool {
    exists|i: int| 0 <= i < w.len() && #[trigger] starts_with_marker(w.skip(i))
}

/// `w` followed by the end-of-word marker.
pub open spec fn marked(w: Seq<char>) -> Seq<char> {
    w + end_marker()
}

/// `w` followed by a space.
pub open spec fn spaced(w: Seq<char>) -> Seq<char> {
    w + seq![' ']
}

proof fn lemma_flatten_cons<A>(x: Seq<A>, rest: Seq<Seq<A>>)
    ensures
        (seq![x] + rest).flatten() == x + rest.flatten(),
{
    vstd::seq_lib::lemma_flatten_concat(seq![x], rest);
    seq![x].lemma_flatten_one_element();
}

/// Replacing a pair joins two tokens into one and keeps every character in place.
pub proof fn law_replace_pair_keeps_text(ts: Seq<Seq<char>>, p: PairV)
    ensures
        replace_pair_in(ts, p).flatten() == ts.flatten(),
    decreases ts.len(),
{
    if ts.len() >= 2 {
        assert(ts =~= seq![ts[0]] + ts.skip(1));
        assert(ts.skip(1) =~= seq![ts[1]] + ts.skip(2));
        lemma_flatten_cons(ts[0], ts.skip(1));
        lemma_flatten_cons(ts[1], ts.skip(2));
        if (ts[0], ts[1]) == p {
            law_replace_pair_keeps_text(ts.skip(2), p);
            lemma_flatten_cons(ts[0] + ts[1], replace_pair_in(ts.skip(2), p));
            assert(ts[0] + ts[1] + ts.skip(2).flatten() =~= ts[0] + (ts[1] + ts.skip(2).flatten()));
        } else {
            law_replace_pair_keeps_text(ts.skip(1), p);
            lemma_flatten_cons(ts[0], replace_pair_in(ts.skip(1), p));
        }
    }
}

/// Applying merges keeps every character in place.
pub proof fn lemma_apply_merges_keeps_text(ts: Seq<Seq<char>>, pairs: Seq<PairV>)
    ensures
        apply_merges(ts, pairs).flatten() == ts.flatten(),
    decreases pairs.len(),
{
    if pairs.len() > 0 {
        lemma_apply_merges_keeps_text(ts, pairs.drop_last());
        law_replace_pair_keeps_text(apply_merges(ts, pairs.drop_last()), pairs.last());
    }
}

/// Single-character tokens spell the word they come from.
pub proof fn lemma_char_tokens_text(w: Seq<char>)
    ensures
        char_tokens(w).flatten() == w,
    decreases w.len(),
{
    if w.len() > 0 {
        lemma_char_tokens_text(w.drop_last());
        assert(char_tokens(w) =~= char_tokens(w.drop_last()).push(seq![w.last()]));
        char_tokens(w.drop_last()).lemma_flatten_push(seq![w.last()]);
        assert(w.drop_last() + seq![w.last()] =~= w);
    }
}

/// The tokens of a word spell the word followed by the end-of-word marker.
pub proof fn lemma_encode_word_text(pairs: Seq<PairV>, w: Seq<char>)
    ensures
        encode_word(pairs, w).flatten() == marked(w),
{
    lemma_apply_merges_keeps_text(char_tokens(w + end_marker()), pairs);
    lemma_char_tokens_text(w + end_marker());
}

/// The tokens of a text spell its words, each followed by the end-of-word marker.
pub proof fn law_encode_spells_words(pairs: Seq<PairV>, text: Seq<char>)
    ensures
        encode_text(pairs, text).flatten() == words(text).map_values(|w: Seq<char>| marked(w)).flatten(),
{
    let ws = words(text);
    lemma_encode_words_text(pairs, ws);
}

proof fn lemma_encode_words_text(pairs: Seq<PairV>, ws: Seq<Seq<char>>)
    ensures
        ws.map_values(|w: Seq<char>| encode_word(pairs, w)).flatten().flatten() == ws.map_values(
            |w: Seq<char>| marked(w),
        ).flatten(),
    decreases ws.len(),
{
    let f = |w: Seq<char>| encode_word(pairs, w);
    let g = |w: Seq<char>| marked(w);
    if ws.len() > 0 {
        let ws0 = ws.drop_last();
        lemma_encode_words_text(pairs, ws0);
        assert(ws.map_values(f) =~= ws0.map_values(f).push(f(ws.last())));
        assert(ws.map_values(g) =~= ws0.map_values(g).push(g(ws.last())));
        ws0.map_values(f).lemma_flatten_push(f(ws.last()));
        vstd::seq_lib::lemma_flatten_concat(ws0.map_values(f).flatten(), f(ws.last()));
        ws0.map_values(g).lemma_flatten_push(g(ws.last()));
        lemma_encode_word_text(pairs, ws.last());
    } else {
        assert(ws.map_values(f) =~= Seq::<Seq<Seq<char>>>::empty());
        assert(ws.map_values(g) =~= Seq::<Seq<char>>::empty());
    }
}

proof fn lemma_marker_no_border(w: Seq<char>, rest: Seq<char>)
    requires
        0 < w.len() < 4,
    ensures
        !starts_with_marker(w + end_marker() + rest),
{
    let s = w + end_marker() + rest;
    if starts_with_marker(s) {
        assert(s.take(4)[w.len() as int] == s[w.len() as int]);
        assert(s[w.len() as int] == '<');
        assert(end_marker()[w.len() as int] != '<');
    }
}

/// Marker replacement turns a marked word into the word followed by a space.
proof fn lemma_replace_marked(w: Seq<char>, rest: Seq<char>)
    requires
        !has_marker(w),
    ensures
        replace_markers(w + end_marker() + rest) == w + seq![' '] + replace_markers(rest),
    decreases w.len(),
{
    let s = w + end_marker() + rest;
    if w.len() == 0 {
        assert(s =~= end_marker() + rest);
        assert(s.take(4) =~= end_marker());
        assert(s.skip(4) =~= rest);
        assert(w + seq![' '] + replace_markers(rest) =~= seq![' '] + replace_markers(rest));
    } else {
        if w.len() >= 4 {
            assert(s.take(4) =~= w.skip(0).take(4));
            assert(w.skip(0) =~= w);
            if starts_with_marker(s) {
                assert(starts_with_marker(w.skip(0)));
            }
        } else {
            lemma_marker_no_border(w, rest);
        }
        assert(!starts_with_marker(s));
        let w1 = w.skip(1);
        assert(!has_marker(w1)) by {
            if has_marker(w1) {
                let i = choose|i: int| 0 <= i < w1.len() && #[trigger] starts_with_marker(w1.skip(i));
                assert(w1.skip(i) =~= w.skip(i + 1));
                assert(starts_with_marker(w.skip(i + 1)));
            }
        }
        lemma_replace_marked(w1, rest);
        assert(s.skip(1) =~= w1 + end_marker() + rest);
        assert(w + seq![' '] + replace_markers(rest) =~= seq![w[0]] + (w1 + seq![' '] + replace_markers(rest)));
    }
}

/// A string without the marker is left as it is.
proof fn lemma_replace_unmarked(w: Seq<char>)
    requires
        !has_marker(w),
    ensures
        replace_markers(w) == w,
    decreases w.len(),
{
    if w.len() > 0 {
        assert(w.skip(0) =~= w);
        assert(!starts_with_marker(w.skip(0)));
        let w1 = w.skip(1);
        assert(!has_marker(w1)) by {
            if has_marker(w1) {
                let i = choose|i: int| 0 <= i < w1.len() && #[trigger] starts_with_marker(w1.skip(i));
                assert(w1.skip(i) =~= w.skip(i + 1));
                assert(starts_with_marker(w.skip(i + 1)));
            }
        }
        lemma_replace_unmarked(w1);
        assert(seq![w[0]] + w1 =~= w);
    }
}

/// Marker replacement leaves a string without the marker as it is, and turns the
/// first marker after such a string into one space, going on after it.
pub proof fn law_replace_markers(a: Seq<char>, b: Seq<char>)
    requires
        !has_marker(a),
    ensures
        replace_markers(a) == a,
        replace_markers(a + end_marker() + b) == a + seq![' '] + replace_markers(b),
{
    lemma_replace_unmarked(a);
    lemma_replace_marked(a, b);
}

/// With no marker inside its words, marker replacement turns each marked word
/// into the word followed by a space.
proof fn lemma_replace_marked_words(ws: Seq<Seq<char>>)
    requires
        forall|i: int| 0 <= i < ws.len() ==> !has_marker(#[trigger] ws[i]),
    ensures
        replace_markers(ws.map_values(|w: Seq<char>| marked(w)).flatten()) == ws.map_values(
            |w: Seq<char>| spaced(w),
        ).flatten(),
    decreases ws.len(),
{
    let g = |w: Seq<char>| marked(w);
    let h = |w: Seq<char>| spaced(w);
    if ws.len() == 0 {
        assert(ws.map_values(g) =~= Seq::<Seq<char>>::empty());
        assert(ws.map_values(h) =~= Seq::<Seq<char>>::empty());
    } else {
        let rest = ws.drop_first();
        assert forall|i: int| 0 <= i < rest.len() implies !has_marker(#[trigger] rest[i]) by {
            assert(rest[i] == ws[i + 1]);
        }
        lemma_replace_marked_words(rest);
        assert(ws.map_values(g) =~= seq![g(ws[0])] + rest.map_values(g));
        assert(ws.map_values(h) =~= seq![h(ws[0])] + rest.map_values(h));
        lemma_flatten_cons(g(ws[0]), rest.map_values(g));
        lemma_flatten_cons(h(ws[0]), rest.map_values(h));
        lemma_replace_marked(ws[0], rest.map_values(g).flatten());
        assert(g(ws[0]) + rest.map_values(g).flatten() =~= ws[0] + end_marker() + rest.map_values(
            g,
        ).flatten());
        assert(h(ws[0]) + rest.map_values(h).flatten() =~= ws[0] + seq![' '] + rest.map_values(
            h,
        ).flatten());
    }
}

/// Words, each followed by a space, make the words joined by spaces and one more space.
proof fn lemma_spaced_words(ws: Seq<Seq<char>>)
    requires
        ws.len() > 0,
    ensures
        ws.map_values(|w: Seq<char>| spaced(w)).flatten() == join_words(ws) + seq![' '],
    decreases ws.len(),
{
    let h = |w: Seq<char>| spaced(w);
    let ws0 = ws.drop_last();
    assert(ws.map_values(h) =~= ws0.map_values(h).push(h(ws.last())));
    ws0.map_values(h).lemma_flatten_push(h(ws.last()));
    if ws.len() == 1 {
        assert(ws0.map_values(h) =~= Seq::<Seq<char>>::empty());
        assert(ws.last() == ws[0]);
        assert(Seq::<char>::empty() + h(ws[0]) =~= ws[0] + seq![' ']);
    } else {
        lemma_spaced_words(ws0);
        assert(join_words(ws0) + seq![' '] + h(ws.last()) =~= join_words(ws0) + seq![' '] + ws.last()
            + seq![' ']);
    }
}

/// The joined words begin with the first character of the first word and end with
/// the last character of the last word.
proof fn lemma_join_ends(ws: Seq<Seq<char>>)
    requires
        ws.len() > 0,
        forall|i: int| 0 <= i < ws.len() ==> (#[trigger] ws[i]).len() > 0,
    ensures
        join_words(ws).len() > 0,
        join_words(ws)[0] == ws[0][0],
        join_words(ws).last() == ws.last().last(),
    decreases ws.len(),
{
    if ws.len() > 1 {
        let ws0 = ws.drop_last();
        assert forall|i: int| 0 <= i < ws0.len() implies (#[trigger] ws0[i]).len() > 0 by {
            assert(ws0[i] == ws[i]);
        }
        lemma_join_ends(ws0);
        assert(ws0[0] == ws[0]);
        assert(ws.last().len() > 0) by {
            assert(ws[ws.len() - 1] == ws.last());
        }
    }
}

/// Whether `w` occurs in `s` as a contiguous run.
spec fn occurs_in(w: Seq<char>, s: Seq<char>) -> bool {
    exists|a: int| 0 <= a && a + w.len() <= s.len() && #[trigger] s.subrange(a, a + w.len()) == w
}

/// A run of `s` without its last character is a run of `s`.
proof fn lemma_occurs_in_extended(w: Seq<char>, s: Seq<char>)
    requires
        s.len() > 0,
        occurs_in(w, s.drop_last()),
    ensures
        occurs_in(w, s),
{
    let d = s.drop_last();
    let a = choose|a: int| 0 <= a && a + w.len() <= d.len() && #[trigger] d.subrange(a, a + w.len()) == w;
    assert(s.subrange(a, a + w.len()) =~= d.subrange(a, a + w.len()));
}

/// Every closed word of the scan is a run of `s`, and the word still being read
/// ends `s`.
proof fn lemma_split_ws_runs(s: Seq<char>)
    ensures
        forall|k: int| 0 <= k < split_ws(s).0.len() ==> occurs_in(#[trigger] split_ws(s).0[k], s),
        split_ws(s).1.len() <= s.len(),
        s.subrange(s.len() - split_ws(s).1.len(), s.len() as int) == split_ws(s).1,
    decreases s.len(),
{
    if s.len() == 0 {
        assert(s.subrange(0, 0) =~= Seq::<char>::empty());
    } else {
        let d = s.drop_last();
        lemma_split_ws_runs(d);
        let (ws0, cur0) = split_ws(d);
        let (ws, cur) = split_ws(s);
        let c = s.last();
        assert forall|k: int| 0 <= k < ws0.len() implies occurs_in(#[trigger] ws0[k], s) by {
            lemma_occurs_in_extended(ws0[k], s);
        }
        if is_ws(c) {
            if cur0.len() > 0 {
                let a = d.len() - cur0.len();
                assert(d.subrange(a, a + cur0.len()) == cur0);
                assert(occurs_in(cur0, d));
                lemma_occurs_in_extended(cur0, s);
                assert forall|k: int| 0 <= k < ws.len() implies occurs_in(#[trigger] ws[k], s) by {
                    if k < ws0.len() {
                        assert(ws[k] == ws0[k]);
                    } else {
                        assert(ws[k] == cur0);
                    }
                }
            }
            assert(s.subrange(s.len() as int, s.len() as int) =~= Seq::<char>::empty());
        } else {
            let a = d.len() - cur0.len();
            assert(s.subrange(a, s.len() as int) =~= d.subrange(a, d.len() as int).push(c));
        }
    }
}

/// Every word of `s` is a run of `s`.
proof fn lemma_words_runs(s: Seq<char>)
    ensures
        forall|k: int| 0 <= k < words(s).len() ==> occurs_in(#[trigger] words(s)[k], s),
{
    lemma_split_ws_runs(s);
    let (ws, cur) = split_ws(s);
    assert forall|k: int| 0 <= k < words(s).len() implies occurs_in(#[trigger] words(s)[k], s) by {
        if k < ws.len() {
            assert(words(s)[k] == ws[k]);
        } else {
            assert(words(s)[k] == cur);
            let a = s.len() - cur.len();
            assert(s.subrange(a, a + cur.len()) == cur);
        }
    }
}

/// A marker inside a run of `s` is a marker inside `s`.
proof fn lemma_marker_in_run(w: Seq<char>, s: Seq<char>)
    requires
        occurs_in(w, s),
        has_marker(w),
    ensures
        has_marker(s),
{
    let a = choose|a: int| 0 <= a && a + w.len() <= s.len() && #[trigger] s.subrange(a, a + w.len()) == w;
    let i = choose|i: int| 0 <= i < w.len() && #[trigger] starts_with_marker(w.skip(i));
    assert(w.skip(i).take(4) =~= s.skip(a + i).take(4)) by {
        assert forall|j: int| 0 <= j < 4 implies w.skip(i).take(4)[j] == s.skip(a + i).take(4)[j] by {
            assert(w[i + j] == s.subrange(a, a + w.len())[i + j]);
        }
    }
    assert(starts_with_marker(s.skip(a + i)));
}

/// A text without the end-of-word marker has no word that holds it.
pub proof fn lemma_words_unmarked(text: Seq<char>)
    requires
        !has_marker(text),
    ensures
        forall|k: int| 0 <= k < words(text).len() ==> !has_marker(#[trigger] words(text)[k]),
{
    lemma_words_runs(text);
    assert forall|k: int| 0 <= k < words(text).len() implies !has_marker(#[trigger] words(text)[k]) by {
        if has_marker(words(text)[k]) {
            lemma_marker_in_run(words(text)[k], text);
        }
    }
}

/// Decoding the tokens of a text that holds no end-of-word marker gives its words
/// joined by single spaces, whatever the merges are; a text that is already its
/// words joined by single spaces comes back unchanged.
pub proof fn law_decode_encode(pairs: Seq<PairV>, text: Seq<char>)
    requires
        !has_marker(text),
    ensures
        decode_tokens(encode_text(pairs, text)) == join_words(words(text)),
        text == join_words(words(text)) ==> decode_tokens(encode_text(pairs, text)) == text,
{
    lemma_words_unmarked(text);
    let ws = words(text);
    law_encode_spells_words(pairs, text);
    lemma_replace_marked_words(ws);
    lemma_words_chars(text);
    if ws.len() == 0 {
        assert(ws.map_values(|w: Seq<char>| spaced(w)) =~= Seq::<Seq<char>>::empty());
        assert(trim_start(Seq::<char>::empty()) == Seq::<char>::empty());
        assert(trim_end(Seq::<char>::empty()) == Seq::<char>::empty());
    } else {
        lemma_spaced_words(ws);
        lemma_join_ends(ws);
        let j = join_words(ws);
        let s = j + seq![' '];
        assert(!is_ws(ws[0][0]));
        let last = ws[ws.len() - 1];
        assert(last == ws.last());
        assert(!is_ws(last[last.len() - 1]));
        assert(s[0] == j[0]);
        assert(trim_start(s) == s);
        assert(s.drop_last() =~= j);
        assert(is_ws(s.last()));
        assert(trim_end(s) == trim_end(j));
        assert(trim_end(j) == j);
    }
}

/// Merges apply one after the other: none leave the tokens as they are, one
/// replaces its pair, and `ms1 + ms2` applies `ms1` and then `ms2`.
pub proof fn law_apply_merges(ts: Seq<Seq<char>>, ms1: Seq<PairV>, ms2: Seq<PairV>, p: PairV)
    ensures
        apply_merges(ts, Seq::empty()) == ts,
        apply_merges(ts, seq![p]) == replace_pair_in(ts, p),
        apply_merges(ts, ms1 + ms2) == apply_merges(apply_merges(ts, ms1), ms2),
    decreases ms2.len(),
{
    assert(seq![p].drop_last() =~= Seq::<PairV>::empty());
    assert(apply_merges(ts, seq![p].drop_last()) == ts);
    assert(seq![p].last() == p);
    if ms2.len() == 0 {
        assert(ms1 + ms2 =~= ms1);
    } else {
        assert((ms1 + ms2).drop_last() =~= ms1 + ms2.drop_last());
        assert((ms1 + ms2).last() == ms2.last());
        law_apply_merges(ts, ms1, ms2.drop_last(), p);
    }
}

/// Encoding a text encodes its words apart: a non-empty run without whitespace is
/// encoded as one word, and around a whitespace character the tokens of the text
/// before it are followed by those of the text after it.
pub proof fn law_encode_text(pairs: Seq<PairV>, a: Seq<char>, c: char, b: Seq<char>)
    ensures
        a.len() > 0 && (forall|j: int| 0 <= j < a.len() ==> !is_ws(#[trigger] a[j])) ==> encode_text(pairs, a)
            == encode_word(pairs, a),
        is_ws(c) ==> encode_text(pairs, a + seq![c] + b) == encode_text(pairs, a) + encode_text(pairs, b),
{
    let f = |w: Seq<char>| encode_word(pairs, w);
    crate::text::law_words(a, c, b);
    if a.len() > 0 && (forall|j: int| 0 <= j < a.len() ==> !is_ws(#[trigger] a[j])) {
        assert(words(a).map_values(f) =~= seq![f(a)]);
        seq![f(a)].lemma_flatten_one_element();
    }
    if is_ws(c) {
        assert((words(a) + words(b)).map_values(f) =~= words(a).map_values(f) + words(b).map_values(f));
        vstd::seq_lib::lemma_flatten_concat(words(a).map_values(f), words(b).map_values(f));
    }
}

} // verus!
