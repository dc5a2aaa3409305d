use vstd::prelude::*;

verus! {

/// Appends `c` to `s` by `String::push`, whose contract here claims that the
/// characters of `s` afterwards are the old ones followed by `c`.
#[verifier::external_body]
pub(crate) fn push_char(s: &mut String, c: char)
    ensures
        final(s)@ == old(s)@.push(c),
{
    s.push(c);
}

/// The characters of `s`, in order.
pub fn chars_of(s: &str) -> (v: Vec<char>)
    ensures
        v@ == s@,
{
    let mut v: Vec<char> = Vec::new();
    for c in it: s.chars()
        invariant
            v@ == it.seq().take(it.index() as int),
            it.seq() == s@,
    {
        v.push(c);
    }
    v
}

/// A string made of the characters of `v`, in order.
pub fn string_of(v: &Vec<char>) -> (s: String)
    ensures
        s@ == v@,
{
    let mut s = String::new();
    let n = v.len();
    for i in 0..n
        invariant
            n == v@.len(),
            s@ == v@.take(i as int),
    {
        push_char(&mut s, v[i]);
        assert(v@.take(i + 1) =~= v@.take(i as int).push(v@[i as int]));
    }
    assert(v@.take(n as int) =~= v@);
    s
}

} // verus!

verus! {

/// Unicode's White_Space property, which is what `char::is_whitespace` tests.
pub open spec fn is_ws(c: char) -> bool {
    ||| ('\u{9}' <= c && c <= '\u{d}')
    ||| c == ' '
    ||| c == '\u{85}'
    ||| c == '\u{a0}'
    ||| c == '\u{1680}'
    ||| ('\u{2000}' <= c && c <= '\u{200a}')
    ||| c == '\u{2028}'
    ||| c == '\u{2029}'
    ||| c == '\u{202f}'
    ||| c == '\u{205f}'
    ||| c == '\u{3000}'
}

/// Whether `c` is a whitespace character.
pub fn is_whitespace(c: char) -> (b: bool)
    ensures
        b == is_ws(c),
{
    ('\u{9}' <= c && c <= '\u{d}') || c == ' ' || c == '\u{85}' || c == '\u{a0}' || c
        == '\u{1680}' || ('\u{2000}' <= c && c <= '\u{200a}') || c == '\u{2028}' || c
        == '\u{2029}' || c == '\u{202f}' || c == '\u{205f}' || c == '\u{3000}'
}

/// The character sequences held by a sequence of character vectors.
pub open spec fn seqs(v: Seq<Vec<char>>) -> Seq<Seq<char>> {
    v.map_values(|w: Vec<char>| w@)
}

/// Scanning `s` from the left: the words already closed by a whitespace character,
/// and the word still being read.
pub open spec fn split_ws(s: Seq<char>) -> (Seq<Seq<char>>, Seq<char>)
    decreases s.len(),
{
    if s.len() == 0 {
        (Seq::empty(), Seq::empty())
    } else {
        let (ws, cur) = split_ws(s.drop_last());
        let c = s.last();
        if is_ws(c) {
            if cur.len() > 0 {
                (ws.push(cur), Seq::empty())
            } else {
                (ws, Seq::empty())
            }
        } else {
            (ws, cur.push(c))
        }
    }
}

/// The maximal runs of non-whitespace characters of `s`, in order
/// (what `str::split_whitespace` yields).
pub open spec fn words(s: Seq<char>) -> Seq<Seq<char>> {
    let (ws, cur) = split_ws(s);
    if cur.len() > 0 {
        ws.push(cur)
    } else {
        ws
    }
}

/// Scanning past a whitespace character closes the words before it.
proof fn lemma_split_ws_after_space(a: Seq<char>, c: char, b: Seq<char>)
    requires
        is_ws(c),
    ensures
        split_ws(a + seq![c] + b) == (words(a) + split_ws(b).0, split_ws(b).1),
    decreases b.len(),
{
    let s = a + seq![c] + b;
    if b.len() == 0 {
        assert(s =~= a.push(c));
        assert(s.drop_last() =~= a);
        assert(split_ws(b).0 =~= Seq::<Seq<char>>::empty());
        assert(words(a) + Seq::<Seq<char>>::empty() =~= words(a));
    } else {
        let b0 = b.drop_last();
        lemma_split_ws_after_space(a, c, b0);
        assert(s.drop_last() =~= a + seq![c] + b0);
        assert(s.last() == b.last());
        let (ws0, cur0) = split_ws(b0);
        if is_ws(b.last()) && cur0.len() > 0 {
            assert((words(a) + ws0).push(cur0) =~= words(a) + ws0.push(cur0));
        }
    }
}

/// A run of non-whitespace characters is still being read at its end.
proof fn lemma_split_ws_no_space(s: Seq<char>)
    requires
        forall|j: int| 0 <= j < s.len() ==> !is_ws(#[trigger] s[j]),
    ensures
        split_ws(s) == (Seq::<Seq<char>>::empty(), s),
    decreases s.len(),
{
    if s.len() > 0 {
        lemma_split_ws_no_space(s.drop_last());
        assert(s[s.len() - 1] == s.last());
        assert(s.drop_last().push(s.last()) =~= s);
    } else {
        assert(s =~= Seq::<char>::empty());
    }
}

/// The words of a text: none in the empty text, the whole text when it is a
/// non-empty run without whitespace, and, around a whitespace character, the words
/// before it followed by the words after it.
pub proof fn law_words(a: Seq<char>, c: char, b: Seq<char>)
    ensures
        words(Seq::empty()) == Seq::<Seq<char>>::empty(),
        a.len() > 0 && (forall|j: int| 0 <= j < a.len() ==> !is_ws(#[trigger] a[j])) ==> words(a) == seq![a],
        is_ws(c) ==> words(a + seq![c] + b) == words(a) + words(b),
{
    if a.len() > 0 && (forall|j: int| 0 <= j < a.len() ==> !is_ws(#[trigger] a[j])) {
        lemma_split_ws_no_space(a);
        assert(Seq::<Seq<char>>::empty().push(a) =~= seq![a]);
    }
    if is_ws(c) {
        lemma_split_ws_after_space(a, c, b);
        let (ws, cur) = split_ws(b);
        if cur.len() > 0 {
            assert((words(a) + ws).push(cur) =~= words(a) + ws.push(cur));
        }
    }
}

/// Splits `s` into its words.
pub fn split_whitespace(s: &Vec<char>) -> (r: Vec<Vec<char>>)
    ensures
        seqs(r@) == words(s@),
{
    let mut ws: Vec<Vec<char>> = Vec::new();
    let mut cur: Vec<char> = Vec::new();
    let n = s.len();
    for i in 0..n
        invariant
            n == s@.len(),
            (seqs(ws@), cur@) == split_ws(s@.take(i as int)),
    {
        let c = s[i];
        assert(s@.take(i + 1).drop_last() =~= s@.take(i as int));
        if is_whitespace(c) {
            if cur.len() > 0 {
                let ghost old_ws = seqs(ws@);
                ws.push(cur);
                assert(seqs(ws@) =~= old_ws.push(cur@));
                cur = Vec::new();
            }
        } else {
            cur.push(c);
        }
        assert(cur@ =~= split_ws(s@.take(i + 1)).1);
    }
    assert(s@.take(n as int) =~= s@);
    if cur.len() > 0 {
        let ghost old_ws = seqs(ws@);
        ws.push(cur);
        assert(seqs(ws@) =~= old_ws.push(cur@));
    }
    ws
}

} // verus!

verus! {

/// The end-of-word marker that encoding appends to every word.
pub open spec fn end_marker() -> Seq<char> {
    seq!['<', '/', 'w', '>']
}

/// Whether `s` begins with the end-of-word marker.
pub open spec fn starts_with_marker(s: Seq<char>) -> bool {
    s.len() >= 4 && s.take(4) == end_marker()
}

/// `s` with every end-of-word marker, found left to right without overlap,
/// replaced by one space (what `str::replace("</w>", " ")` gives).
pub open spec fn replace_markers(s: Seq<char>) -> Seq<char>
    decreases s.len(),
{
    if s.len() == 0 {
        s
    } else if starts_with_marker(s) {
        seq![' '] + replace_markers(s.skip(4))
    } else {
        seq![s[0]] + replace_markers(s.skip(1))
    }
}

/// Replaces each end-of-word marker of `s` by one space.
pub fn replace_end_markers(s: &Vec<char>) -> (r: Vec<char>)
    ensures
        r@ == replace_markers(s@),
{
    let mut out: Vec<char> = Vec::new();
    let n = s.len();
    let mut i: usize = 0;
    assert(s@.skip(0) =~= s@);
    assert(out@ + replace_markers(s@) =~= replace_markers(s@));
    while i < n
        invariant
            n == s@.len(),
            i <= n,
            out@ + replace_markers(s@.skip(i as int)) == replace_markers(s@),
        decreases n - i,
    {
        let ghost rest = s@.skip(i as int);
        if n - i >= 4 && s[i] == '<' && s[i + 1] == '/' && s[i + 2] == 'w' && s[i + 3] == '>' {
            assert(rest.take(4) =~= end_marker());
            assert(rest.skip(4) =~= s@.skip(i + 4));
            out.push(' ');
            i = i + 4;
        } else {
            assert(!starts_with_marker(rest)) by {
                if rest.len() >= 4 && rest.take(4) == end_marker() {
                    assert(rest.take(4)[0] == '<');
                    assert(rest.take(4)[1] == '/');
                    assert(rest.take(4)[2] == 'w');
                    assert(rest.take(4)[3] == '>');
                }
            }
            assert(rest.skip(1) =~= s@.skip(i + 1));
            out.push(s[i]);
            i = i + 1;
        }
    }
    assert(s@.skip(n as int) =~= Seq::<char>::empty());
    assert(out@ + Seq::<char>::empty() =~= out@);
    out
}

/// `s` without its leading whitespace.
pub open spec fn trim_start(s: Seq<char>) -> Seq<char>
    decreases s.len(),
{
    if s.len() > 0 && is_ws(s[0]) {
        trim_start(s.skip(1))
    } else {
        s
    }
}

/// `s` without its trailing whitespace.
pub open spec fn trim_end(s: Seq<char>) -> Seq<char>
    decreases s.len(),
{
    if s.len() > 0 && is_ws(s.last()) {
        trim_end(s.drop_last())
    } else {
        s
    }
}

/// `s` without leading and trailing whitespace (what `str::trim` gives).
pub open spec fn trim(s: Seq<char>) -> Seq<char> {
    trim_end(trim_start(s))
}

/// Trimming the start drops a run of leading whitespace and stops at the first
/// other character.
proof fn lemma_trim_start_cut(s: Seq<char>) -> (i: int)
    ensures
        0 <= i <= s.len(),
        trim_start(s) == s.skip(i),
        forall|k: int| 0 <= k < i ==> is_ws(#[trigger] s[k]),
        i < s.len() ==> !is_ws(s[i]),
    decreases s.len(),
{
    if s.len() > 0 && is_ws(s[0]) {
        let r = s.skip(1);
        let i0 = lemma_trim_start_cut(r);
        assert(r.skip(i0) =~= s.skip(i0 + 1));
        assert forall|k: int| 0 <= k < i0 + 1 implies is_ws(#[trigger] s[k]) by {
            if k > 0 {
                assert(s[k] == r[k - 1]);
            }
        }
        i0 + 1
    } else {
        assert(s.skip(0) =~= s);
        0
    }
}

/// Trimming the end drops a run of trailing whitespace and stops at the last
/// other character.
proof fn lemma_trim_end_cut(s: Seq<char>) -> (j: int)
    ensures
        0 <= j <= s.len(),
        trim_end(s) == s.take(j),
        forall|k: int| j <= k < s.len() ==> is_ws(#[trigger] s[k]),
        j > 0 ==> !is_ws(s[j - 1]),
    decreases s.len(),
{
    if s.len() > 0 && is_ws(s.last()) {
        let d = s.drop_last();
        let j0 = lemma_trim_end_cut(d);
        assert(d.take(j0) =~= s.take(j0));
        assert forall|k: int| j0 <= k < s.len() implies is_ws(#[trigger] s[k]) by {
            if k < s.len() - 1 {
                assert(s[k] == d[k]);
            }
        }
        j0
    } else {
        assert(s.take(s.len() as int) =~= s);
        s.len() as int
    }
}

/// Trimming keeps a contiguous part of `s` with only whitespace around it, and
/// that part neither begins nor ends with whitespace.
pub proof fn law_trim(s: Seq<char>)
    ensures
        exists|i: int, j: int|
            0 <= i <= j <= s.len() && trim(s) == s.subrange(i, j) && (forall|k: int|
                0 <= k < i ==> is_ws(#[trigger] s[k])) && (forall|k: int| j <= k < s.len() ==> is_ws(#[trigger] s[k])),
        trim(s).len() > 0 ==> !is_ws(trim(s)[0]) && !is_ws(trim(s).last()),
{
    let i = lemma_trim_start_cut(s);
    let r = s.skip(i);
    let j0 = lemma_trim_end_cut(r);
    let j = i + j0;
    assert(r.take(j0) =~= s.subrange(i, j));
    assert forall|k: int| j <= k < s.len() implies is_ws(#[trigger] s[k]) by {
        assert(s[k] == r[k - i]);
    }
    if trim(s).len() > 0 {
        assert(trim(s)[0] == s[i]);
        assert(trim(s).last() == r[j0 - 1]);
    }
    assert(0 <= i <= j <= s.len() && trim(s) == s.subrange(i, j) && (forall|k: int|
        0 <= k < i ==> is_ws(#[trigger] s[k])) && (forall|k: int| j <= k < s.len() ==> is_ws(#[trigger] s[k])));
}

/// Removes the whitespace at both ends of `s`.
pub fn trim_whitespace(s: &Vec<char>) -> (r: Vec<char>)
    ensures
        r@ == trim(s@),
{
    let n = s.len();
    let mut start: usize = 0;
    assert(s@.skip(0) =~= s@);
    while start < n && is_whitespace(s[start])
        invariant
            n == s@.len(),
            start <= n,
            trim_start(s@) == trim_start(s@.skip(start as int)),
        decreases n - start,
    {
        assert(s@.skip(start as int).skip(1) =~= s@.skip(start + 1));
        start = start + 1;
    }
    let ghost t = s@.skip(start as int);
    assert(trim_start(s@) == t);
    let mut end: usize = n;
    while end > start && is_whitespace(s[end - 1])
        invariant
            n == s@.len(),
            start <= end <= n,
            t == s@.skip(start as int),
            trim_end(t) == trim_end(s@.subrange(start as int, end as int)),
        decreases end - start,
    {
        assert(s@.subrange(start as int, end as int).drop_last() =~= s@.subrange(
            start as int,
            end - 1,
        ));
        end = end - 1;
    }
    let mut out: Vec<char> = Vec::new();
    let mut k: usize = start;
    while k < end
        invariant
            start <= k <= end <= n,
            n == s@.len(),
            out@ == s@.subrange(start as int, k as int),
        decreases end - k,
    {
        out.push(s[k]);
        assert(out@ =~= s@.subrange(start as int, k + 1));
        k = k + 1;
    }
    assert(t =~= s@.subrange(start as int, n as int));
    out
}

} // verus!

verus! {

/// The pieces of `s` between occurrences of `sep`, empty pieces included
/// (what `str::split` with a character yields).
pub open spec fn split_on(s: Seq<char>, sep: char) -> Seq<Seq<char>>
    decreases s.len(),
{
    if s.len() == 0 {
        seq![Seq::empty()]
    } else {
        let parts = split_on(s.drop_last(), sep);
        if s.last() == sep {
            parts.push(Seq::empty())
        } else {
            parts.update(parts.len() - 1, parts.last().push(s.last()))
        }
    }
}

pub proof fn lemma_split_on_nonempty(s: Seq<char>, sep: char)
    ensures
        split_on(s, sep).len() >= 1,
    decreases s.len(),
{
    if s.len() > 0 {
        lemma_split_on_nonempty(s.drop_last(), sep);
    }
}

/// Splitting past a separator ends the piece before it and starts a new one.
proof fn lemma_split_on_after_sep(x: Seq<char>, sep: char, y: Seq<char>)
    ensures
        split_on(x + seq![sep] + y, sep) == split_on(x, sep) + split_on(y, sep),
    decreases y.len(),
{
    let s = x + seq![sep] + y;
    if y.len() == 0 {
        assert(s.drop_last() =~= x);
        assert(split_on(y, sep) =~= seq![Seq::<char>::empty()]);
        assert(split_on(x, sep).push(Seq::empty()) =~= split_on(x, sep) + seq![Seq::<char>::empty()]);
    } else {
        let y0 = y.drop_last();
        lemma_split_on_after_sep(x, sep, y0);
        assert(s.drop_last() =~= x + seq![sep] + y0);
        assert(s.last() == y.last());
        lemma_split_on_nonempty(y0, sep);
        lemma_split_on_nonempty(x, sep);
        let px = split_on(x, sep);
        let py = split_on(y0, sep);
        if y.last() == sep {
            assert((px + py).push(Seq::empty()) =~= px + py.push(Seq::empty()));
        } else {
            assert((px + py).update((px + py).len() - 1, (px + py).last().push(y.last())) =~= px
                + py.update(py.len() - 1, py.last().push(y.last())));
        }
    }
}

/// A string without the separator splits into itself alone.
proof fn lemma_split_on_whole(s: Seq<char>, sep: char)
    requires
        !s.contains(sep),
    ensures
        split_on(s, sep) == seq![s],
    decreases s.len(),
{
    if s.len() > 0 {
        let d = s.drop_last();
        assert(!d.contains(sep)) by {
            if d.contains(sep) {
                let j = choose|j: int| 0 <= j < d.len() && d[j] == sep;
                assert(s[j] == sep);
            }
        }
        lemma_split_on_whole(d, sep);
        assert(s[s.len() - 1] == s.last());
        assert(d.push(s.last()) =~= s);
    } else {
        assert(s =~= Seq::<char>::empty());
    }
}

/// Splitting a string without the separator gives the string; around a separator,
/// the pieces before it followed by the pieces after it.
pub proof fn law_split_on(x: Seq<char>, sep: char, y: Seq<char>)
    ensures
        !x.contains(sep) ==> split_on(x, sep) == seq![x],
        split_on(x + seq![sep] + y, sep) == split_on(x, sep) + split_on(y, sep),
{
    if !x.contains(sep) {
        lemma_split_on_whole(x, sep);
    }
    lemma_split_on_after_sep(x, sep, y);
}

/// Splits `s` at every occurrence of `sep`.
pub fn split_at_char(s: &Vec<char>, sep: char) -> (r: Vec<Vec<char>>)
    ensures
        seqs(r@) == split_on(s@, sep),
{
    let mut parts: Vec<Vec<char>> = Vec::new();
    let mut cur: Vec<char> = Vec::new();
    let n = s.len();
    assert(s@.take(0) =~= Seq::<char>::empty());
    for i in 0..n
        invariant
            n == s@.len(),
            seqs(parts@).push(cur@) == split_on(s@.take(i as int), sep),
    {
        let c = s[i];
        let ghost before = s@.take(i as int);
        assert(s@.take(i + 1).drop_last() =~= before);
        proof {
            lemma_split_on_nonempty(before, sep);
        }
        if c == sep {
            let ghost old_parts = seqs(parts@);
            parts.push(cur);
            assert(seqs(parts@) =~= old_parts.push(cur@));
            cur = Vec::new();
            assert(seqs(parts@).push(cur@) =~= split_on(s@.take(i + 1), sep));
        } else {
            cur.push(c);
            assert(seqs(parts@).push(cur@) =~= split_on(s@.take(i + 1), sep));
        }
    }
    assert(s@.take(n as int) =~= s@);
    let ghost old_parts = seqs(parts@);
    parts.push(cur);
    assert(seqs(parts@) =~= old_parts.push(cur@));
    parts
}

/// `l` without one trailing carriage return.
pub open spec fn strip_cr(l: Seq<char>) -> Seq<char> {
    if l.len() > 0 && l.last() == '\r' {
        l.drop_last()
    } else {
        l
    }
}

/// The lines of `s` (what `str::lines` yields): pieces ended by `\n`, each
/// without its `\r\n` or `\n`, and a last piece without line end if it is not empty.
pub open spec fn lines(s: Seq<char>) -> Seq<Seq<char>> {
    let parts = split_on(s, '\n');
    let body = parts.drop_last().map_values(|l: Seq<char>| strip_cr(l));
    if parts.last().len() > 0 {
        body.push(parts.last())
    } else {
        body
    }
}

/// The lines of a text: none in the empty text, the text itself when it is
/// non-empty and holds no line feed, and, for a line `a` ended by a line feed, `a`
/// without a trailing carriage return followed by the lines after it.
pub proof fn law_lines(a: Seq<char>, b: Seq<char>)
    requires
        !a.contains('\n'),
    ensures
        lines(Seq::empty()) == Seq::<Seq<char>>::empty(),
        a.len() > 0 ==> lines(a) == seq![a],
        lines(a + seq!['\n'] + b) == seq![strip_cr(a)] + lines(b),
{
    let e = Seq::<char>::empty();
    assert(split_on(e, '\n') =~= seq![e]);
    assert(split_on(e, '\n').drop_last().map_values(|l: Seq<char>| strip_cr(l)) =~= Seq::<Seq<char>>::empty());
    law_split_on(a, '\n', b);
    assert(seq![a].drop_last().map_values(|l: Seq<char>| strip_cr(l)) =~= Seq::<Seq<char>>::empty());
    let pb = split_on(b, '\n');
    lemma_split_on_nonempty(b, '\n');
    let parts = seq![a] + pb;
    assert(parts.last() == pb.last());
    assert(parts.drop_last() =~= seq![a] + pb.drop_last());
    let f = |l: Seq<char>| strip_cr(l);
    assert(parts.drop_last().map_values(f) =~= seq![strip_cr(a)] + pb.drop_last().map_values(f));
    assert((seq![strip_cr(a)] + pb.drop_last().map_values(f)).push(pb.last()) =~= seq![strip_cr(a)] + pb.drop_last().map_values(f).push(pb.last()));
}

/// Splits `s` into its lines.
pub fn split_lines(s: &Vec<char>) -> (r: Vec<Vec<char>>)
    ensures
        seqs(r@) == lines(s@),
{
    let parts = split_at_char(s, '\n');
    proof {
        lemma_split_on_nonempty(s@, '\n');
    }
    let ghost ps = seqs(parts@);
    let k = parts.len() - 1;
    let mut out: Vec<Vec<char>> = Vec::new();
    for i in 0..k
        invariant
            k == parts@.len() - 1,
            ps == seqs(parts@),
            seqs(out@) == ps.take(i as int).map_values(|l: Seq<char>| strip_cr(l)),
    {
        let part = &parts[i];
        let m = part.len();
        let mut line: Vec<char> = Vec::new();
        let stop = if m > 0 && part[m - 1] == '\r' {
            m - 1
        } else {
            m
        };
        for j in 0..stop
            invariant
                stop <= m == part@.len(),
                line@ == part@.take(j as int),
        {
            line.push(part[j]);
            assert(line@ =~= part@.take(j + 1));
        }
        assert(line@ =~= strip_cr(part@));
        let ghost old_out = seqs(out@);
        out.push(line);
        assert(seqs(out@) =~= old_out.push(strip_cr(ps[i as int])));
        assert(ps.take(i + 1).map_values(|l: Seq<char>| strip_cr(l)) =~= ps.take(
            i as int,
        ).map_values(|l: Seq<char>| strip_cr(l)).push(strip_cr(ps[i as int])));
    }
    assert(ps.take(k as int) =~= ps.drop_last());
    let last = &parts[k];
    if last.len() > 0 {
        let mut copy: Vec<char> = Vec::new();
        let m = last.len();
        for j in 0..m
            invariant
                m == last@.len(),
                copy@ == last@.take(j as int),
        {
            copy.push(last[j]);
            assert(copy@ =~= last@.take(j + 1));
        }
        assert(copy@ =~= last@);
        let ghost old_out = seqs(out@);
        out.push(copy);
        assert(seqs(out@) =~= old_out.push(ps.last()));
    }
    out
}

/// The ten decimal digits.
pub open spec fn digits() -> Seq<char> {
    seq!['0', '1', '2', '3', '4', '5', '6', '7', '8', '9']
}

/// The decimal numeral of `n`, without leading zeros (what `{}` prints for an integer).
pub open spec fn decimal(n: nat) -> Seq<char>
    decreases n,
{
    if n < 10 {
        seq![digits()[n as int]]
    } else {
        decimal(n / 10).push(digits()[(n % 10) as int])
    }
}

fn digit_char(d: usize) -> (c: char)
    requires
        d < 10,
    ensures
        c == digits()[d as int],
{
    if d == 0 {
        '0'
    } else if d == 1 {
        '1'
    } else if d == 2 {
        '2'
    } else if d == 3 {
        '3'
    } else if d == 4 {
        '4'
    } else if d == 5 {
        '5'
    } else if d == 6 {
        '6'
    } else if d == 7 {
        '7'
    } else if d == 8 {
        '8'
    } else {
        '9'
    }
}

/// The decimal numeral of `n`.
pub fn decimal_of(n: usize) -> (r: Vec<char>)
    ensures
        r@ == decimal(n as nat),
    decreases n,
{
    if n < 10 {
        let mut v: Vec<char> = Vec::new();
        v.push(digit_char(n));
        assert(v@ =~= seq![digits()[n as int]]);
        v
    } else {
        let mut v = decimal_of(n / 10);
        v.push(digit_char(n % 10));
        v
    }
}

} // verus!
