use vstd::prelude::*;

use crate::error::{TokenizerError, TokenizerResult};
use crate::text::{chars_of, decimal, digits, decimal_of, lines, seqs, split_at_char, split_lines, split_on, string_of};
use crate::token::Token;
use crate::training::vocab_add_all;
use crate::vocabulary::Vocabulary;

verus! {

/// The csv line of the token `t` with index `i`: the token, a comma, the index in
/// decimal, a line feed.
pub open spec fn csv_line(t: Seq<char>, i: nat) -> Seq<char> {
    t + seq![','] + decimal(i) + seq!['\n']
}

/// The csv lines of a vocabulary, one per token, by index.
pub open spec fn csv_lines(v: Seq<Seq<char>>) -> Seq<Seq<char>> {
    Seq::new(v.len(), |i: int| csv_line(v[i], i as nat))
}

/// The csv text of a vocabulary.
pub open spec fn csv_text(v: Seq<Seq<char>>) -> Seq<char> {
    csv_lines(v).flatten()
}

/// Whether a csv line has exactly two fields.
pub open spec fn csv_ok(l: Seq<char>) -> bool {
    split_on(l, ',').len() == 2
}

/// The tokens named by csv lines: the first field of each.
pub open spec fn csv_names(ls: Seq<Seq<char>>) -> Seq<Seq<char>> {
    ls.map_values(|l: Seq<char>| split_on(l, ',')[0])
}

/// Where and how a vocabulary is stored.
#[derive(Debug)]
pub struct Storage {
    path: String,
    format: String,
}

impl Clone for Storage {
    fn clone(&self) -> (s: Storage)
        ensures
            s.path_view() == self.path_view(),
            s.format_view() == self.format_view(),
    {
        Storage { path: self.path.clone(), format: self.format.clone() }
    }
}

impl Storage {
    /// The path of the stored vocabulary.
    pub closed spec fn path_view(&self) -> Seq<char> {
        self.path@
    }

    /// The storage format.
    pub closed spec fn format_view(&self) -> Seq<char> {
        self.format@
    }

    /// A storage at `path` in the format `format`.
    pub fn new(path: String, format: String) -> (s: Storage)
        ensures
            s.path_view() == path@,
            s.format_view() == format@,
    {
        Storage { path, format }
    }

    /// The path of the stored vocabulary.
    pub fn path(&self) -> (p: &str)
        ensures
            p@ == self.path_view(),
    {
        self.path.as_str()
    }

    /// The storage format.
    pub fn format(&self) -> (f: &str)
        ensures
            f@ == self.format_view(),
    {
        self.format.as_str()
    }

    /// The csv text of `vocabulary`: for each token, by index, the token, a comma,
    /// its index and a line feed.
    pub fn csv_text(vocabulary: &Vocabulary) -> (s: String)
        ensures
            s@ == csv_text(vocabulary@),
    {
        let ghost v = vocabulary@;
        let ghost ls = csv_lines(v);
        let mut out: Vec<char> = Vec::new();
        let n = vocabulary.get_size();
        assert(ls.take(0) =~= Seq::<Seq<char>>::empty());
        for i in 0..n
            invariant
                n == v.len(),
                v == vocabulary@,
                ls == csv_lines(v),
                out@ == ls.take(i as int).flatten(),
        {
            let found = vocabulary.get_token(i);
            let ghost before = out@;
            match found {
                Some(token) => {
                    let mut cs = token.chars();
                    out.append(&mut cs);
                },
                None => {},
            }
            out.push(',');
            let mut num = decimal_of(i);
            out.append(&mut num);
            out.push('\n');
            assert(out@ =~= before + ls[i as int]);
            assert(ls.take(i + 1) =~= ls.take(i as int).push(ls[i as int]));
            proof {
                ls.take(i as int).lemma_flatten_push(ls[i as int]);
            }
        }
        assert(ls.take(n as int) =~= ls);
        string_of(&out)
    }

    /// The vocabulary that csv `text` describes: for each line in order, the token
    /// before its comma is added. A line that does not hold exactly one comma is an
    /// error that names it; the index after the comma is not read.
    pub fn parse_csv(text: &str) -> (r: TokenizerResult<Vocabulary>)
        ensures
            r is Ok <==> forall|i: int| 0 <= i < lines(text@).len() ==> csv_ok(#[trigger] lines(text@)[i]),
            r matches Ok(v) ==> v.wf() && v@ == vocab_add_all(Seq::empty(), csv_names(lines(text@))),
            r matches Err(e) ==> exists|i: int|
                0 <= i < lines(text@).len() && !csv_ok(#[trigger] lines(text@)[i]) && (forall|j: int|
                    0 <= j < i ==> csv_ok(#[trigger] lines(text@)[j])) && (e matches TokenizerError::InvalidToken(m) && m@ == lines(text@)[i]),
    {
        let chars = chars_of(text);
        let ls = split_lines(&chars);
        let ghost lv = lines(text@);
        let mut vocabulary = Vocabulary::new();
        let n = ls.len();
        assert(csv_names(lv.take(0)) =~= Seq::<Seq<char>>::empty());
        for i in 0..n
            invariant
                n == ls@.len() == lv.len(),
                seqs(ls@) == lv,
                lv == lines(text@),
                forall|j: int| 0 <= j < i ==> csv_ok(#[trigger] lv[j]),
                vocabulary.wf(),
                vocabulary@ == vocab_add_all(Seq::empty(), csv_names(lv.take(i as int))),
        {
            assert(ls@[i as int]@ == lv[i as int]);
            let parts = split_at_char(&ls[i], ',');
            if parts.len() == 2 {
                let token = Token::from_chars(&parts[0]);
                assert(seqs(parts@)[0] == parts@[0]@);
                vocabulary.add(token);
                assert(csv_names(lv.take(i + 1)) =~= csv_names(lv.take(i as int)).push(split_on(lv[i as int], ',')[0]));
                assert(csv_names(lv.take(i + 1)).drop_last() =~= csv_names(lv.take(i as int)));
            } else {
                return Err(TokenizerError::InvalidToken(string_of(&ls[i])));
            }
        }
        assert(lv.take(n as int) =~= lv);
        Ok(vocabulary)
    }
}

} // verus!

verus! {

proof fn lemma_decimal_digits(n: nat)
    ensures
        decimal(n).len() >= 1,
        forall|j: int| 0 <= j < decimal(n).len() ==> '0' <= #[trigger] decimal(n)[j] <= '9',
    decreases n,
{
    if n >= 10 {
        lemma_decimal_digits(n / 10);
        let d = decimal(n / 10);
        assert forall|j: int| 0 <= j < decimal(n).len() implies '0' <= #[trigger] decimal(n)[j] <= '9' by {
            if j < d.len() {
                assert(decimal(n)[j] == d[j]);
            }
        }
    }
}

/// Splitting `s` followed by text without the separator extends the last piece.
proof fn lemma_split_on_extend(s: Seq<char>, x: Seq<char>, sep: char)
    requires
        !x.contains(sep),
    ensures
        split_on(s + x, sep) == split_on(s, sep).update(
            split_on(s, sep).len() - 1,
            split_on(s, sep).last() + x,
        ),
    decreases x.len(),
{
    crate::text::lemma_split_on_nonempty(s, sep);
    if x.len() == 0 {
        assert(s + x =~= s);
        assert(split_on(s, sep).last() + x =~= split_on(s, sep).last());
        assert(split_on(s, sep).update(split_on(s, sep).len() - 1, split_on(s, sep).last())
            =~= split_on(s, sep));
    } else {
        let x0 = x.drop_last();
        assert(!x0.contains(sep)) by {
            if x0.contains(sep) {
                let i = choose|i: int| 0 <= i < x0.len() && x0[i] == sep;
                assert(x[i] == sep);
            }
        }
        lemma_split_on_extend(s, x0, sep);
        assert((s + x).drop_last() =~= s + x0);
        assert((s + x).last() == x.last());
        assert(x[x.len() - 1] == x.last());
        crate::text::lemma_split_on_nonempty(s + x0, sep);
        let p = split_on(s, sep);
        let q = split_on(s + x0, sep);
        assert(x.last() != sep);
        assert(q == p.update(p.len() - 1, p.last() + x0));
        assert(q.len() == p.len());
        assert(q.last() == p.last() + x0);
        assert(split_on(s + x, sep) == q.update(q.len() - 1, q.last().push(x.last())));
        assert((p.last() + x0).push(x.last()) =~= p.last() + x);
        assert(split_on(s + x, sep) =~= p.update(p.len() - 1, p.last() + x));
    }
}

proof fn lemma_split_on_sep(s: Seq<char>, sep: char)
    ensures
        split_on(s + seq![sep], sep) == split_on(s, sep).push(Seq::empty()),
{
    assert((s + seq![sep]).drop_last() =~= s);
}

/// A csv row without its line feed.
spec fn csv_row(t: Seq<char>, i: nat) -> Seq<char> {
    t + seq![','] + decimal(i)
}

/// The rows of the csv text of `v`.
spec fn csv_rows(v: Seq<Seq<char>>) -> Seq<Seq<char>> {
    Seq::new(v.len(), |i: int| csv_row(v[i], i as nat))
}

proof fn lemma_csv_split(v: Seq<Seq<char>>)
    requires
        forall|i: int| 0 <= i < v.len() ==> !(#[trigger] v[i]).contains('\n') && !v[i].contains(','),
    ensures
        split_on(csv_text(v), '\n') == csv_rows(v).push(Seq::empty()),
        forall|i: int| 0 <= i < v.len() ==> split_on(#[trigger] csv_rows(v)[i], ',') == seq![v[i], decimal(i as nat)],
    decreases v.len(),
{
    if v.len() == 0 {
        assert(csv_lines(v) =~= Seq::<Seq<char>>::empty());
        assert(csv_text(v) =~= Seq::<char>::empty());
        assert(csv_rows(v).push(Seq::empty()) =~= seq![Seq::<char>::empty()]);
    } else {
        let v0 = v.drop_last();
        let k = v0.len() as int;
        assert forall|i: int| 0 <= i < v0.len() implies !(#[trigger] v0[i]).contains('\n') && !v0[i].contains(',') by {
            assert(v0[i] == v[i]);
        }
        lemma_csv_split(v0);
        assert(csv_lines(v) =~= csv_lines(v0).push(csv_line(v[k], k as nat)));
        csv_lines(v0).lemma_flatten_push(csv_line(v[k], k as nat));
        lemma_decimal_digits(k as nat);
        let t = v[k];
        let dec = decimal(k as nat);
        let row = csv_row(t, k as nat);
        assert(!dec.contains('\n') && !dec.contains(',')) by {
            if dec.contains('\n') || dec.contains(',') {
                let j = choose|j: int| 0 <= j < dec.len() && (dec[j] == '\n' || dec[j] == ',');
                assert('0' <= dec[j] <= '9');
            }
        }
        assert(!row.contains('\n')) by {
            if row.contains('\n') {
                let j = choose|j: int| 0 <= j < row.len() && row[j] == '\n';
                if j < t.len() {
                    assert(t[j] == '\n');
                } else if j > t.len() {
                    assert(dec[j - t.len() - 1] == '\n');
                }
            }
        }
        let prev = csv_text(v0);
        assert(csv_text(v) =~= prev + row + seq!['\n']);
        lemma_split_on_extend(prev, row, '\n');
        lemma_split_on_sep(prev + row, '\n');
        assert(csv_rows(v) =~= csv_rows(v0).push(row));
        assert(Seq::<char>::empty() + row =~= row);
        // the fields of the new row
        lemma_split_on_extend(Seq::empty(), t, ',');
        assert(Seq::<char>::empty() + t =~= t);
        assert(split_on(Seq::<char>::empty(), ',') =~= seq![Seq::<char>::empty()]);
        assert(split_on(t, ',') =~= seq![t]);
        lemma_split_on_sep(t, ',');
        lemma_split_on_extend(t + seq![','], dec, ',');
        assert(split_on(row, ',') =~= seq![t, dec]);
        assert forall|i: int| 0 <= i < v.len() implies split_on(#[trigger] csv_rows(v)[i], ',') == seq![v[i], decimal(i as nat)] by {
            if i < k {
                assert(csv_rows(v)[i] == csv_rows(v0)[i]);
                assert(v0[i] == v[i]);
            }
        }
    }
}

proof fn lemma_add_all_distinct(v: Seq<Seq<char>>)
    requires
        v.no_duplicates(),
    ensures
        vocab_add_all(Seq::empty(), v) == v,
    decreases v.len(),
{
    if v.len() > 0 {
        let v0 = v.drop_last();
        lemma_add_all_distinct(v0);
        assert(!v0.contains(v.last())) by {
            if v0.contains(v.last()) {
                let j = choose|j: int| 0 <= j < v0.len() && v0[j] == v.last();
                assert(v[j] == v[v.len() - 1]);
            }
        }
        assert(v0.push(v.last()) =~= v);
    }
}

/// Reading back the csv text of a vocabulary gives the same vocabulary, provided
/// that no token holds a comma or a line feed.
pub proof fn law_csv_round_trip(v: Seq<Seq<char>>)
    requires
        v.no_duplicates(),
        forall|i: int| 0 <= i < v.len() ==> !(#[trigger] v[i]).contains('\n') && !v[i].contains(','),
    ensures
        forall|i: int| 0 <= i < lines(csv_text(v)).len() ==> csv_ok(#[trigger] lines(csv_text(v))[i]),
        vocab_add_all(Seq::empty(), csv_names(lines(csv_text(v)))) == v,
{
    lemma_csv_split(v);
    let rows = csv_rows(v);
    let parts = split_on(csv_text(v), '\n');
    assert(parts.drop_last() =~= rows);
    assert(parts.last() == Seq::<char>::empty());
    assert forall|i: int| 0 <= i < rows.len() implies crate::text::strip_cr(#[trigger] rows[i]) == rows[i] by {
        lemma_decimal_digits(i as nat);
        let dec = decimal(i as nat);
        assert(rows[i].last() == dec[dec.len() - 1]);
    }
    assert(lines(csv_text(v)) =~= rows);
    assert(csv_names(rows) =~= v) by {
        assert forall|i: int| 0 <= i < v.len() implies csv_names(rows)[i] == v[i] by {
            assert(split_on(rows[i], ',') == seq![v[i], decimal(i as nat)]);
        }
    }
    lemma_add_all_distinct(v);
}

/// How many times `c` occurs in `s`.
pub open spec fn count_char(s: Seq<char>, c: char) -> nat
    decreases s.len(),
{
    if s.len() == 0 {
        0
    } else {
        count_char(s.drop_last(), c) + (if s.last() == c {
            1nat
        } else {
            0nat
        })
    }
}

/// The value of a string of decimal digits.
pub open spec fn digits_value(s: Seq<char>) -> int
    decreases s.len(),
{
    if s.len() == 0 {
        0
    } else {
        digits_value(s.drop_last()) * 10 + ((s.last() as int) - ('0' as int))
    }
}

/// Splitting on a character gives one piece more than it occurs.
proof fn lemma_split_on_count(s: Seq<char>, sep: char)
    ensures
        split_on(s, sep).len() == count_char(s, sep) + 1,
    decreases s.len(),
{
    if s.len() > 0 {
        lemma_split_on_count(s.drop_last(), sep);
    }
}

/// The first piece of a split runs up to the first separator.
proof fn lemma_split_on_first(s: Seq<char>, sep: char, k: int)
    requires
        0 <= k < s.len(),
        s[k] == sep,
        forall|j: int| 0 <= j < k ==> s[j] != sep,
    ensures
        split_on(s, sep)[0] == s.take(k),
    decreases s.len(),
{
    let d = s.drop_last();
    if k == s.len() - 1 {
        assert(!d.contains(sep)) by {
            if d.contains(sep) {
                let j = choose|j: int| 0 <= j < d.len() && d[j] == sep;
                assert(s[j] == sep);
            }
        }
        crate::text::law_split_on(d, sep, Seq::empty());
        assert(d =~= s.take(k));
    } else {
        lemma_split_on_first(d, sep, k);
        lemma_split_on_count(d, sep);
        assert(count_char(d, sep) >= 1) by {
            lemma_count_char_at(d, sep, k);
        }
        assert(d.take(k) =~= s.take(k));
    }
}

/// A character that occurs at `k` is counted.
proof fn lemma_count_char_at(s: Seq<char>, c: char, k: int)
    requires
        0 <= k < s.len(),
        s[k] == c,
    ensures
        count_char(s, c) >= 1,
    decreases s.len(),
{
    if k < s.len() - 1 {
        lemma_count_char_at(s.drop_last(), c, k);
    }
}

/// A csv line is accepted exactly when it holds one comma; the token it names is
/// what comes before that comma.
pub proof fn law_csv_line_has_one_comma(ls: Seq<Seq<char>>, i: int, k: int)
    requires
        0 <= i < ls.len(),
    ensures
        csv_ok(ls[i]) <==> count_char(ls[i], ',') == 1,
        csv_ok(ls[i]) && 0 <= k < ls[i].len() && ls[i][k] == ',' ==> csv_names(ls)[i] == ls[i].take(k),
{
    let l = ls[i];
    lemma_split_on_count(l, ',');
    if csv_ok(l) && 0 <= k < l.len() && l[k] == ',' {
        let f = choose|f: int| 0 <= f < l.len() && l[f] == ',' && forall|j: int| 0 <= j < f ==> l[j] != ',';
        assert(exists|f: int| 0 <= f < l.len() && l[f] == ',' && forall|j: int| 0 <= j < f ==> l[j] != ',') by {
            lemma_first_occurrence(l, ',', k);
        }
        lemma_split_on_first(l, ',', f);
        if f != k {
            lemma_two_counted(l, ',', f, k);
        }
    }
}

/// Some occurrence of `c` comes first.
proof fn lemma_first_occurrence(s: Seq<char>, c: char, k: int)
    requires
        0 <= k < s.len(),
        s[k] == c,
    ensures
        exists|f: int| 0 <= f < s.len() && s[f] == c && forall|j: int| 0 <= j < f ==> s[j] != c,
    decreases k,
{
    if exists|j: int| 0 <= j < k && s[j] == c {
        let j = choose|j: int| 0 <= j < k && s[j] == c;
        lemma_first_occurrence(s, c, j);
    } else {
        assert(forall|j: int| 0 <= j < k ==> s[j] != c);
    }
}

/// Two occurrences are counted twice.
proof fn lemma_two_counted(s: Seq<char>, c: char, a: int, b: int)
    requires
        0 <= a < s.len(),
        0 <= b < s.len(),
        a != b,
        s[a] == c,
        s[b] == c,
    ensures
        count_char(s, c) >= 2,
    decreases s.len(),
{
    let n = s.len() - 1;
    if a == n {
        lemma_count_char_at(s.drop_last(), c, b);
    } else if b == n {
        lemma_count_char_at(s.drop_last(), c, a);
    } else {
        lemma_two_counted(s.drop_last(), c, a, b);
    }
}

/// The csv text of no tokens is empty, and adding a token adds its line at the end:
/// the token, a comma, its index in decimal and a line feed.
pub proof fn law_csv_text_push(v: Seq<Seq<char>>, t: Seq<char>)
    ensures
        csv_text(Seq::empty()) == Seq::<char>::empty(),
        csv_text(v.push(t)) == csv_text(v) + t + seq![','] + decimal(v.len()) + seq!['\n'],
{
    assert(csv_lines(Seq::empty()) =~= Seq::<Seq<char>>::empty());
    assert(csv_lines(v.push(t)) =~= csv_lines(v).push(t + seq![','] + decimal(v.len()) + seq!['\n']));
    csv_lines(v).lemma_flatten_push(t + seq![','] + decimal(v.len()) + seq!['\n']);
    assert(csv_text(v) + (t + seq![','] + decimal(v.len()) + seq!['\n']) =~= csv_text(v) + t + seq![',']
        + decimal(v.len()) + seq!['\n']);
}

/// Each digit's character code is `'0'`'s plus its value.
proof fn lemma_digit_values()
    ensures
        forall|k: int| 0 <= k < 10 ==> (#[trigger] digits()[k] as int) - ('0' as int) == k,
{
    assert forall|k: int| 0 <= k < 10 implies (#[trigger] digits()[k] as int) - ('0' as int) == k by {
        if k == 0 { assert(digits()[k] == '0'); }
        else if k == 1 { assert(digits()[k] == '1'); }
        else if k == 2 { assert(digits()[k] == '2'); }
        else if k == 3 { assert(digits()[k] == '3'); }
        else if k == 4 { assert(digits()[k] == '4'); }
        else if k == 5 { assert(digits()[k] == '5'); }
        else if k == 6 { assert(digits()[k] == '6'); }
        else if k == 7 { assert(digits()[k] == '7'); }
        else if k == 8 { assert(digits()[k] == '8'); }
        else { assert(digits()[k] == '9'); }
    }
}

/// The decimal numeral of `n` is made of digits, starts with a zero only when it is
/// "0", and reads back as `n`.
pub proof fn law_decimal_value(n: nat)
    ensures
        decimal(n).len() >= 1,
        forall|j: int| 0 <= j < decimal(n).len() ==> '0' <= #[trigger] decimal(n)[j] <= '9',
        n > 0 ==> decimal(n)[0] != '0',
        digits_value(decimal(n)) == n,
    decreases n,
{
    lemma_decimal_digits(n);
    lemma_digit_values();
    let last = decimal(n).last();
    assert(last == digits()[(n % 10) as int]);
    assert(decimal(n).drop_last().len() == 0 ==> digits_value(decimal(n).drop_last()) == 0);
    if n >= 10 {
        law_decimal_value(n / 10);
        let d = decimal(n / 10);
        assert(decimal(n).drop_last() =~= d);
        assert(decimal(n)[0] == d[0]);
    }
}

} // verus!
