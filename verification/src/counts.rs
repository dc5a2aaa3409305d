use vstd::prelude::*;

use crate::token::{Pair, PairV};

verus! {

/// How often each pair occurs: a list of (pair, count) entries, each pair at most once.
pub type CountsV = Seq<(PairV, nat)>;

/// The pairs of the entries, in order.
pub open spec fn keys(c: CountsV) -> Seq<PairV> {
    c.map_values(|e: (PairV, nat)| e.0)
}

/// The counts after `n` more occurrences of `k`: a new entry goes to the end.
pub open spec fn add_count(c: CountsV, k: PairV, n: nat) -> CountsV {
    if keys(c).contains(k) {
        let j = keys(c).index_of(k);
        c.update(j, (k, c[j].1 + n))
    } else {
        c.push((k, n))
    }
}

/// The sum of all counts.
pub open spec fn total(c: CountsV) -> nat
    decreases c.len(),
{
    if c.len() == 0 {
        0
    } else {
        total(c.drop_last()) + c.last().1
    }
}

/// The counts `c` after one more occurrence of each pair of `ks`, in order.
pub open spec fn tally_from(c: CountsV, ks: Seq<PairV>) -> CountsV
    decreases ks.len(),
{
    if ks.len() == 0 {
        c
    } else {
        add_count(tally_from(c, ks.drop_last()), ks.last(), 1)
    }
}

/// How often each pair of `ks` occurs, pairs in order of first occurrence.
pub open spec fn tally(ks: Seq<PairV>) -> CountsV {
    tally_from(Seq::empty(), ks)
}

/// The index of the entry that a scan from the left settles on when it keeps the first
/// entry whose count is greater than every count before it, starting from zero;
/// `-1` when no count is positive.
pub open spec fn best_index(c: CountsV) -> int
    decreases c.len(),
{
    if c.len() == 0 {
        -1
    } else {
        let b = best_index(c.drop_last());
        let best = if b < 0 {
            0
        } else {
            c[b].1
        };
        if c.last().1 > best {
            c.len() - 1
        } else {
            b
        }
    }
}

/// Entry `i` has a positive count, no entry counts more, and every earlier entry
/// counts less.
pub open spec fn most_frequent_at(c: CountsV, i: int) -> bool {
    &&& 0 <= i < c.len()
    &&& c[i].1 > 0
    &&& forall|j: int| 0 <= j < c.len() ==> (#[trigger] c[j]).1 <= c[i].1
    &&& forall|j: int| 0 <= j < i ==> (#[trigger] c[j]).1 < c[i].1
}

/// The most frequent pair (the first one among equals), if any count is positive.
pub open spec fn best_pair(c: CountsV) -> Option<PairV> {
    if exists|i: int| most_frequent_at(c, i) {
        Some(c[choose|i: int| most_frequent_at(c, i)].0)
    } else {
        None
    }
}

/// The text of the token that merging the pair `p` makes.
pub open spec fn merged(p: PairV) -> Seq<char> {
    p.0 + p.1
}

/// One entry of the old counts carried into the new counts after `p` is merged:
/// the entry of `p` goes; a pair with the first token of `p` first becomes the
/// merged token followed by its second token; else a pair with the second token
/// of `p` second becomes its first token followed by the merged token; such
/// any other pair stays as it is. The counts of the old pairs that land on the
/// same new pair add up.
pub open spec fn update_entry(acc: CountsV, e: (PairV, nat), p: PairV) -> CountsV {
    let k = e.0;
    if k == p {
        acc
    } else if k.0 == p.0 {
        add_count(acc, (merged(p), k.1), e.1)
    } else if k.1 == p.1 {
        add_count(acc, (k.0, merged(p)), e.1)
    } else {
        add_count(acc, k, e.1)
    }
}

/// The new counts built from `acc` by carrying the entries of `c`, in order.
pub open spec fn update_from(acc: CountsV, c: CountsV, p: PairV) -> CountsV
    decreases c.len(),
{
    if c.len() == 0 {
        acc
    } else {
        update_entry(update_from(acc, c.drop_last(), p), c.last(), p)
    }
}

/// The counts after the pair `p` has been merged.
pub open spec fn updated(c: CountsV, p: PairV) -> CountsV {
    update_from(Seq::empty(), c, p)
}

pub proof fn lemma_total_index(c: CountsV, j: int)
    requires
        0 <= j < c.len(),
    ensures
        c[j].1 <= total(c),
    decreases c.len(),
{
    if j < c.len() - 1 {
        lemma_total_index(c.drop_last(), j);
    }
}

pub proof fn lemma_total_update(c: CountsV, j: int, e: (PairV, nat))
    requires
        0 <= j < c.len(),
    ensures
        total(c.update(j, e)) + c[j].1 == total(c) + e.1,
    decreases c.len(),
{
    if j < c.len() - 1 {
        lemma_total_update(c.drop_last(), j, e);
        assert(c.update(j, e).drop_last() =~= c.drop_last().update(j, e));
    } else {
        assert(c.update(j, e).drop_last() =~= c.drop_last());
    }
}

pub proof fn lemma_total_push(c: CountsV, e: (PairV, nat))
    ensures
        total(c.push(e)) == total(c) + e.1,
{
    assert(c.push(e).drop_last() =~= c);
}

pub proof fn lemma_keys_index(c: CountsV, k: PairV)
    requires
        keys(c).contains(k),
    ensures
        0 <= keys(c).index_of(k) < c.len(),
        c[keys(c).index_of(k)].0 == k,
{
}

pub proof fn lemma_add_count(c: CountsV, k: PairV, n: nat)
    requires
        keys(c).no_duplicates(),
    ensures
        total(add_count(c, k, n)) == total(c) + n,
        keys(add_count(c, k, n)).no_duplicates(),
        keys(add_count(c, k, n)).contains(k),
        add_count(c, k, n).len() <= c.len() + 1,
        forall|q: PairV| keys(c).contains(q) ==> keys(add_count(c, k, n)).contains(q),
{
    if keys(c).contains(k) {
        let j = keys(c).index_of(k);
        lemma_keys_index(c, k);
        lemma_total_update(c, j, (k, c[j].1 + n));
        assert(keys(add_count(c, k, n)) =~= keys(c));
    } else {
        lemma_total_push(c, (k, n));
        assert(keys(add_count(c, k, n)) =~= keys(c).push(k));
        assert(keys(c).push(k)[c.len() as int] == k);
        assert forall|q: PairV| keys(c).contains(q) implies keys(c).push(k).contains(q) by {
            let i = keys(c).index_of(q);
            assert(keys(c).push(k)[i] == q);
        }
    }
}

pub proof fn lemma_tally_from(c: CountsV, ks: Seq<PairV>)
    requires
        keys(c).no_duplicates(),
    ensures
        total(tally_from(c, ks)) == total(c) + ks.len(),
        keys(tally_from(c, ks)).no_duplicates(),
    decreases ks.len(),
{
    if ks.len() > 0 {
        lemma_tally_from(c, ks.drop_last());
        lemma_add_count(tally_from(c, ks.drop_last()), ks.last(), 1);
    }
}

pub proof fn lemma_tally_concat(c: CountsV, a: Seq<PairV>, b: Seq<PairV>)
    ensures
        tally_from(c, a + b) == tally_from(tally_from(c, a), b),
    decreases b.len(),
{
    if b.len() == 0 {
        assert(a + b =~= a);
    } else {
        assert((a + b).drop_last() =~= a + b.drop_last());
        assert((a + b).last() == b.last());
        lemma_tally_concat(c, a, b.drop_last());
    }
}

pub proof fn lemma_best_index(c: CountsV)
    ensures
        -1 <= best_index(c) < c.len(),
        best_index(c) >= 0 ==> c[best_index(c)].1 > 0,
        best_index(c) >= 0 ==> forall|j: int| 0 <= j < c.len() ==> (#[trigger] c[j]).1 <= c[best_index(c)].1,
        best_index(c) >= 0 ==> forall|j: int| 0 <= j < best_index(c) ==> (#[trigger] c[j]).1 < c[best_index(c)].1,
        best_index(c) < 0 ==> forall|j: int| 0 <= j < c.len() ==> (#[trigger] c[j]).1 == 0,
    decreases c.len(),
{
    if c.len() > 0 {
        let d = c.drop_last();
        lemma_best_index(d);
        let b = best_index(d);
        let r = best_index(c);
        assert forall|j: int| 0 <= j < c.len() - 1 implies c[j] == #[trigger] d[j] by {}
        if r >= 0 {
            assert forall|j: int| 0 <= j < c.len() implies (#[trigger] c[j]).1 <= c[r].1 by {
                if j < c.len() - 1 {
                    assert(c[j] == d[j]);
                }
            }
            assert forall|j: int| 0 <= j < r implies (#[trigger] c[j]).1 < c[r].1 by {
                assert(c[j] == d[j]);
            }
        } else {
            assert forall|j: int| 0 <= j < c.len() implies (#[trigger] c[j]).1 == 0 by {
                if j < c.len() - 1 {
                    assert(c[j] == d[j]);
                }
            }
        }
    }
}

pub proof fn lemma_update_entry(acc: CountsV, e: (PairV, nat), p: PairV)
    requires
        keys(acc).no_duplicates(),
    ensures
        keys(update_entry(acc, e, p)).no_duplicates(),
        total(update_entry(acc, e, p)) <= total(acc) + e.1,
        update_entry(acc, e, p).len() <= acc.len() + (if e.0 == p {
            0int
        } else {
            1int
        }),
{
    let k = e.0;
    if k == p {
    } else if k.0 == p.0 {
        lemma_add_count(acc, (merged(p), k.1), e.1);
    } else if k.1 == p.1 {
        lemma_add_count(acc, (k.0, merged(p)), e.1);
    } else {
        lemma_add_count(acc, k, e.1);
    }
}

pub proof fn lemma_update_from(acc: CountsV, c: CountsV, p: PairV)
    requires
        keys(acc).no_duplicates(),
    ensures
        keys(update_from(acc, c, p)).no_duplicates(),
        total(update_from(acc, c, p)) <= total(acc) + total(c),
        update_from(acc, c, p).len() <= acc.len() + c.len() - (if keys(c).contains(p) {
            1int
        } else {
            0int
        }),
    decreases c.len(),
{
    if c.len() > 0 {
        let c0 = c.drop_last();
        lemma_update_from(acc, c0, p);
        lemma_update_entry(update_from(acc, c0, p), c.last(), p);
        if keys(c).contains(p) && c.last().0 != p {
            let j = keys(c).index_of(p);
            assert(j < c.len() - 1);
            assert(keys(c0)[j] == p);
        }
    }
}

/// Merging a pair that has an entry leaves fewer entries than before.
pub proof fn lemma_updated_shrinks(c: CountsV, p: PairV)
    requires
        keys(c).contains(p),
    ensures
        updated(c, p).len() < c.len(),
{
    lemma_update_from(Seq::empty(), c, p);
}

/// The scan settles on the most frequent pair.
pub proof fn lemma_best_index_finds_best_pair(c: CountsV)
    ensures
        -1 <= best_index(c) < c.len(),
        best_index(c) >= 0 ==> most_frequent_at(c, best_index(c)),
        best_pair(c) == (if best_index(c) >= 0 {
            Some(c[best_index(c)].0)
        } else {
            None::<PairV>
        }),
{
    lemma_best_index(c);
    let b = best_index(c);
    if b >= 0 {
        assert(most_frequent_at(c, b));
        assert forall|i: int| most_frequent_at(c, i) implies i == b by {
            if i < b {
                assert(c[i].1 < c[b].1);
            } else if b < i {
                assert(c[b].1 < c[i].1);
            }
        }
    } else {
        assert forall|i: int| !most_frequent_at(c, i) by {
            if 0 <= i < c.len() {
                assert(c[i].1 == 0);
            }
        }
    }
}

/// The best pair, when there is one, has an entry.
pub proof fn lemma_best_pair_is_key(c: CountsV)
    ensures
        best_pair(c) matches Some(p) ==> keys(c).contains(p),
{
    lemma_best_index_finds_best_pair(c);
    let b = best_index(c);
    if b >= 0 {
        assert(keys(c)[b] == c[b].0);
    }
}

} // verus!

verus! {

/// A table from pairs to how often they occur, each pair at most once, in the order
/// in which pairs first came in.
#[derive(Debug)]
pub struct PairCounts {
    entries: Vec<(Pair, usize)>,
}

impl View for PairCounts {
    type V = CountsV;

    closed spec fn view(&self) -> CountsV {
        self.entries@.map_values(|e: (Pair, usize)| (e.0@, e.1 as nat))
    }
}

impl PairCounts {
    /// No pair has two entries.
    pub open spec fn wf(&self) -> bool {
        keys(self@).no_duplicates()
    }

    /// An empty table.
    pub fn new() -> (c: PairCounts)
        ensures
            c.wf(),
            c@ == Seq::<(PairV, nat)>::empty(),
    {
        let c = PairCounts { entries: Vec::new() };
        assert(c@ =~= Seq::<(PairV, nat)>::empty());
        assert(keys(c@) =~= Seq::<PairV>::empty());
        c
    }

    /// The number of entries.
    pub fn len(&self) -> (n: usize)
        ensures
            n == self@.len(),
    {
        self.entries.len()
    }

    /// The entry at position `i`.
    pub fn entry(&self, i: usize) -> (r: (&Pair, usize))
        requires
            i < self@.len(),
        ensures
            r.0@ == self@[i as int].0,
            r.1 == self@[i as int].1,
    {
        (&self.entries[i].0, self.entries[i].1)
    }

    fn find(&self, k: &Pair) -> (r: Option<usize>)
        requires
            self.wf(),
        ensures
            r is Some <==> keys(self@).contains(k@),
            r matches Some(i) ==> i as int == keys(self@).index_of(k@) && i < self@.len(),
    {
        let n = self.entries.len();
        for i in 0..n
            invariant
                n == self@.len(),
                self.wf(),
                forall|j: int| 0 <= j < i ==> keys(self@)[j] != k@,
        {
            if self.entries[i].0 == *k {
                assert(keys(self@)[i as int] == k@);
                let ghost j = keys(self@).index_of(k@);
                assert(0 <= j < n && keys(self@)[j] == k@);
                assert(j == i as int);
                return Some(i);
            }
        }
        assert forall|j: int| 0 <= j < n implies keys(self@)[j] != k@ by {}
        None
    }

    /// Adds `n` to the count of `k`; a pair not yet there gets an entry at the end.
    pub fn add(&mut self, k: &Pair, n: usize)
        requires
            old(self).wf(),
            total(old(self)@) + n <= usize::MAX,
        ensures
            final(self).wf(),
            final(self)@ == add_count(old(self)@, k@, n as nat),
    {
        let found = self.find(k);
        match found {
            Some(j) => {
                proof {
                    lemma_keys_index(old(self)@, k@);
                    lemma_total_index(old(self)@, j as int);
                }
                let v = self.entries[j].1;
                self.entries.set(j, (k.clone(), v + n));
                assert(self@ =~= add_count(old(self)@, k@, n as nat));
            },
            None => {
                self.entries.push((k.clone(), n));
                assert(self@ =~= add_count(old(self)@, k@, n as nat));
            },
        }
        proof {
            lemma_add_count(old(self)@, k@, n as nat);
        }
    }
}

} // verus!

verus! {

/// How many times `k` occurs in `ks`.
pub open spec fn occurrences(ks: Seq<PairV>, k: PairV) -> nat
    decreases ks.len(),
{
    if ks.len() == 0 {
        0
    } else {
        occurrences(ks.drop_last(), k) + (if ks.last() == k {
            1nat
        } else {
            0nat
        })
    }
}

/// The chosen pair has the highest count, and no earlier entry has as high a count;
/// no pair is chosen only when every count is zero.
pub proof fn law_best_pair_is_most_frequent(c: CountsV)
    ensures
        best_pair(c) matches Some(p) ==> exists|i: int|
            0 <= i < c.len() && c[i].0 == p && c[i].1 > 0 && (forall|j: int|
                0 <= j < c.len() ==> (#[trigger] c[j]).1 <= c[i].1) && (forall|j: int|
                0 <= j < i ==> (#[trigger] c[j]).1 < c[i].1),
        best_pair(c) is None ==> forall|j: int| 0 <= j < c.len() ==> (#[trigger] c[j]).1 == 0,
{
    lemma_best_index_finds_best_pair(c);
    lemma_best_index(c);
    let b = best_index(c);
    if b >= 0 {
        assert(c[b].0 == c[b].0);
    }
}

/// Counting gives each pair of `ks` one entry, whose count is how many times the
/// pair occurs, and no other entries.
pub proof fn law_tally_counts(ks: Seq<PairV>, k: PairV)
    ensures
        keys(tally(ks)).no_duplicates(),
        keys(tally(ks)).contains(k) <==> ks.contains(k),
        keys(tally(ks)).contains(k) ==> tally(ks)[keys(tally(ks)).index_of(k)].1 == occurrences(
            ks,
            k,
        ),
        !ks.contains(k) ==> occurrences(ks, k) == 0,
    decreases ks.len(),
{
    lemma_tally_from(Seq::empty(), ks);
    if ks.len() == 0 {
        assert(keys(tally(ks)) =~= Seq::<PairV>::empty());
    } else {
        let ks0 = ks.drop_last();
        let c0 = tally(ks0);
        law_tally_counts(ks0, k);
        lemma_tally_from(Seq::empty(), ks0);
        let q = ks.last();
        assert(ks[ks.len() - 1] == q);
        assert(tally(ks) == add_count(c0, q, 1));
        assert(ks.contains(k) <==> (ks0.contains(k) || q == k)) by {
            if ks.contains(k) && q != k {
                let i = choose|i: int| 0 <= i < ks.len() && ks[i] == k;
                assert(ks0[i] == k);
            }
            if ks0.contains(k) {
                let i = choose|i: int| 0 <= i < ks0.len() && ks0[i] == k;
                assert(ks[i] == k);
            }
        }
        if keys(c0).contains(q) {
            let j = keys(c0).index_of(q);
            lemma_keys_index(c0, q);
            assert(keys(tally(ks)) =~= keys(c0));
            if keys(c0).contains(k) {
                let jk = keys(c0).index_of(k);
                lemma_keys_index(c0, k);
                if k == q {
                } else {
                    assert(jk != j);
                }
            }
        } else {
            assert(keys(tally(ks)) =~= keys(c0).push(q));
            if k == q {
                crate::vocabulary::lemma_index_of_position(keys(tally(ks)), c0.len() as int);
            } else if keys(c0).contains(k) {
                let jk = keys(c0).index_of(k);
                lemma_keys_index(c0, k);
                assert(keys(tally(ks))[jk] == k);
                crate::vocabulary::lemma_index_of_position(keys(tally(ks)), jk);
            } else {
                if keys(tally(ks)).contains(k) {
                    let i = choose|i: int| 0 <= i < keys(tally(ks)).len() && keys(tally(ks))[i] == k;
                    if i < c0.len() {
                        assert(keys(c0)[i] == k);
                    }
                }
            }
        }
    }
}

} // verus!

verus! {

/// The pair that the pair `q` becomes when `p` is merged (for `q` other than `p`):
/// the merged token replaces the first token of `q` when that is the first token
/// of `p`, else the second token of `q` when that is the second token of `p`.
pub open spec fn rewrite(q: PairV, p: PairV) -> PairV {
    if q.0 == p.0 {
        (merged(p), q.1)
    } else if q.1 == p.1 {
        (q.0, merged(p))
    } else {
        q
    }
}

/// The count of `k` in `c`: that of its entry, or 0 when it has none.
pub open spec fn count_of(c: CountsV, k: PairV) -> nat {
    if keys(c).contains(k) {
        c[keys(c).index_of(k)].1
    } else {
        0
    }
}

/// The sum of the counts of the entries of `c`, other than that of `p`, whose pair
/// becomes `k` when `p` is merged.
pub open spec fn carried(c: CountsV, p: PairV, k: PairV) -> nat
    decreases c.len(),
{
    if c.len() == 0 {
        0
    } else {
        carried(c.drop_last(), p, k) + (if c.last().0 != p && rewrite(c.last().0, p) == k {
            c.last().1
        } else {
            0nat
        })
    }
}

/// Whether an entry of `c`, other than that of `p`, becomes `k` when `p` is merged.
pub open spec fn lands(c: CountsV, p: PairV, k: PairV) -> bool {
    exists|i: int| 0 <= i < c.len() && c[i].0 != p && #[trigger] rewrite(c[i].0, p) == k
}

/// The sum of the counts of the entries of `c` whose pair is `p`.
spec fn dropped(c: CountsV, p: PairV) -> nat
    decreases c.len(),
{
    if c.len() == 0 {
        0
    } else {
        dropped(c.drop_last(), p) + (if c.last().0 == p {
            c.last().1
        } else {
            0nat
        })
    }
}

proof fn lemma_add_count_of(c: CountsV, k: PairV, n: nat, q: PairV)
    requires
        keys(c).no_duplicates(),
    ensures
        count_of(add_count(c, k, n), q) == count_of(c, q) + (if q == k {
            n
        } else {
            0nat
        }),
        keys(add_count(c, k, n)).contains(q) <==> (keys(c).contains(q) || q == k),
{
    lemma_add_count(c, k, n);
    let d = add_count(c, k, n);
    if keys(c).contains(k) {
        let j = keys(c).index_of(k);
        lemma_keys_index(c, k);
        assert(keys(d) =~= keys(c));
        if keys(c).contains(q) {
            let jq = keys(c).index_of(q);
            lemma_keys_index(c, q);
            if q != k {
                assert(jq != j);
            }
        }
    } else {
        assert(keys(d) =~= keys(c).push(k));
        if q == k {
            crate::vocabulary::lemma_index_of_position(keys(d), c.len() as int);
        } else if keys(c).contains(q) {
            let jq = keys(c).index_of(q);
            lemma_keys_index(c, q);
            assert(keys(d)[jq] == q);
            crate::vocabulary::lemma_index_of_position(keys(d), jq);
        } else if keys(d).contains(q) {
            let i = choose|i: int| 0 <= i < keys(d).len() && keys(d)[i] == q;
            if i < c.len() {
                assert(keys(c)[i] == q);
            }
        }
    }
}

proof fn lemma_update_from_counts(acc: CountsV, c: CountsV, p: PairV, k: PairV)
    requires
        keys(acc).no_duplicates(),
    ensures
        count_of(update_from(acc, c, p), k) == count_of(acc, k) + carried(c, p, k),
        keys(update_from(acc, c, p)).contains(k) <==> (keys(acc).contains(k) || lands(c, p, k)),
        total(update_from(acc, c, p)) + dropped(c, p) == total(acc) + total(c),
    decreases c.len(),
{
    if c.len() > 0 {
        let c0 = c.drop_last();
        let e = c.last();
        lemma_update_from_counts(acc, c0, p, k);
        lemma_update_from(acc, c0, p);
        let a0 = update_from(acc, c0, p);
        assert(lands(c, p, k) <==> (lands(c0, p, k) || (e.0 != p && rewrite(e.0, p) == k))) by {
            if lands(c, p, k) {
                let i = choose|i: int| 0 <= i < c.len() && c[i].0 != p && #[trigger] rewrite(c[i].0, p) == k;
                if i < c0.len() {
                    assert(c0[i] == c[i]);
                } else {
                    assert(c[i] == e);
                }
            }
            if lands(c0, p, k) {
                let i = choose|i: int| 0 <= i < c0.len() && c0[i].0 != p && #[trigger] rewrite(c0[i].0, p) == k;
                assert(c[i] == c0[i]);
            }
            if e.0 != p && rewrite(e.0, p) == k {
                assert(c[c.len() - 1] == e);
            }
        }
        if e.0 == p {
        } else {
            assert(update_entry(a0, e, p) == add_count(a0, rewrite(e.0, p), e.1));
            lemma_add_count_of(a0, rewrite(e.0, p), e.1, k);
            lemma_add_count(a0, rewrite(e.0, p), e.1);
        }
    }
}

proof fn lemma_dropped(c: CountsV, p: PairV)
    requires
        keys(c).no_duplicates(),
    ensures
        dropped(c, p) == count_of(c, p),
    decreases c.len(),
{
    if c.len() > 0 {
        let c0 = c.drop_last();
        assert(keys(c0) =~= keys(c).drop_last());
        lemma_dropped(c0, p);
        let n = c.len() - 1;
        if c.last().0 == p {
            assert(keys(c)[n] == p);
            crate::vocabulary::lemma_index_of_position(keys(c), n);
            if keys(c0).contains(p) {
                let i = choose|i: int| 0 <= i < keys(c0).len() && keys(c0)[i] == p;
                assert(keys(c)[i] == p);
            }
        } else {
            if keys(c0).contains(p) {
                let i = keys(c0).index_of(p);
                lemma_keys_index(c0, p);
                assert(keys(c)[i] == p);
                crate::vocabulary::lemma_index_of_position(keys(c), i);
                crate::vocabulary::lemma_index_of_position(keys(c0), i);
            }
            if keys(c).contains(p) {
                let i = choose|i: int| 0 <= i < keys(c).len() && keys(c)[i] == p;
                assert(i != n);
                assert(keys(c0)[i] == p);
            }
        }
    }
}

/// After `p` is merged, each pair's count is the sum of the counts of the old pairs,
/// other than `p`, that become it, in whatever order the old entries come; a pair
/// has an entry exactly when some such old pair exists; and the total is the old
/// total less the count of `p`.
pub proof fn law_updated_counts(c: CountsV, p: PairV, k: PairV)
    requires
        keys(c).no_duplicates(),
    ensures
        count_of(updated(c, p), k) == carried(c, p, k),
        keys(updated(c, p)).contains(k) <==> lands(c, p, k),
        total(updated(c, p)) + count_of(c, p) == total(c),
{
    assert(keys(Seq::<(PairV, nat)>::empty()) =~= Seq::<PairV>::empty());
    lemma_update_from_counts(Seq::empty(), c, p, k);
    lemma_dropped(c, p);
}

/// With no rewritten pair able to land on `q`, the sum carried onto `q` is the
/// count of `q`'s own entry.
proof fn lemma_carried_unrelated(c: CountsV, p: PairV, q: PairV)
    requires
        q != p,
        q.0 != p.0,
        q.1 != p.1,
        q.0 != merged(p),
        q.1 != merged(p),
    ensures
        carried(c, p, q) == dropped(c, q),
    decreases c.len(),
{
    if c.len() > 0 {
        lemma_carried_unrelated(c.drop_last(), p, q);
    }
}

/// The sum carried onto `rewrite(q, p)` is at least the count of `q`'s entry.
proof fn lemma_carried_from(c: CountsV, p: PairV, q: PairV)
    requires
        q != p,
    ensures
        carried(c, p, rewrite(q, p)) >= dropped(c, q),
    decreases c.len(),
{
    if c.len() > 0 {
        lemma_carried_from(c.drop_last(), p, q);
    }
}

/// Merging `p` leaves the count of every pair that shares neither token slot with
/// `p` and does not hold the merged token exactly as it was; a pair that begins
/// with `p`'s first token passes its count on to the merged token followed by its
/// second token; a pair that ends with `p`'s second token (and does not begin with
/// its first) passes its count on to its first token followed by the merged token;
/// and when both tokens of `p` are non-empty, `p` itself has no entry afterwards.
pub proof fn law_updated_carries(c: CountsV, p: PairV, q: PairV)
    requires
        keys(c).no_duplicates(),
    ensures
        q != p && q.0 != p.0 && q.1 != p.1 && q.0 != merged(p) && q.1 != merged(p) ==> count_of(
            updated(c, p),
            q,
        ) == count_of(c, q),
        q != p && q.0 == p.0 ==> count_of(updated(c, p), (merged(p), q.1)) >= count_of(c, q),
        q.0 != p.0 && q.1 == p.1 ==> count_of(updated(c, p), (q.0, merged(p))) >= count_of(c, q),
        p.0.len() > 0 && p.1.len() > 0 ==> !keys(updated(c, p)).contains(p),
        p.0.len() > 0 && p.1.len() > 0 ==> count_of(updated(c, p), p) == 0,
{
    law_updated_counts(c, p, q);
    lemma_dropped(c, q);
    if q != p && q.0 != p.0 && q.1 != p.1 && q.0 != merged(p) && q.1 != merged(p) {
        lemma_carried_unrelated(c, p, q);
    }
    if q != p {
        lemma_carried_from(c, p, q);
        law_updated_counts(c, p, rewrite(q, p));
    }
    if p.0.len() > 0 && p.1.len() > 0 {
        law_updated_counts(c, p, p);
        if lands(c, p, p) {
            let i = choose|i: int| 0 <= i < c.len() && c[i].0 != p && #[trigger] rewrite(c[i].0, p) == p;
            let r = c[i].0;
            if r.0 == p.0 {
                assert(merged(p).len() == p.0.len() + p.1.len());
            } else if r.1 == p.1 {
                assert(merged(p).len() == p.0.len() + p.1.len());
            }
        }
    }
}

/// Adding `n` occurrences of `k` raises the count of `k` by `n` and leaves every
/// other count as it was.
pub proof fn law_add_count(c: CountsV, k: PairV, n: nat, q: PairV)
    requires
        keys(c).no_duplicates(),
    ensures
        count_of(add_count(c, k, n), k) == count_of(c, k) + n,
        q != k ==> count_of(add_count(c, k, n), q) == count_of(c, q),
        keys(add_count(c, k, n)).contains(q) <==> (keys(c).contains(q) || q == k),
        total(add_count(c, k, n)) == total(c) + n,
{
    lemma_add_count_of(c, k, n, k);
    lemma_add_count_of(c, k, n, q);
    lemma_add_count(c, k, n);
}

} // verus!
