use vstd::prelude::*;

verus! {

/// Which way a probe's score sends the search for a number of merges.
#[derive(Clone, Copy, Debug, PartialEq, Eq)]
pub enum Toward {
    /// The score overshoots the target with this many merges: try fewer.
    Fewer,
    /// The score falls short of the target with this many merges: try more.
    More,
    /// The score meets the target: stop here.
    Stop,
}

/// What a bisection holds: the range of merge counts still open, the count that
/// gave the best score so far, the count it started from, and whether it stopped.
pub struct BisectionView {
    pub low: nat,
    pub high: nat,
    pub best: nat,
    pub limit: nat,
    pub stopped: bool,
}

/// A bisection on the number of merges a tokenizer keeps, driven by scores that
/// the caller measures: it names the next count to probe, and is told after each
/// probe whether the score improved and which way to go.
#[derive(Debug)]
pub struct Bisection {
    low: usize,
    high: usize,
    best: usize,
    limit: usize,
    stopped: bool,
}

impl View for Bisection {
    type V = BisectionView;

    closed spec fn view(&self) -> BisectionView {
        BisectionView {
            low: self.low as nat,
            high: self.high as nat,
            best: self.best as nat,
            limit: self.limit as nat,
            stopped: self.stopped,
        }
    }
}

/// The range stays inside `0..=limit` and the best count is one of them.
pub open spec fn bisection_wf(v: BisectionView) -> bool {
    &&& v.low <= v.high <= v.limit
    &&& v.best <= v.limit
}

/// The count probed next: the middle of the open range, rounded down.
pub open spec fn probe_of(v: BisectionView) -> nat {
    (v.low + v.high) / 2
}

/// The bisection after a probe at `probe_of(v)`: the probe becomes the best count
/// when its score improved; the range then keeps the half that `toward` names, and
/// the search stops when it meets the target or when that half is empty.
pub open spec fn record_step(v: BisectionView, improved: bool, toward: Toward) -> BisectionView {
    let m = probe_of(v);
    let best = if improved {
        m
    } else {
        v.best
    };
    match toward {
        Toward::Fewer => if m == v.low {
            BisectionView { best, stopped: true, ..v }
        } else {
            BisectionView { best, high: (m - 1) as nat, ..v }
        },
        Toward::More => if m == v.high {
            BisectionView { best, stopped: true, ..v }
        } else {
            BisectionView { best, low: m + 1, ..v }
        },
        Toward::Stop => BisectionView { best, stopped: true, ..v },
    }
}

impl Bisection {
    /// A search over `0..=n` merges, with 0 as the best count until a probe improves.
    pub fn new(n: usize) -> (b: Bisection)
        ensures
            b@ == (BisectionView { low: 0, high: n as nat, best: 0, limit: n as nat, stopped: false }),
            bisection_wf(b@),
    {
        Bisection { low: 0, high: n, best: 0, limit: n, stopped: false }
    }

    /// The count to probe next, or `None` once the search has stopped.
    pub fn next(&self) -> (r: Option<usize>)
        requires
            bisection_wf(self@),
        ensures
            self@.stopped ==> r is None,
            !self@.stopped ==> r == Some(probe_of(self@) as usize),
            r matches Some(m) ==> self@.low <= m <= self@.high,
    {
        if self.stopped {
            None
        } else {
            Some(self.low + (self.high - self.low) / 2)
        }
    }

    /// Takes in the outcome of the probe at `next()`: whether its score improved on
    /// the best so far, and which way the score sends the search.
    pub fn record(&mut self, improved: bool, toward: Toward)
        requires
            bisection_wf(old(self)@),
            !old(self)@.stopped,
        ensures
            final(self)@ == record_step(old(self)@, improved, toward),
            bisection_wf(final(self)@),
            final(self)@.stopped || final(self)@.high - final(self)@.low < old(self)@.high - old(self)@.low,
            improved ==> final(self)@.best == probe_of(old(self)@),
            !improved ==> final(self)@.best == old(self)@.best,
    {
        let m = self.low + (self.high - self.low) / 2;
        if improved {
            self.best = m;
        }
        match toward {
            Toward::Fewer => {
                if m == self.low {
                    self.stopped = true;
                } else {
                    self.high = m - 1;
                }
            },
            Toward::More => {
                if m == self.high {
                    self.stopped = true;
                } else {
                    self.low = m + 1;
                }
            },
            Toward::Stop => {
                self.stopped = true;
            },
        }
    }

    /// The count that gave the best score, or 0 when none improved.
    pub fn best(&self) -> (n: usize)
        ensures
            n == self@.best,
    {
        self.best
    }

    /// Whether the search has stopped.
    pub fn is_stopped(&self) -> (b: bool)
        ensures
            b == self@.stopped,
    {
        self.stopped
    }
}

/// Every probe lies inside the open range, at its middle rounded down, and every step that does not stop
/// leaves a strictly smaller range inside the old one: the search ends after at
/// most `limit + 1` probes, and its best count is always one it may keep.
///
/// A probe whose score improved becomes the best count, whichever way the search
/// goes on and whether or not it stops; any other probe leaves the best count as it
/// was. Going for fewer merges keeps the counts below the probe, going for more
/// keeps those above it, and meeting the target stops the search.
pub proof fn law_record_narrows(v: BisectionView, improved: bool, toward: Toward)
    requires
        bisection_wf(v),
        !v.stopped,
    ensures
        v.low <= probe_of(v) <= v.high,
        2 * probe_of(v) <= v.low + v.high < 2 * probe_of(v) + 2,
        bisection_wf(record_step(v, improved, toward)),
        record_step(v, improved, toward).stopped || (v.low <= record_step(v, improved, toward).low
            && record_step(v, improved, toward).high <= v.high && record_step(v, improved, toward).high
            - record_step(v, improved, toward).low < v.high - v.low),
        record_step(v, improved, toward).limit == v.limit,
        improved ==> record_step(v, improved, toward).best == probe_of(v),
        !improved ==> record_step(v, improved, toward).best == v.best,
        toward == Toward::Stop ==> record_step(v, improved, toward).stopped,
        toward == Toward::Fewer && probe_of(v) > v.low ==> !record_step(v, improved, toward).stopped
            && record_step(v, improved, toward).low == v.low && record_step(v, improved, toward).high + 1
            == probe_of(v),
        toward == Toward::Fewer && probe_of(v) == v.low ==> record_step(v, improved, toward).stopped,
        toward == Toward::More && probe_of(v) < v.high ==> !record_step(v, improved, toward).stopped
            && record_step(v, improved, toward).high == v.high && record_step(v, improved, toward).low
            == probe_of(v) + 1,
        toward == Toward::More && probe_of(v) == v.high ==> record_step(v, improved, toward).stopped,
{
}

} // verus!
