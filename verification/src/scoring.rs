//! How earlier estimates turned out.
//!
//! Every sample records the prediction made at its moment, so once its
//! session has run on, the prediction can be scored against what the battery
//! really did.

use crate::estimate::remaining_points;
use crate::power::PowerState;
use crate::quantity::{Quantity, ONE_BITS, THREE_BITS};
use crate::sample::{hours_between, progress, seconds_between, Sample};
use crate::session::SESSION_GAP_SECS;
use vstd::prelude::*;

verus! {

use crate::binary::{product, quotient, rounded_to, signed_whole, sum, whole};

/// A prediction is only scored once the session has run this much longer
/// and moved three percent, so the realized rate means something.
pub const SCORE_MIN_SECS: u64 = 900;

/// One past prediction next to what the battery went on to do.
#[derive(Clone, Copy, Debug, PartialEq, Eq, Structural)]
pub struct Checkpoint {
    pub t: u64,
    pub percent: u8,
    pub state: PowerState,
    pub predicted_min: u32,
    pub instant_min: Option<u32>,
    /// Minutes the rest of the charge would really have taken at the rate
    /// realized after this moment.
    pub realized_min: u32,
}

impl Checkpoint {
    /// Minutes by which the prediction missed: positive when it promised too
    /// much.
    pub open spec fn error(self) -> int {
        self.predicted_min - self.realized_min
    }

    /// Minutes by which the prediction missed: positive when it promised too
    /// much.
    pub fn error_min(&self) -> (r: i64)
        ensures
            r == self.error(),
    {
        self.predicted_min as i64 - self.realized_min as i64
    }

    /// Minutes by which the prediction missed, either way.
    pub open spec fn miss(self) -> nat {
        if self.error() < 0 {
            (-self.error()) as nat
        } else {
            self.error() as nat
        }
    }

    /// Minutes by which the prediction missed, either way.
    pub fn miss_min(&self) -> (r: u32)
        ensures
            r == self.miss(),
    {
        if self.predicted_min < self.realized_min {
            self.realized_min - self.predicted_min
        } else {
            self.predicted_min - self.realized_min
        }
    }

    /// Whether the prediction came within ten percent of what happened (of
    /// one minute, where it was less).
    pub open spec fn is_close(self) -> bool {
        self.miss() * 10 <= if self.realized_min < 1 {
            1
        } else {
            self.realized_min as int
        }
    }

    /// Whether the prediction came within ten percent of what happened.
    pub fn close(&self) -> (r: bool)
        ensures
            r == self.is_close(),
    {
        let really: u64 = if self.realized_min < 1 {
            1
        } else {
            self.realized_min as u64
        };
        self.miss_min() as u64 * 10 <= really
    }

    /// Minutes by which the instant reading missed, either way.
    pub open spec fn instant_miss(self) -> Option<nat> {
        match self.instant_min {
            Some(m) => Some(
                if m < self.realized_min {
                    (self.realized_min - m) as nat
                } else {
                    (m - self.realized_min) as nat
                },
            ),
            None => None,
        }
    }
}

/// A prediction that hit is close, and one that is off by more than a tenth
/// of what happened is not.
pub proof fn closeness_is_a_tenth(c: Checkpoint)
    ensures
        c.error() == 0 ==> c.is_close(),
        c.realized_min > 0 ==> (c.is_close() <==> c.miss() * 10 <= c.realized_min),
        c.realized_min < 10 ==> (c.is_close() <==> c.error() == 0),
{
}

/// A sample whose prediction can be scored, and the sample that its session
/// ends with, as positions in the history.
#[derive(Clone, Copy, Debug, PartialEq, Eq, Structural)]
pub struct Scoring {
    pub at: usize,
    pub last: usize,
}

/// The position at which the session of sample `i` ends.
pub open spec fn session_end(s: Seq<Sample>, i: int) -> int
    decreases s.len() - i,
{
    if i + 1 >= s.len() || crate::session::opens(s, i + 1) {
        i
    } else {
        session_end(s, i + 1)
    }
}

/// Whether the prediction of sample `i` can be scored: one was made, off the
/// adapter, and its session ran on for long enough.
pub open spec fn is_scorable(s: Seq<Sample>, i: int) -> bool {
    &&& s[i].state != PowerState::PluggedIn
    &&& s[i].predicted_min is Some
    &&& crate::sample::elapsed(s[i].t, s[session_end(s, i)].t) >= SCORE_MIN_SECS
}

/// The predictions among the first `n` samples that can be scored, oldest
/// first.
pub open spec fn scorings_among(s: Seq<Sample>, n: nat) -> Seq<Scoring>
    decreases n,
{
    if n == 0 {
        Seq::empty()
    } else {
        let before = scorings_among(s, (n - 1) as nat);
        if is_scorable(s, n - 1) {
            before.push(Scoring { at: (n - 1) as usize, last: session_end(s, n - 1) as usize })
        } else {
            before
        }
    }
}

/// The predictions that can be scored, oldest first.
pub open spec fn scorings_of(s: Seq<Sample>) -> Seq<Scoring> {
    scorings_among(s, s.len())
}

proof fn lemma_session_end(s: Seq<Sample>, i: int)
    requires
        0 <= i < s.len(),
    ensures
        i <= session_end(s, i) < s.len(),
        forall|k: int| i < k <= session_end(s, i) ==> !#[trigger] crate::session::opens(s, k),
        forall|k: int|
            i <= k <= session_end(s, i) ==> (#[trigger] s[k]).state == s[session_end(s, i)].state,
        session_end(s, i) + 1 < s.len() ==> crate::session::opens(s, session_end(s, i) + 1),
    decreases s.len() - i,
{
    if i + 1 < s.len() && !crate::session::opens(s, i + 1) {
        lemma_session_end(s, i + 1);
    }
}

/// A prediction that is scored stands in a session that runs unbroken to the
/// sample it is scored against, at least fifteen minutes later and in the
/// same state; every such prediction is scored, oldest first.
pub proof fn scorings_are_the_scorable(s: Seq<Sample>, n: nat)
    requires
        n <= s.len() <= usize::MAX,
    ensures
        forall|k: int|
            0 <= k < scorings_among(s, n).len() ==> {
                let x = #[trigger] scorings_among(s, n)[k];
                &&& x.at < n
                &&& x.at <= x.last < s.len()
                &&& is_scorable(s, x.at as int)
                &&& x.last == session_end(s, x.at as int)
                &&& s[x.last as int].state == s[x.at as int].state
                &&& s[x.last as int].t >= s[x.at as int].t + SCORE_MIN_SECS
                &&& forall|j: int|
                    x.at < j <= x.last ==> !#[trigger] crate::session::opens(s, j)
            },
        forall|i: int|
            0 <= i < n && #[trigger] is_scorable(s, i) ==> exists|k: int|
                0 <= k < scorings_among(s, n).len() && (#[trigger] scorings_among(s, n)[k]).at == i,
        forall|j: int, k: int|
            0 <= j < k < scorings_among(s, n).len() ==> scorings_among(s, n)[j].at
                < scorings_among(s, n)[k].at,
    decreases n,
{
    if n > 0 {
        let m = (n - 1) as nat;
        scorings_are_the_scorable(s, m);
        lemma_session_end(s, m as int);
        let before = scorings_among(s, m);
        let all = scorings_among(s, n);
        assert forall|k: int| 0 <= k < all.len() implies {
            let x = #[trigger] all[k];
            &&& x.at < n
            &&& x.at <= x.last < s.len()
            &&& is_scorable(s, x.at as int)
            &&& x.last == session_end(s, x.at as int)
            &&& s[x.last as int].state == s[x.at as int].state
            &&& s[x.last as int].t >= s[x.at as int].t + SCORE_MIN_SECS
            &&& forall|j: int| x.at < j <= x.last ==> !#[trigger] crate::session::opens(s, j)
        } by {
            if k < before.len() {
                assert(all[k] == before[k]);
            } else {
                assert(s[m as int].state == s[session_end(s, m as int)].state);
            }
        }
        assert forall|i: int| 0 <= i < n && #[trigger] is_scorable(s, i) implies exists|k: int|
            0 <= k < all.len() && (#[trigger] all[k]).at == i by {
            if i < m {
                let w = choose|w: int| 0 <= w < before.len() && (#[trigger] before[w]).at == i;
                assert(all[w] == before[w]);
            } else {
                assert(all[all.len() - 1].at == i);
            }
        }
        assert forall|j: int, k: int| 0 <= j < k < all.len() implies all[j].at < all[k].at by {
            assert(all[j] == before[j]);
            if k < before.len() {
                assert(all[k] == before[k]);
            }
        }
    }
}

/// The position at which the session of each sample ends, last sample first.
fn session_ends_backwards(s: &[Sample]) -> (r: Vec<usize>)
    ensures
        r.len() == s@.len(),
        forall|k: int|
            0 <= k < r.len() ==> #[trigger] r[k] == session_end(s@, s@.len() - 1 - k),
{
    let n = s.len();
    let mut ends: Vec<usize> = Vec::new();
    let mut left: usize = n;
    while left > 0
        invariant
            n == s@.len(),
            left <= n,
            ends.len() == n - left,
            forall|k: int|
                0 <= k < ends.len() ==> #[trigger] ends[k] == session_end(s@, s@.len() - 1 - k),
        decreases left,
    {
        let i: usize = left - 1;
        let boundary = i + 1 == n || s[i + 1].state != s[i].state || seconds_between(
            &s[i],
            &s[i + 1],
        ) > SESSION_GAP_SECS;
        if boundary {
            ends.push(i);
        } else {
            let end = ends[ends.len() - 1];
            assert(end == session_end(s@, i + 1));
            ends.push(end);
        }
        left = i;
    }
    ends
}

/// The predictions that can be scored, oldest first.
pub fn scorings(s: &[Sample]) -> (r: Vec<Scoring>)
    ensures
        r@ == scorings_of(s@),
{
    let n = s.len();
    let ends = session_ends_backwards(s);
    let mut out: Vec<Scoring> = Vec::new();
    let mut i: usize = 0;
    while i < n
        invariant
            i <= n,
            n == s@.len(),
            ends.len() == n,
            forall|k: int|
                0 <= k < ends.len() ==> #[trigger] ends[k] == session_end(s@, s@.len() - 1 - k),
            out@ == scorings_among(s@, i as nat),
        decreases n - i,
    {
        let last = ends[n - 1 - i];
        proof {
            lemma_session_end(s@, i as int);
        }
        assert(last == session_end(s@, i as int));
        if s[i].state != PowerState::PluggedIn && s[i].predicted_min.is_some() && seconds_between(
            &s[i],
            &s[last],
        ) >= SCORE_MIN_SECS {
            out.push(Scoring { at: i, last });
        }
        i += 1;
    }
    out
}

/// Minutes the rest of the charge takes from `sample` on, at the rate realized
/// until `last`.
pub open spec fn realized(sample: Sample, last: Sample) -> u32 {
    let rate = quotient(
        crate::sample::progressed(sample, last),
        crate::sample::hours(sample, last),
    );
    rounded_to(
        product(
            quotient(
                whole(crate::estimate::points_left(sample.percent, sample.state)),
                rate,
            ),
            whole(60),
        ),
        u32::MAX as nat,
    ) as u32
}

/// Whether the charge moved too little from `sample` to `last` for a
/// prediction to be scored: less than three percent.
pub open spec fn moved_too_little(sample: Sample, last: Sample) -> bool {
    crate::sample::progressed(sample, last).less(Quantity { bits: THREE_BITS })
}

/// The checkpoint that a prediction and what followed it make.
pub open spec fn checkpoint_of(sample: Sample, last: Sample) -> Checkpoint {
    Checkpoint {
        t: sample.t,
        percent: sample.percent,
        state: sample.state,
        predicted_min: sample.predicted_min->0,
        instant_min: sample.instant_min,
        realized_min: realized(sample, last),
    }
}

/// The checkpoints that these predictions make.
pub open spec fn scored_among(s: Seq<Sample>, scorings: Seq<Scoring>) -> Seq<Checkpoint>
    decreases scorings.len(),
{
    if scorings.len() == 0 {
        Seq::empty()
    } else {
        let before = scored_among(s, scorings.drop_last());
        let sample = s[scorings.last().at as int];
        let last = s[scorings.last().last as int];
        if moved_too_little(sample, last) {
            before
        } else {
            before.push(checkpoint_of(sample, last))
        }
    }
}

/// Every past prediction that can be scored, oldest first.
pub open spec fn scored(s: Seq<Sample>) -> Seq<Checkpoint> {
    scored_among(s, scorings_of(s))
}

/// Every past prediction that can be scored, oldest first.
pub fn score(s: &[Sample]) -> (r: Vec<Checkpoint>)
    ensures
        r@ == scored(s@),
{
    let list = scorings(s);
    let n = s.len();
    proof {
        assert(s@.len() == n);
        scorings_are_the_scorable(s@, s@.len());
    }
    let mut out: Vec<Checkpoint> = Vec::new();
    let mut i: usize = 0;
    assert(list@.take(0) =~= Seq::<Scoring>::empty());
    while i < list.len()
        invariant
            i <= list.len(),
            list@ == scorings_of(s@),
            forall|k: int|
                0 <= k < list.len() ==> {
                    let x = #[trigger] scorings_of(s@)[k];
                    &&& x.at < s@.len()
                    &&& x.last < s@.len()
                    &&& is_scorable(s@, x.at as int)
                },
            out@ == scored_among(s@, list@.take(i as int)),
        decreases list.len() - i,
    {
        let x = list[i];
        assert(scorings_of(s@)[i as int] == x);
        assert(list@.take(i + 1).drop_last() =~= list@.take(i as int));
        assert(list@.take(i + 1).last() == x);
        let sample = s[x.at];
        let last = s[x.last];
        let moved = progress(&sample, &last);
        if !moved.is_below(THREE_BITS) {
            if let Some(predicted_min) = sample.predicted_min {
                let rate = moved.over(hours_between(&sample, &last));
                let points = remaining_points(sample.percent, sample.state);
                let minutes = Quantity::of(points as u64).over(rate).times(Quantity::of(60));
                out.push(
                    Checkpoint {
                        t: sample.t,
                        percent: sample.percent,
                        state: sample.state,
                        predicted_min,
                        instant_min: sample.instant_min,
                        realized_min: minutes.round(u32::MAX),
                    },
                );
            }
        }
        i += 1;
    }
    assert(list@.take(list.len() as int) =~= list@);
    out
}

/// Every checkpoint is a prediction of the history: made in its session off
/// the adapter, followed by at least fifteen minutes of that session in which
/// the charge moved by three percent, and scored by what it did then.
pub proof fn checkpoints_are_earned(s: Seq<Sample>, k: int)
    requires
        s.len() <= usize::MAX,
        0 <= k < scored(s).len(),
    ensures
        exists|at: int|
            {
                &&& 0 <= at < s.len()
                &&& #[trigger] is_scorable(s, at)
                &&& !moved_too_little(s[at], s[session_end(s, at)])
                &&& scored(s)[k] == checkpoint_of(s[at], s[session_end(s, at)])
            },
{
    scorings_are_the_scorable(s, s.len());
    lemma_scored(s, scorings_of(s), k);
    let w = choose|w: int|
        {
            &&& 0 <= w < scorings_of(s).len()
            &&& !moved_too_little(
                s[(#[trigger] scorings_of(s)[w]).at as int],
                s[scorings_of(s)[w].last as int],
            )
            &&& scored(s)[k] == checkpoint_of(
                s[scorings_of(s)[w].at as int],
                s[scorings_of(s)[w].last as int],
            )
        };
    assert(is_scorable(s, scorings_of(s)[w].at as int));
}

/// Every prediction that has earned a checkpoint has one.
pub proof fn earned_checkpoints_are_made(s: Seq<Sample>, at: int)
    requires
        s.len() <= usize::MAX,
        0 <= at < s.len(),
        is_scorable(s, at),
        !moved_too_little(s[at], s[session_end(s, at)]),
    ensures
        scored(s).contains(checkpoint_of(s[at], s[session_end(s, at)])),
{
    scorings_are_the_scorable(s, s.len());
    let list = scorings_of(s);
    let k = choose|k: int| 0 <= k < list.len() && (#[trigger] list[k]).at == at;
    assert(list[k].last == session_end(s, at));
    lemma_listed_is_scored(s, list, k);
}

proof fn lemma_listed_is_scored(s: Seq<Sample>, list: Seq<Scoring>, k: int)
    requires
        0 <= k < list.len(),
        !moved_too_little(s[list[k].at as int], s[list[k].last as int]),
    ensures
        scored_among(s, list).contains(
            checkpoint_of(s[list[k].at as int], s[list[k].last as int]),
        ),
    decreases list.len(),
{
    let c = checkpoint_of(s[list[k].at as int], s[list[k].last as int]);
    let rest = list.drop_last();
    let before = scored_among(s, rest);
    let all = scored_among(s, list);
    if k < rest.len() {
        assert(rest[k] == list[k]);
        lemma_listed_is_scored(s, rest, k);
        let i = choose|i: int| 0 <= i < before.len() && before[i] == c;
        assert(all[i] == c);
    } else {
        assert(all[all.len() - 1] == c);
    }
}

proof fn lemma_scored(s: Seq<Sample>, list: Seq<Scoring>, k: int)
    requires
        0 <= k < scored_among(s, list).len(),
    ensures
        exists|w: int|
            {
                &&& 0 <= w < list.len()
                &&& !moved_too_little(s[(#[trigger] list[w]).at as int], s[list[w].last as int])
                &&& scored_among(s, list)[k] == checkpoint_of(
                    s[list[w].at as int],
                    s[list[w].last as int],
                )
            },
    decreases list.len(),
{
    let rest = list.drop_last();
    let before = scored_among(s, rest);
    if k < before.len() {
        lemma_scored(s, rest, k);
        let w = choose|w: int|
            {
                &&& 0 <= w < rest.len()
                &&& !moved_too_little(s[(#[trigger] rest[w]).at as int], s[rest[w].last as int])
                &&& before[k] == checkpoint_of(s[rest[w].at as int], s[rest[w].last as int])
            };
        assert(list[w] == rest[w]);
    } else {
        assert(list[list.len() - 1] == list.last());
    }
}

// How the predictions have fared.

/// How the predictions have fared.
#[derive(Clone, Copy, Debug, PartialEq, Eq, Structural)]
pub struct Accuracy {
    pub checkpoints: usize,
    /// Mean absolute error of the model, in minutes.
    pub model_error_min: Quantity,
    /// Mean absolute error of the instant reading, in minutes.
    pub instant_error_min: Option<Quantity>,
    /// Signed mean error: positive means the model promised too much.
    pub model_bias_min: Quantity,
    /// Share of model predictions within ten percent of what happened.
    pub within_ten_percent: Quantity,
}

/// Minutes missed, added up.
pub open spec fn total_miss(p: Seq<Checkpoint>) -> nat
    decreases p.len(),
{
    if p.len() == 0 {
        0
    } else {
        total_miss(p.drop_last()) + p.last().miss()
    }
}

/// Signed minutes missed, added up.
pub open spec fn total_error(p: Seq<Checkpoint>) -> int
    decreases p.len(),
{
    if p.len() == 0 {
        0
    } else {
        total_error(p.drop_last()) + p.last().error()
    }
}

/// Minutes missed by the instant readings, added up.
pub open spec fn total_instant_miss(p: Seq<Checkpoint>) -> nat
    decreases p.len(),
{
    if p.len() == 0 {
        0
    } else {
        total_instant_miss(p.drop_last()) + match p.last().instant_miss() {
            Some(m) => m,
            None => 0,
        }
    }
}

/// How many checkpoints have an instant reading.
pub open spec fn instant_readings(p: Seq<Checkpoint>) -> nat
    decreases p.len(),
{
    if p.len() == 0 {
        0
    } else if p.last().instant_min is Some {
        instant_readings(p.drop_last()) + 1
    } else {
        instant_readings(p.drop_last())
    }
}

/// How many checkpoints came close.
pub open spec fn close_calls(p: Seq<Checkpoint>) -> nat
    decreases p.len(),
{
    if p.len() == 0 {
        0
    } else if p.last().is_close() {
        close_calls(p.drop_last()) + 1
    } else {
        close_calls(p.drop_last())
    }
}

/// The checkpoints since a moment.
pub open spec fn since_moment(p: Seq<Checkpoint>, since: u64) -> Seq<Checkpoint>
    decreases p.len(),
{
    if p.len() == 0 {
        Seq::empty()
    } else if p.last().t >= since {
        since_moment(p.drop_last(), since).push(p.last())
    } else {
        since_moment(p.drop_last(), since)
    }
}

/// The checkpoints since a moment.
pub fn points_since(points: &Vec<Checkpoint>, since: u64) -> (r: Vec<Checkpoint>)
    ensures
        r@ == since_moment(points@, since),
{
    let mut out: Vec<Checkpoint> = Vec::new();
    let mut i: usize = 0;
    assert(points@.take(0) =~= Seq::<Checkpoint>::empty());
    while i < points.len()
        invariant
            i <= points.len(),
            out@ == since_moment(points@.take(i as int), since),
        decreases points.len() - i,
    {
        assert(points@.take(i + 1).drop_last() =~= points@.take(i as int));
        if points[i].t >= since {
            out.push(points[i]);
        }
        i += 1;
    }
    assert(points@.take(points.len() as int) =~= points@);
    out
}

/// Minutes missed, added up one after the other.
pub open spec fn miss_sum(p: Seq<Checkpoint>) -> Quantity
    decreases p.len(),
{
    if p.len() == 0 {
        Quantity { bits: 0 }
    } else {
        sum(miss_sum(p.drop_last()), whole(p.last().miss()))
    }
}

/// Signed minutes missed, added up one after the other.
pub open spec fn error_sum(p: Seq<Checkpoint>) -> Quantity
    decreases p.len(),
{
    if p.len() == 0 {
        Quantity { bits: 0 }
    } else {
        sum(error_sum(p.drop_last()), signed_whole(p.last().error()))
    }
}

/// Minutes missed by the instant readings, added up one after the other.
pub open spec fn instant_sum(p: Seq<Checkpoint>) -> Quantity
    decreases p.len(),
{
    if p.len() == 0 {
        Quantity { bits: 0 }
    } else {
        match p.last().instant_miss() {
            Some(m) => sum(instant_sum(p.drop_last()), whole(m)),
            None => instant_sum(p.drop_last()),
        }
    }
}

/// How the checkpoints `p` have fared, if there are any.
pub open spec fn accuracy_of(p: Seq<Checkpoint>) -> Option<Accuracy> {
    if p.len() == 0 {
        None
    } else {
        Some(
            Accuracy {
                checkpoints: p.len() as usize,
                model_error_min: quotient(miss_sum(p), whole(p.len())),
                instant_error_min: if instant_readings(p) == 0 {
                    None
                } else {
                    Some(quotient(instant_sum(p), whole(instant_readings(p))))
                },
                model_bias_min: quotient(error_sum(p), whole(p.len())),
                within_ten_percent: quotient(whole(close_calls(p)), whole(p.len())),
            },
        )
    }
}

/// How the predictions since `since` have fared, or `None` with nothing
/// scored yet.
pub fn accuracy(points: &Vec<Checkpoint>, since: u64) -> (r: Option<Accuracy>)
    ensures
        r == accuracy_of(since_moment(points@, since)),
{
    let p = points_since(points, since);
    if p.len() == 0 {
        return None;
    }
    let mut miss = Quantity::zero();
    let mut bias = Quantity::zero();
    let mut instant = Quantity::zero();
    let mut readings: usize = 0;
    let mut close: usize = 0;
    let mut i: usize = 0;
    assert(p@.take(0) =~= Seq::<Checkpoint>::empty());
    while i < p.len()
        invariant
            i <= p.len(),
            miss == miss_sum(p@.take(i as int)),
            bias == error_sum(p@.take(i as int)),
            instant == instant_sum(p@.take(i as int)),
            readings == instant_readings(p@.take(i as int)),
            readings <= i,
            close == close_calls(p@.take(i as int)),
            close <= i,
        decreases p.len() - i,
    {
        let c = p[i];
        assert(p@.take(i + 1).drop_last() =~= p@.take(i as int));
        assert(p@.take(i + 1).last() == c);
        miss = miss.plus(Quantity::of(c.miss_min() as u64));
        bias = bias.plus(Quantity::of_signed(c.error_min()));
        if let Some(m) = c.instant_min {
            let off: u32 = if m < c.realized_min {
                c.realized_min - m
            } else {
                m - c.realized_min
            };
            instant = instant.plus(Quantity::of(off as u64));
            readings += 1;
        }
        if c.close() {
            close += 1;
        }
        i += 1;
    }
    assert(p@.take(p.len() as int) =~= p@);
    let n = Quantity::of(p.len() as u64);
    let instant_error_min = if readings > 0 {
        Some(instant.over(Quantity::of(readings as u64)))
    } else {
        None
    };
    Some(
        Accuracy {
            checkpoints: p.len(),
            model_error_min: miss.over(n),
            instant_error_min,
            model_bias_min: bias.over(n),
            within_ten_percent: Quantity::of(close as u64).over(n),
        },
    )
}

/// The minutes missed of up to a million checkpoints are added up without any
/// loss.
pub proof fn errors_add_up_exactly(p: Seq<Checkpoint>)
    requires
        p.len() <= 0x10_0000,
    ensures
        total_miss(p) <= p.len() * 0xffff_ffff,
        total_instant_miss(p) <= p.len() * 0xffff_ffff,
        miss_sum(p) == whole(total_miss(p)),
        instant_sum(p) == whole(total_instant_miss(p)),
    decreases p.len(),
{
    if p.len() == 0 {
        crate::binary::nothing_is_zero();
    } else {
        let rest = p.drop_last();
        errors_add_up_exactly(rest);
        crate::binary::small_sums_are_exact(total_miss(rest), p.last().miss());
        if let Some(m) = p.last().instant_miss() {
            crate::binary::small_sums_are_exact(total_instant_miss(rest), m);
        }
    }
}

/// The signed minutes missed of up to a million checkpoints are added up
/// without any loss too.
pub proof fn signed_errors_add_up_exactly(p: Seq<Checkpoint>)
    requires
        p.len() <= 0x10_0000,
    ensures
        -(p.len() * 0xffff_ffff) <= total_error(p) <= p.len() * 0xffff_ffff,
        crate::binary::is_finite(error_sum(p)),
        crate::binary::value(error_sum(p)) == total_error(p) * crate::binary::one_in_units(),
    decreases p.len(),
{
    let one = crate::binary::one_in_units() as int;
    if p.len() == 0 {
        assert(0 * one == 0);
    } else {
        let rest = p.drop_last();
        signed_errors_add_up_exactly(rest);
        let e = p.last().error();
        let t = total_error(rest);
        crate::binary::small_wholes_are_exact(extent(e));
        crate::binary::small_wholes_are_exact(extent(t + e));
        assert((-e) * one == -(e * one)) by (nonlinear_arith);
        assert((-(t + e)) * one == -((t + e) * one)) by (nonlinear_arith);
        assert((t + e) * one == t * one + e * one) by (nonlinear_arith);
        let added = signed_whole(e);
        assert(crate::binary::value(added) == e * one);
        let exact = (t + e) * one;
        if exact != 0 {
            crate::binary::values_stay(whole(extent(t + e)).magnitude() as nat);
            assert((t + e > 0) == (exact > 0)) by (nonlinear_arith)
                requires
                    exact == (t + e) * one,
                    exact != 0,
                    one > 0,
            ;
        }
    }
}

spec fn extent(n: int) -> nat {
    if n < 0 {
        (-n) as nat
    } else {
        n as nat
    }
}

/// The mean bias is never greater than the mean error, either way.
pub proof fn bias_stays_within_the_error(p: Seq<Checkpoint>)
    requires
        0 < p.len() <= 0x10_0000,
    ensures
        ({
            let a = accuracy_of(p)->0;
            &&& accuracy_of(p) is Some
            &&& a.model_bias_min.at_most(a.model_error_min)
            &&& crate::binary::negated(a.model_error_min).at_most(a.model_bias_min)
        }),
{
    let one = crate::binary::one_in_units();
    let n = whole(p.len());
    errors_add_up_exactly(p);
    signed_errors_add_up_exactly(p);
    accuracy_hangs_together(p);
    crate::binary::small_wholes_are_exact(p.len());
    crate::binary::small_wholes_are_exact(total_miss(p));
    let bias = error_sum(p);
    let miss = miss_sum(p);
    let q = crate::binary::size(n);
    let t = total_error(p);
    assert(crate::binary::size(bias) <= crate::binary::size(miss)) by {
        let m = total_miss(p);
        assert(-(m * one) <= t * one <= m * one) by (nonlinear_arith)
            requires
                -m <= t <= m,
        ;
    }
    crate::binary::larger_factors_make_more(
        crate::binary::size(bias),
        crate::binary::size(miss),
        one,
    );
    let x = crate::binary::size(bias) * one;
    let y = crate::binary::size(miss) * one;
    crate::binary::nearest_exists(x, q);
    crate::binary::nearest_exists(y, q);
    crate::binary::nearest_keeps_order(
        x,
        y,
        q,
        crate::binary::nearest(x, q),
        crate::binary::nearest(y, q),
    );
}

/// No more can be close than were scored, the bias is never greater than the
/// error either way, and a model that always hit has neither.
pub proof fn accuracy_hangs_together(p: Seq<Checkpoint>)
    ensures
        close_calls(p) <= p.len(),
        instant_readings(p) <= p.len(),
        -total_miss(p) <= total_error(p) <= total_miss(p),
        total_miss(p) == 0 ==> total_error(p) == 0 && close_calls(p) == p.len(),
    decreases p.len(),
{
    if p.len() > 0 {
        accuracy_hangs_together(p.drop_last());
    }
}

/// A model that always hit has no error and no bias, and all its predictions
/// are within ten percent.
pub proof fn perfect_predictions_score_perfectly(p: Seq<Checkpoint>)
    requires
        0 < p.len() <= 0x10_0000,
        forall|i: int| 0 <= i < p.len() ==> (#[trigger] p[i]).error() == 0,
    ensures
        ({
            let a = accuracy_of(p)->0;
            &&& accuracy_of(p) is Some
            &&& a.model_error_min == (Quantity { bits: 0 })
            &&& a.model_bias_min == (Quantity { bits: 0 })
            &&& a.within_ten_percent == (Quantity { bits: ONE_BITS })
        }),
{
    nothing_missed(p);
    errors_add_up_exactly(p);
    accuracy_hangs_together(p);
    crate::binary::nothing_is_zero();
    crate::binary::small_wholes_are_exact(p.len());
    crate::binary::parts_of_nothing_are_nothing(whole(p.len()));
    crate::binary::only_zeros_have_no_size(whole(p.len()));
    crate::binary::parts_of_itself_are_one(whole(p.len()));
}

proof fn nothing_missed(p: Seq<Checkpoint>)
    requires
        forall|i: int| 0 <= i < p.len() ==> (#[trigger] p[i]).error() == 0,
    ensures
        total_miss(p) == 0,
        error_sum(p) == (Quantity { bits: 0 }),
    decreases p.len(),
{
    if p.len() > 0 {
        let rest = p.drop_last();
        assert forall|i: int| 0 <= i < rest.len() implies (#[trigger] rest[i]).error() == 0 by {
            assert(rest[i] == p[i]);
        }
        nothing_missed(rest);
        assert(p[p.len() - 1].error() == 0);
        crate::binary::nothing_is_zero();
        crate::binary::small_sums_are_exact(0, 0);
    }
}

} // verus!
