//! Which samples are taken, and what is kept of those that were stored.

use crate::estimate::Estimate;
use crate::power::{BatteryInfo, PowerState};
use crate::sample::Sample;
use vstd::prelude::*;

verus! {

/// Samples older than this are dropped when the history loads.
pub const MAX_AGE_SECS: u64 = 2_592_000;

/// At least this many samples a minute apart are kept, and one more is taken
/// whenever the percent or the state changes.
pub const SAMPLE_INTERVAL_SECS: u64 = 60;

/// Whether a sample is due: there is none yet, or time has moved on and
/// either a minute has passed or the percent or the state is another.
pub open spec fn is_due(s: Seq<Sample>, percent: u8, state: PowerState, now: u64) -> bool {
    s.len() == 0 || {
        &&& now > s.last().t
        &&& {
            ||| now >= s.last().t + SAMPLE_INTERVAL_SECS
            ||| s.last().percent != percent
            ||| s.last().state != state
        }
    }
}

/// The sample that a reading and its estimate make.
pub open spec fn sample_of(
    battery: BatteryInfo,
    estimate: Estimate,
    now: u64,
) -> Sample {
    Sample {
        t: now,
        percent: battery.percent,
        energy_wh: battery.energy_now_wh,
        energy_full_wh: battery.energy_full_wh,
        power_w: battery.power_watts,
        state: battery.power_state(),
        predicted_min: estimate.minutes,
        instant_min: estimate.instant_minutes,
    }
}

/// Whether every sample is later than the one before it, by a minute unless
/// the percent or the state changed.
pub open spec fn is_spaced(s: Seq<Sample>) -> bool {
    forall|i: int| 0 < i < s.len() ==> #[trigger] spaced_at(s, i)
}

/// Whether sample `i` comes at least a minute after the one before it, or
/// later and with another percentage or state.
pub open spec fn spaced_at(s: Seq<Sample>, i: int) -> bool {
    let a = s[i - 1];
    let b = s[i];
    &&& b.t > a.t
    &&& b.t >= a.t + SAMPLE_INTERVAL_SECS || b.percent != a.percent || b.state != a.state
}

/// Recording keeps one sample a minute unless something changes: a history
/// that is spaced so stays spaced so.
pub proof fn recording_keeps_samples_spaced(
    s: Seq<Sample>,
    battery: BatteryInfo,
    estimate: Estimate,
    now: u64,
)
    requires
        is_spaced(s),
        is_due(s, battery.percent, battery.power_state(), now),
    ensures
        is_spaced(s.push(sample_of(battery, estimate, now))),
{
    let next = s.push(sample_of(battery, estimate, now));
    assert forall|i: int| 0 < i < next.len() implies #[trigger] spaced_at(next, i) by {
        if i < s.len() {
            assert(spaced_at(s, i));
        }
    }
}

/// Right after a sample is taken, the same reading is not due again.
pub proof fn recording_twice_adds_once(
    s: Seq<Sample>,
    battery: BatteryInfo,
    estimate: Estimate,
    now: u64,
    later: u64,
)
    requires
        later < now + SAMPLE_INTERVAL_SECS,
    ensures
        !is_due(
            s.push(sample_of(battery, estimate, now)),
            battery.percent,
            battery.power_state(),
            later,
        ),
{
}

/// `s`, oldest first, with `x` put behind everything that is not later.
pub open spec fn placed(s: Seq<Sample>, x: Sample) -> Seq<Sample>
    decreases s.len(),
{
    if s.len() == 0 || s.last().t <= x.t {
        s.push(x)
    } else {
        placed(s.drop_last(), x).push(s.last())
    }
}

/// The samples ordered by time; those of one moment keep their order.
pub open spec fn by_time(s: Seq<Sample>) -> Seq<Sample>
    decreases s.len(),
{
    if s.len() == 0 {
        Seq::empty()
    } else {
        placed(by_time(s.drop_last()), s.last())
    }
}

/// Whether no sample is earlier than one before it.
pub open spec fn in_order(s: Seq<Sample>) -> bool {
    forall|i: int, j: int| 0 <= i <= j < s.len() ==> s[i].t <= s[j].t
}

proof fn lemma_placed(s: Seq<Sample>, x: Sample)
    requires
        in_order(s),
    ensures
        in_order(placed(s, x)),
        placed(s, x).len() == s.len() + 1,
        placed(s, x).to_multiset() == s.to_multiset().insert(x),
        forall|i: int|
            0 <= i <= s.len() ==> (#[trigger] placed(s, x)[i]).t <= x.t || placed(s, x)[i].t
                <= s.last().t,
    decreases s.len(),
{
    broadcast use vstd::seq_lib::group_to_multiset_ensures;

    if s.len() == 0 || s.last().t <= x.t {
    } else {
        let rest = s.drop_last();
        lemma_placed(rest, x);
        let p = placed(rest, x);
        assert(s =~= rest.push(s.last()));
        assert forall|i: int| 0 <= i < p.len() implies (#[trigger] p[i]).t <= s.last().t by {
            if rest.len() > 0 {
                assert(rest.last() == s[s.len() - 2]);
                assert(rest.last().t <= s.last().t);
            }
        }
        assert(placed(s, x).to_multiset() =~= s.to_multiset().insert(x));
    }
}

/// Ordering by time loses nothing, adds nothing and leaves the samples in
/// order.
pub proof fn ordering_keeps_every_sample(s: Seq<Sample>)
    ensures
        in_order(by_time(s)),
        by_time(s).len() == s.len(),
        by_time(s).to_multiset() == s.to_multiset(),
    decreases s.len(),
{
    broadcast use vstd::seq_lib::group_to_multiset_ensures;

    if s.len() > 0 {
        let rest = s.drop_last();
        ordering_keeps_every_sample(rest);
        lemma_placed(by_time(rest), s.last());
        assert(s =~= rest.push(s.last()));
        assert(by_time(s).to_multiset() =~= s.to_multiset());
    } else {
        assert(by_time(s) =~= s);
    }
}

/// A history that is in order is left as it is.
pub proof fn ordering_leaves_order_alone(s: Seq<Sample>)
    requires
        in_order(s),
    ensures
        by_time(s) == s,
    decreases s.len(),
{
    if s.len() > 0 {
        let rest = s.drop_last();
        assert(in_order(rest));
        ordering_leaves_order_alone(rest);
        if rest.len() > 0 {
            assert(rest.last() == s[s.len() - 2]);
        }
        assert(s =~= rest.push(s.last()));
    } else {
        assert(by_time(s) =~= s);
    }
}

/// Whether a sample is young enough to be kept at `now`.
pub open spec fn is_young(x: Sample, now: u64) -> bool {
    x.t >= crate::sample::elapsed(MAX_AGE_SECS, now)
}

/// The samples that are young enough to be kept at `now`.
pub open spec fn young(s: Seq<Sample>, now: u64) -> Seq<Sample> {
    s.filter(|x: Sample| is_young(x, now))
}

/// What is kept of a stored history at `now`.
pub open spec fn kept(stored: Seq<Sample>, now: u64) -> Seq<Sample> {
    young(by_time(stored), now)
}

/// Of the samples of one moment, the order is kept.
pub proof fn ordering_is_stable(s: Seq<Sample>, t: u64)
    ensures
        by_time(s).filter(|x: Sample| x.t == t) == s.filter(|x: Sample| x.t == t),
    decreases s.len(),
{
    reveal(Seq::filter);
    if s.len() > 0 {
        let rest = s.drop_last();
        ordering_is_stable(rest, t);
        ordering_keeps_every_sample(rest);
        lemma_placed_is_stable(by_time(rest), s.last(), t);
    }
}

proof fn lemma_placed_is_stable(s: Seq<Sample>, x: Sample, t: u64)
    requires
        in_order(s),
    ensures
        placed(s, x).filter(|y: Sample| y.t == t) == if x.t == t {
            s.filter(|y: Sample| y.t == t).push(x)
        } else {
            s.filter(|y: Sample| y.t == t)
        },
    decreases s.len(),
{
    reveal(Seq::filter);
    let p = |y: Sample| y.t == t;
    if s.len() == 0 || s.last().t <= x.t {
        assert(s.push(x).drop_last() =~= s);
    } else {
        let rest = s.drop_last();
        lemma_placed_is_stable(rest, x, t);
        assert(placed(s, x).drop_last() =~= placed(rest, x));
        if x.t == t {
            assert(!p(s.last()));
        }
    }
}

proof fn lemma_filter_is_ordered(s: Seq<Sample>, now: u64)
    requires
        in_order(s),
    ensures
        in_order(young(s, now)),
        forall|i: int|
            0 <= i < young(s, now).len() ==> is_young(
                #[trigger] young(s, now)[i],
                now,
            ),
        s.len() > 0 && young(s, now).len() > 0 ==> young(s, now).last().t <= s.last().t,
    decreases s.len(),
{
    reveal(Seq::filter);
    if s.len() > 0 {
        let rest = s.drop_last();
        lemma_filter_is_ordered(rest, now);
        let before = young(rest, now);
        let all = young(s, now);
        if rest.len() > 0 {
            assert(rest.last() == s[s.len() - 2]);
            assert(rest.last().t <= s.last().t);
        }
        if is_young(s.last(), now) {
            assert(all =~= before.push(s.last()));
            assert forall|i: int, j: int| 0 <= i <= j < all.len() implies all[i].t <= all[j].t by {
                if j < before.len() {
                    assert(all[i] == before[i] && all[j] == before[j]);
                } else if i < before.len() {
                    assert(all[i] == before[i]);
                    assert(before[i].t <= before[before.len() - 1].t);
                }
            }
        } else {
            assert(all =~= before);
        }
    }
}

proof fn lemma_filter_keeps_the_young(s: Seq<Sample>, now: u64)
    requires
        forall|i: int| 0 <= i < s.len() ==> is_young(#[trigger] s[i], now),
    ensures
        young(s, now) == s,
    decreases s.len(),
{
    reveal(Seq::filter);
    if s.len() > 0 {
        assert(is_young(s[s.len() - 1], now));
        assert forall|i: int| 0 <= i < s.drop_last().len() implies is_young(
            #[trigger] s.drop_last()[i],
            now,
        ) by {
            assert(s.drop_last()[i] == s[i]);
        }
        lemma_filter_keeps_the_young(s.drop_last(), now);
        assert(s =~= s.drop_last().push(s.last()));
    }
}

/// What is kept is in order, is no older than thirty days, and is kept
/// unchanged when it is taken up again at the same moment.
pub proof fn loading_settles(stored: Seq<Sample>, now: u64)
    ensures
        in_order(kept(stored, now)),
        forall|i: int|
            0 <= i < kept(stored, now).len() ==> is_young(#[trigger] kept(stored, now)[i], now),
        kept(kept(stored, now), now) == kept(stored, now),
{
    ordering_keeps_every_sample(stored);
    lemma_filter_is_ordered(by_time(stored), now);
    ordering_leaves_order_alone(kept(stored, now));
    lemma_filter_keeps_the_young(kept(stored, now), now);
}

/// A history in order with nothing too old in it is taken up as it is.
pub proof fn loading_keeps_a_young_history(stored: Seq<Sample>, now: u64)
    requires
        in_order(stored),
        forall|i: int| 0 <= i < stored.len() ==> is_young(#[trigger] stored[i], now),
    ensures
        kept(stored, now) == stored,
{
    ordering_leaves_order_alone(stored);
    lemma_filter_keeps_the_young(stored, now);
}

/// `s`, oldest first, samples of one moment in the order they had.
pub fn sort_by_time(s: &Vec<Sample>) -> (r: Vec<Sample>)
    ensures
        r@ == by_time(s@),
{
    let mut out: Vec<Sample> = Vec::new();
    let mut i: usize = 0;
    assert(s@.take(0) =~= Seq::<Sample>::empty());
    while i < s.len()
        invariant
            i <= s.len(),
            out@ == by_time(s@.take(i as int)),
            out.len() == i,
        decreases s.len() - i,
    {
        let x = s[i];
        let ghost sorted = out@;
        assert(s@.take(i + 1).drop_last() =~= s@.take(i as int));
        assert(s@.take(i + 1).last() == x);
        let mut at: usize = out.len();
        assert(sorted.take(at as int) =~= sorted);
        assert(placed(sorted, x) =~= placed(sorted.take(at as int), x) + sorted.skip(at as int));
        while at > 0 && out[at - 1].t > x.t
            invariant
                at <= out.len(),
                out@ == sorted,
                placed(sorted, x) == placed(sorted.take(at as int), x) + sorted.skip(at as int),
            decreases at,
        {
            let ghost head = sorted.take(at as int);
            assert(head.last() == sorted[at - 1]);
            assert(head.drop_last() =~= sorted.take(at - 1));
            assert(placed(head.drop_last(), x).push(head.last()) + sorted.skip(at as int)
                =~= placed(head.drop_last(), x) + sorted.skip(at - 1));
            at -= 1;
        }
        assert(placed(sorted.take(at as int), x) == sorted.take(at as int).push(x)) by {
            if at > 0 {
                assert(sorted.take(at as int).last() == sorted[at - 1]);
            }
        }
        out.insert(at, x);
        assert(out@ =~= sorted.take(at as int).push(x) + sorted.skip(at as int));
        i += 1;
    }
    assert(s@.take(s.len() as int) =~= s@);
    out
}

} // verus!
