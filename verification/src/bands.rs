//! The drain learnt in each band of charge.

use crate::power::PowerState;
use crate::quantity::{Quantity, FIVE_BITS, ONE_BITS};
use crate::sample::{Sample, BANDS};
use crate::session::SESSION_GAP_SECS;
use vstd::prelude::*;

verus! {

use crate::binary::{product, quotient, sum, whole};
use crate::sample::{band_of, elapsed, hours, progressed};
use crate::session::opens;

/// One step of a session: from the sample at position `at` of the history to
/// the next one, and the band it starts in.
#[derive(Clone, Copy, Debug, PartialEq, Eq, Structural)]
pub struct BandStep {
    pub at: usize,
    pub band: usize,
}

/// The steps inside the sessions of `state`, in order.
pub open spec fn steps_by_band(s: Seq<Sample>, state: PowerState) -> Seq<BandStep>
    decreases s.len(),
{
    if s.len() < 2 {
        Seq::empty()
    } else {
        let before = steps_by_band(s.drop_last(), state);
        let a = s[s.len() - 2];
        if a.state == state && !opens(s, s.len() - 1) {
            before.push(
                BandStep {
                    at: (s.len() - 2) as usize,
                    band: band_of(a.percent) as usize,
                },
            )
        } else {
            before
        }
    }
}

/// The steps of a state are exactly the pairs of neighbours in that state
/// that no session boundary parts, each once, each in the band it starts in,
/// and none of them longer than a session's silence may be.
pub proof fn band_steps_are_the_steps(s: Seq<Sample>, state: PowerState)
    requires
        s.len() <= usize::MAX,
    ensures
        forall|i: int|
            0 <= i < steps_by_band(s, state).len() ==> {
                let step = #[trigger] steps_by_band(s, state)[i];
                &&& step.at + 1 < s.len()
                &&& s[step.at as int].state == state
                &&& !opens(s, step.at + 1)
                &&& step.band == band_of(s[step.at as int].percent)
                &&& step.band < BANDS
                &&& elapsed(s[step.at as int].t, s[step.at + 1].t)
                    <= SESSION_GAP_SECS
            },
        forall|k: int|
            0 < k < s.len() && !#[trigger] opens(s, k) && s[k - 1].state == state ==> exists|i: int|
                0 <= i < steps_by_band(s, state).len() && (#[trigger] steps_by_band(s, state)[i]).at
                    == k - 1,
        forall|i: int, j: int|
            0 <= i < j < steps_by_band(s, state).len() ==> steps_by_band(s, state)[i].at
                < steps_by_band(s, state)[j].at,
    decreases s.len(),
{
    if s.len() >= 2 {
        let rest = s.drop_last();
        band_steps_are_the_steps(rest, state);
        let before = steps_by_band(rest, state);
        let all = steps_by_band(s, state);
        assert forall|i: int| 0 <= i < all.len() implies {
            let step = #[trigger] all[i];
            &&& step.at + 1 < s.len()
            &&& s[step.at as int].state == state
            &&& !opens(s, step.at + 1)
            &&& step.band == band_of(s[step.at as int].percent)
            &&& step.band < BANDS
            &&& elapsed(s[step.at as int].t, s[step.at + 1].t) <= SESSION_GAP_SECS
        } by {
            if i < before.len() {
                let step = before[i];
                assert(all[i] == step);
                assert(rest[step.at as int] == s[step.at as int]);
                assert(rest[step.at + 1] == s[step.at + 1]);
                assert(!opens(rest, step.at + 1));
            }
        }
        assert forall|k: int|
            0 < k < s.len() && !#[trigger] opens(s, k) && s[k - 1].state == state implies exists|
            i: int,
        |
            0 <= i < all.len() && (#[trigger] all[i]).at == k - 1 by {
            if k < rest.len() {
                assert(!opens(rest, k));
                assert(rest[k - 1] == s[k - 1]);
                let w = choose|w: int| 0 <= w < before.len() && (#[trigger] before[w]).at == k - 1;
                assert(all[w] == before[w]);
            } else {
                assert(all[all.len() - 1].at == k - 1);
            }
        }
        assert forall|i: int, j: int| 0 <= i < j < all.len() implies all[i].at < all[j].at by {
            assert(all[i] == before[i]);
            if j < before.len() {
                assert(all[j] == before[j]);
            } else {
                assert(before[i].at + 1 < rest.len());
            }
        }
    }
}

/// The percent moved in the steps of band `b`.
pub open spec fn moved_in(s: Seq<Sample>, steps: Seq<BandStep>, b: int) -> Quantity
    decreases steps.len(),
{
    if steps.len() == 0 {
        Quantity { bits: 0 }
    } else {
        let before = moved_in(s, steps.drop_last(), b);
        let at = steps.last().at as int;
        if steps.last().band == b {
            sum(before, progressed(s[at], s[at + 1]))
        } else {
            before
        }
    }
}

/// The hours spent in the steps of band `b`.
pub open spec fn hours_in(s: Seq<Sample>, steps: Seq<BandStep>, b: int) -> Quantity
    decreases steps.len(),
{
    if steps.len() == 0 {
        Quantity { bits: 0 }
    } else {
        let before = hours_in(s, steps.drop_last(), b);
        let at = steps.last().at as int;
        if steps.last().band == b {
            sum(before, hours(s[at], s[at + 1]))
        } else {
            before
        }
    }
}

/// The rate of a band, once it is trusted: five minutes and a full percent
/// of movement were seen in it.
pub open spec fn trusted_rate(moved: Quantity, time: Quantity) -> Option<Quantity> {
    if (Quantity { bits: FIVE_BITS }).at_most(product(time, whole(60))) && (Quantity {
        bits: ONE_BITS,
    }).at_most(moved) {
        Some(quotient(moved, time))
    } else {
        None
    }
}

/// The rate learnt in each band from every session of `state`: percent per
/// hour, weighted by time spent there.
pub open spec fn learned_rates(s: Seq<Sample>, state: PowerState) -> Seq<Option<Quantity>> {
    let steps = steps_by_band(s, state);
    Seq::new(
        BANDS as nat,
        |b: int| trusted_rate(moved_in(s, steps, b), hours_in(s, steps, b)),
    )
}

proof fn unvisited_bands_are_empty(s: Seq<Sample>, steps: Seq<BandStep>, b: int)
    requires
        forall|i: int| 0 <= i < steps.len() ==> (#[trigger] steps[i]).band != b,
    ensures
        moved_in(s, steps, b) == (Quantity { bits: 0 }),
        hours_in(s, steps, b) == (Quantity { bits: 0 }),
    decreases steps.len(),
{
    if steps.len() > 0 {
        let rest = steps.drop_last();
        assert forall|i: int| 0 <= i < rest.len() implies (#[trigger] rest[i]).band != b by {
            assert(rest[i] == steps[i]);
        }
        unvisited_bands_are_empty(s, rest, b);
        assert(steps[steps.len() - 1].band != b);
    }
}

/// A band that no session of `state` ever crossed has taught nothing.
pub proof fn nothing_is_learnt_unseen(s: Seq<Sample>, state: PowerState, b: int)
    requires
        0 <= b < BANDS,
        forall|i: int|
            0 <= i < steps_by_band(s, state).len() ==> (#[trigger] steps_by_band(s, state)[i]).band
                != b,
    ensures
        learned_rates(s, state)[b] is None,
{
    unvisited_bands_are_empty(s, steps_by_band(s, state), b);
}

} // verus!
