//! Sessions: the contiguous runs of one power state that a history falls
//! into.

use crate::power::PowerState;
use crate::sample::Sample;
use vstd::prelude::*;

verus! {

/// A silence longer than this (suspend, app closed) ends a session.
pub const SESSION_GAP_SECS: u64 = 600;

/// Whether sample `i` opens a session: it is the first, its state is another
/// one than that of the sample before, or it comes after a long silence.
pub open spec fn opens(s: Seq<Sample>, i: int) -> bool {
    ||| i == 0
    ||| s[i].state != s[i - 1].state
    ||| crate::sample::elapsed(s[i - 1].t, s[i].t) > SESSION_GAP_SECS
}

/// The sessions of a history, in order.
pub open spec fn sessions_of(s: Seq<Sample>) -> Seq<Seq<Sample>>
    decreases s.len(),
{
    if s.len() == 0 {
        Seq::empty()
    } else {
        let before = sessions_of(s.drop_last());
        if opens(s, s.len() - 1) {
            before.push(seq![s.last()])
        } else {
            before.drop_last().push(before.last().push(s.last()))
        }
    }
}

/// The samples of each slice.
pub open spec fn contents(slices: Seq<&[Sample]>) -> Seq<Seq<Sample>> {
    slices.map_values(|x: &[Sample]| x@)
}

/// One session behind the other.
pub open spec fn chained(sessions: Seq<Seq<Sample>>) -> Seq<Sample>
    decreases sessions.len(),
{
    if sessions.len() == 0 {
        Seq::empty()
    } else {
        chained(sessions.drop_last()) + sessions.last()
    }
}

/// Whether `x` is a contiguous run of one state with no long silence inside.
pub open spec fn is_session(x: Seq<Sample>) -> bool {
    &&& x.len() > 0
    &&& forall|i: int| 0 < i < x.len() ==> !#[trigger] opens(x, i)
}

/// The last session ends in the latest sample.
pub proof fn sessions_end_with_the_history(s: Seq<Sample>)
    requires
        s.len() > 0,
    ensures
        sessions_of(s).len() > 0,
        sessions_of(s).last().len() > 0,
        sessions_of(s).last().last() == s.last(),
    decreases s.len(),
{
    if !opens(s, s.len() - 1) {
        sessions_end_with_the_history(s.drop_last());
    }
}

/// The sessions, one behind the other, are the history again: no sample is
/// lost, moved or counted twice.
pub proof fn sessions_partition_the_history(s: Seq<Sample>)
    ensures
        chained(sessions_of(s)) == s,
    decreases s.len(),
{
    if s.len() > 0 {
        let rest = s.drop_last();
        sessions_partition_the_history(rest);
        let before = sessions_of(rest);
        let all = sessions_of(s);
        assert(s =~= rest.push(s.last()));
        if opens(s, s.len() - 1) {
            assert(all.drop_last() =~= before);
            assert(chained(all) =~= rest + seq![s.last()]);
        } else {
            sessions_end_with_the_history(rest);
            assert(all.drop_last() =~= before.drop_last());
            assert(chained(all) =~= chained(before).push(s.last()));
        }
    }
}

/// Every session is a contiguous run of one state with no long silence.
pub proof fn sessions_are_unbroken(s: Seq<Sample>)
    ensures
        forall|k: int| 0 <= k < sessions_of(s).len() ==> is_session(#[trigger] sessions_of(s)[k]),
    decreases s.len(),
{
    if s.len() > 0 {
        let rest = s.drop_last();
        sessions_are_unbroken(rest);
        let before = sessions_of(rest);
        let all = sessions_of(s);
        if opens(s, s.len() - 1) {
            assert(is_session(seq![s.last()]));
        } else {
            sessions_end_with_the_history(rest);
            let grown = before.last().push(s.last());
            assert(is_session(before.last()));
            assert forall|i: int| 0 < i < grown.len() implies !#[trigger] opens(grown, i) by {
                if i < before.last().len() {
                    assert(!opens(before.last(), i));
                } else {
                    assert(before.last().last() == rest.last());
                    assert(rest.last() == s[s.len() - 2]);
                    assert(grown[i - 1] == s[s.len() - 2]);
                    assert(grown[i] == s.last());
                }
            }
            assert(is_session(grown));
        }
    }
}

/// Two neighbouring sessions differ in state or have a long silence between
/// them: no session could have been longer.
pub proof fn sessions_are_maximal(s: Seq<Sample>)
    ensures
        forall|k: int|
            0 < k < sessions_of(s).len() ==> {
                let a = sessions_of(s)[k - 1].last();
                let b = (#[trigger] sessions_of(s)[k]).first();
                a.state != b.state || crate::sample::elapsed(a.t, b.t) > SESSION_GAP_SECS
            },
    decreases s.len(),
{
    if s.len() > 0 {
        let rest = s.drop_last();
        sessions_are_maximal(rest);
        sessions_are_unbroken(rest);
        let before = sessions_of(rest);
        let all = sessions_of(s);
        assert forall|k: int| 0 < k < all.len() implies {
            let a = all[k - 1].last();
            let b = (#[trigger] all[k]).first();
            a.state != b.state || crate::sample::elapsed(a.t, b.t) > SESSION_GAP_SECS
        } by {
            if rest.len() > 0 {
                sessions_end_with_the_history(rest);
                assert(rest.last() == s[s.len() - 2]);
            }
            assert(is_session(before[k - 1]));
            if k < before.len() {
                assert(is_session(before[k]));
                assert(all[k - 1] == before[k - 1]);
                assert(all[k].first() == before[k].first());
            }
        }
    }
}

/// The session still running at `now`, if it is in `state`: the last one,
/// when its last sample is no longer ago than a session's silence may be.
pub open spec fn running_session(s: Seq<Sample>, state: PowerState, now: u64) -> Option<
    Seq<Sample>,
> {
    if s.len() > 0 && s.last().state == state && crate::sample::elapsed(s.last().t, now)
        <= SESSION_GAP_SECS {
        Some(sessions_of(s).last())
    } else {
        None
    }
}

/// The session that is running ends in the latest sample and is in the state
/// that was asked for throughout.
pub proof fn running_sessions_are_current(s: Seq<Sample>, state: PowerState, now: u64)
    ensures
        running_session(s, state, now) matches Some(x) ==> {
            &&& is_session(x)
            &&& x.last() == s.last()
            &&& forall|i: int| 0 <= i < x.len() ==> (#[trigger] x[i]).state == state
        },
{
    if let Some(x) = running_session(s, state, now) {
        sessions_end_with_the_history(s);
        sessions_are_unbroken(s);
        assert(is_session(sessions_of(s)[sessions_of(s).len() - 1]));
        lemma_one_state(x, (x.len() - 1) as int);
    }
}

proof fn lemma_one_state(x: Seq<Sample>, from: int)
    requires
        is_session(x),
        0 <= from < x.len(),
    ensures
        forall|i: int| 0 <= i <= from ==> (#[trigger] x[i]).state == x[from].state,
    decreases from,
{
    if from > 0 {
        assert(!opens(x, from));
        lemma_one_state(x, from - 1);
    }
}

} // verus!
