//! What a profile comes to in the kernel's controls, and what a list shows.

use crate::estimate::Estimate;
use crate::power::PowerState;
use crate::quantity::{Quantity, TWELVE_BITS};
use crate::scoring::Checkpoint;
use crate::supply::Supply;
use vstd::prelude::*;

verus! {

use crate::estimate::duration;
use crate::policy::{frequency_limit, governor_for, preference_for};
use crate::profile::policy_profile;
use crate::settings::switched;
use crate::text::{agrees, trimmed, words};
use crate::view::picked;

/// Each profile gets the governor made for it where the driver has it. To
/// save power the slower of the general ones comes first, otherwise the
/// other; a driver that has neither a fitting nor a general one gets none.
pub proof fn governors_fit_their_profile(available: Seq<char>)
    ensures
        ({
            let on_list = |g: Seq<char>| words(available).contains(g);
            let fast = governor_for("performance"@, available);
            let even = governor_for("balanced"@, available);
            let slow = governor_for("power-saver"@, available);
            &&& on_list("performance"@) ==> fast == Some("performance"@)
            &&& !on_list("performance"@) ==> fast == even
            &&& on_list("powersave"@) ==> slow == Some("powersave"@)
            &&& !on_list("powersave"@) && on_list("ondemand"@) ==> slow == Some("ondemand"@)
            &&& !on_list("powersave"@) && !on_list("ondemand"@) ==> slow == even
            &&& on_list("schedutil"@) ==> even == Some("schedutil"@)
            &&& !on_list("schedutil"@) && on_list("ondemand"@) ==> even == Some("ondemand"@)
            &&& !on_list("schedutil"@) && !on_list("ondemand"@) ==> even is None
        }),
{
    reveal_strlit("performance");
    reveal_strlit("power-saver");
    reveal_strlit("balanced");
    assert("balanced"@.len() != "performance"@.len());
    assert("balanced"@.len() != "power-saver"@.len());
    assert("power-saver"@[1] != "performance"@[1]);
}

/// Saving power takes three fifths of what the hardware can do, to the unit;
/// no other profile takes anything off.
pub proof fn savers_take_three_fifths(profile: Seq<char>, hardware_max: nat)
    ensures
        profile == "power-saver"@ ==> {
            let limit = frequency_limit(profile, hardware_max);
            5 * limit <= 3 * hardware_max < 5 * limit + 5
        },
        profile != "power-saver"@ ==> frequency_limit(profile, hardware_max) == hardware_max,
{
}

/// Each profile has an energy preference of its own.
pub proof fn preferences_fit_their_profile(profile: Seq<char>)
    ensures
        profile == "performance"@ ==> preference_for(profile) == "performance"@,
        profile == "power-saver"@ ==> preference_for(profile) == "power"@,
        profile != "performance"@ && profile != "power-saver"@ ==> preference_for(profile)
            == "balance_performance"@,
{
    reveal_strlit("performance");
    reveal_strlit("power-saver");
    assert("power-saver"@[1] != "performance"@[1]);
}

/// Read back, the performance governor is the performance profile. Otherwise
/// a limit below 71 hundredths of the hardware's is the power saver, and one
/// above it is balanced. Without a hardware limit to compare with the current
/// one counts as all of it.
pub proof fn limits_tell_the_profile(
    governor: Option<String>,
    current_max: Option<String>,
    hardware_max: Option<String>,
)
    ensures
        ({
            let p = policy_profile(governor, current_max, hardware_max);
            let fast = governor is Some && trimmed(governor->0@) == "performance"@;
            let current = crate::files::file_number(current_max);
            let hardware = crate::files::file_number(hardware_max);
            &&& fast ==> p == "performance"@
            &&& !fast ==> p == "power-saver"@ || p == "balanced"@
            &&& !fast && current is Some && hardware is Some && hardware->0 > 0 ==> (p
                == "power-saver"@ <==> 100 * current->0 < 71 * hardware->0)
            &&& !fast && hardware is None ==> p == "balanced"@
            &&& !fast && current is None && hardware is Some && hardware->0 > 0 ==> p
                == "power-saver"@
            &&& !fast && hardware == Some(0nat) ==> p == "balanced"@
        }),
{
    reveal_strlit("performance");
    reveal_strlit("power-saver");
    reveal_strlit("balanced");
    assert("balanced"@.len() != "performance"@.len());
    assert("balanced"@.len() != "power-saver"@.len());
    assert("power-saver"@[1] != "performance"@[1]);
    assert(Seq::<char>::empty() != "performance"@);
    let current = crate::profile::current_limit(current_max) as int;
    let hardware = crate::profile::hardware_limit(current_max, hardware_max) as int;
    if hardware > 0 {
        assert((current * 100 / hardware <= 70) == (current * 100 < 71 * hardware))
            by (nonlinear_arith)
            requires
                hardware > 0,
                current >= 0,
        ;
    }
}

/// Switching an application out of eco mode leaves the others on the list in
/// the order they had; switching one in puts it at the end.
pub proof fn eco_lists_keep_their_order(names: Seq<Seq<char>>, name: Seq<char>)
    ensures
        switched(names, name, false) == names.filter(|x: Seq<char>| x != name),
        names.contains(name) ==> switched(names, name, true) == names,
        !names.contains(name) ==> switched(names, name, true) == names + seq![name],
    decreases names.len(),
{
    reveal(Seq::filter);
    if names.len() > 0 {
        eco_lists_keep_their_order(names.drop_last(), name);
    }
    assert(names.push(name) =~= names + seq![name]);
}

/// An adapter is a supply of one of four kinds that says whether it is
/// online, and it is online unless it says zero.
pub proof fn adapters_are_mains_or_usb(supply: Supply)
    ensures
        ({
            let kind = trimmed(supply.kind->0@);
            let says = crate::files::file_number(supply.online);
            let plugs = supply.kind is Some && (agrees(kind, "Mains"@) || agrees(kind, "USB"@)
                || agrees(kind, "USB_PD"@) || agrees(kind, "USB_C"@));
            &&& crate::supply::is_adapter(supply) <==> plugs && says is Some
            &&& crate::supply::is_online(supply) <==> plugs && says is Some && says->0 > 0
        }),
{
}

/// Of the checkpoints in order of time, none is left out of the list that
/// lies twenty minutes before what is listed above it, until there are six.
pub proof fn lists_leave_out_only_the_near(p: Seq<Checkpoint>, k: int)
    requires
        0 <= k < p.len(),
        forall|i: int, j: int| 0 <= i <= j < p.len() ==> p[i].t <= p[j].t,
        picked(p, Seq::empty()).len() < 6,
    ensures
        exists|i: int|
            0 <= i < picked(p, Seq::empty()).len() && p[k].t <= (
            #[trigger] picked(p, Seq::empty())[i]).t < p[k].t + 1200,
{
    picks_are_near(p, Seq::empty(), k);
}

proof fn picks_are_near(p: Seq<Checkpoint>, chosen: Seq<Checkpoint>, k: int)
    requires
        0 <= k < p.len(),
        forall|i: int, j: int| 0 <= i <= j < p.len() ==> p[i].t <= p[j].t,
        chosen.len() > 0 ==> p.last().t <= chosen.last().t,
        crate::view::is_listable(chosen),
        picked(p, chosen).len() < 6,
    ensures
        exists|i: int|
            0 <= i < picked(p, chosen).len() && p[k].t <= (#[trigger] picked(p, chosen)[i]).t
                < p[k].t + 1200,
    decreases p.len(),
{
    let shown = picked(p, chosen);
    crate::view::picks_are_listable(p, chosen);
    let x = p.last();
    let rest = p.drop_last();
    assert(chosen.len() < 6);
    let far = chosen.len() == 0 || crate::sample::elapsed(x.t, chosen.last().t) >= 1200;
    let next = if far {
        chosen.push(x)
    } else {
        chosen
    };
    assert(shown == picked(rest, next));
    if far {
        let n = chosen.len() as int;
        assert forall|i: int, j: int| 0 <= i < j < next.len() implies (#[trigger] next[j]).t + 1200
            <= (#[trigger] next[i]).t by {
            assert(next[i] == chosen[i]);
            if j < n {
                assert(next[j] == chosen[j]);
            } else if i < n - 1 {
                assert(chosen[n - 1].t + 1200 <= chosen[i].t);
            }
        }
    }
    crate::view::picks_are_listable(rest, next);
    if k < rest.len() {
        assert(rest[k] == p[k]);
        if rest.len() > 0 {
            assert(rest.last() == p[p.len() - 2]);
            assert(p[p.len() - 2].t <= p[p.len() - 1].t);
        }
        picks_are_near(rest, next, k);
    } else {
        let at = next.len() - 1;
        assert(shown.take(next.len() as int)[at] == next[at]);
        assert(shown[at] == next.last());
    }
}

/// The windows of the charts are three hours, twelve, a day and a week.
pub proof fn windows_are_hours_and_days(entry: int)
    ensures
        entry == 0 ==> crate::view::range_of(entry) == Some((3 * 3600) as u64),
        entry == 1 ==> crate::view::range_of(entry) == Some((12 * 3600) as u64),
        entry == 2 ==> crate::view::range_of(entry) == Some((24 * 3600) as u64),
        entry == 3 ==> crate::view::range_of(entry) == Some((7 * 24 * 3600) as u64),
        entry < 0 || entry > 3 ==> crate::view::range_of(entry) is None,
{
}

/// A prediction within two minutes was spot on; one that promised more than
/// came was too optimistic, one that promised less too cautious, by as many
/// minutes as it missed.
pub proof fn verdicts_go_by_the_miss(c: Checkpoint)
    ensures
        ({
            let said = crate::view::verdict_words(c);
            let by = c.predicted_min - c.realized_min;
            &&& -2 <= by <= 2 ==> said == "spot on"@
            &&& by > 2 ==> said == duration(by as nat) + " too optimistic"@
            &&& by < -2 ==> said == duration((-by) as nat) + " too cautious"@
        }),
{
}

/// The list shown is at most six long, latest first, each entry at least
/// twenty minutes before the one above it.
pub proof fn lists_are_six_long_at_most(p: Seq<Checkpoint>)
    ensures
        picked(p, Seq::empty()).len() <= 6,
        forall|i: int, j: int|
            0 <= i < j < picked(p, Seq::empty()).len() ==> (
            #[trigger] picked(p, Seq::empty())[j]).t + 1200 <= (
            #[trigger] picked(p, Seq::empty())[i]).t,
{
    crate::view::picks_are_listable(p, Seq::empty());
}

/// Off the adapter, the headline spells the compact form out: it says that
/// what is left is left, and while charging the two are one. On the adapter
/// they tell a full battery, from 99 percent on, from one that is held.
pub proof fn headlines_spell_out_the_short_form(e: Estimate, percent: u8)
    ensures
        ({
            let (long, short) = (e.headline_text(percent), e.short_text(percent));
            &&& e.minutes matches Some(m) ==> {
                &&& e.state == PowerState::OnBattery ==> long == short + " left"@ && short
                    == duration(m as nat)
                &&& e.state == PowerState::Charging ==> long == short && short == duration(
                    m as nat,
                ) + " to full"@
            }
            &&& e.state == PowerState::PluggedIn && percent >= 99 ==> long == "Fully charged"@
                && short == "Full"@
            &&& e.state == PowerState::PluggedIn && percent < 99 ==> short == "Not charging"@
                && long == "Holding at "@ + crate::text::decimal(percent as nat) + "%"@
        }),
{
}

/// A battery counts as excellent above 85 percent of its design capacity, an
/// observation as at least a minute, and a drain as high above twelve watts.
pub proof fn views_draw_their_lines(health: u8, e: Estimate)
    ensures
        crate::view::is_excellent(health) <==> health > 85,
        crate::view::observed_span(e) >= 1,
        e.observed_minutes > 0 ==> crate::view::observed_span(e) == e.observed_minutes,
        e.observed_minutes == 0 ==> crate::view::observed_span(e) == 1,
        crate::exact::is_at(Quantity { bits: TWELVE_BITS }, 12),
{
    vstd::arithmetic::power2::lemma2_to64();
    crate::exact::patterns_are_at(TWELVE_BITS, 0x18_0000_0000_0000, 3, 12);
}

} // verus!
