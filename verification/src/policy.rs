//! What a power profile writes to the kernel's CPU frequency controls.

use crate::files::{read_num, text_or_empty};
use crate::profile::validate_profile;
use crate::text::{has_word, joined, same, starts_with};
use vstd::prelude::*;

verus! {

/// The governor that `profile` asks for, of those listed as available: the
/// one made for the profile where the driver has it, else the best general
/// one.
pub open spec fn governor_for(profile: Seq<char>, available: Seq<char>) -> Option<Seq<char>> {
    let listed = crate::text::words(available);
    if profile == "performance"@ && listed.contains("performance"@) {
        Some("performance"@)
    } else if profile == "power-saver"@ && listed.contains("powersave"@) {
        Some("powersave"@)
    } else if profile == "power-saver"@ && listed.contains("ondemand"@) {
        Some("ondemand"@)
    } else if listed.contains("schedutil"@) {
        Some("schedutil"@)
    } else if listed.contains("ondemand"@) {
        Some("ondemand"@)
    } else {
        None
    }
}

/// The governor that `profile` asks for, or why there is none.
pub fn choose_governor(profile: &str, available: &str) -> (r: Result<&'static str, String>)
    ensures
        match r {
            Ok(g) => governor_for(profile@, available@) == Some(g@),
            Err(e) => governor_for(profile@, available@) is None && e@
                == "No suitable CPU governor is available for "@ + profile@,
        },
{
    if same(profile, "performance") && has_word(available, "performance") {
        Ok("performance")
    } else if same(profile, "power-saver") && has_word(available, "powersave") {
        Ok("powersave")
    } else if same(profile, "power-saver") && has_word(available, "ondemand") {
        Ok("ondemand")
    } else if has_word(available, "schedutil") {
        Ok("schedutil")
    } else if has_word(available, "ondemand") {
        Ok("ondemand")
    } else {
        Err(joined("No suitable CPU governor is available for ", profile))
    }
}

/// A governor is only ever chosen from those the driver lists.
pub proof fn chosen_governors_are_available(profile: Seq<char>, available: Seq<char>)
    ensures
        governor_for(profile, available) matches Some(g) ==> crate::text::words(
            available,
        ).contains(g),
{
}

/// The frequency limit that `profile` sets on hardware that can do
/// `hardware_max`: 60% of it to save power, all of it otherwise.
pub open spec fn frequency_limit(profile: Seq<char>, hardware_max: nat) -> nat {
    if profile == "power-saver"@ {
        hardware_max * 60 / 100
    } else {
        hardware_max
    }
}

/// The frequency limit that `profile` sets.
pub fn target_frequency(profile: &str, hardware_max: u64) -> (r: u64)
    ensures
        r == frequency_limit(profile@, hardware_max as nat),
{
    if same(profile, "power-saver") {
        (hardware_max as u128 * 60 / 100) as u64
    } else {
        hardware_max
    }
}

/// No profile asks for more than the hardware can do.
pub proof fn limits_stay_within_the_hardware(profile: Seq<char>, hardware_max: nat)
    ensures
        frequency_limit(profile, hardware_max) <= hardware_max,
{
}

/// The energy preference that goes with `profile`.
pub open spec fn preference_for(profile: Seq<char>) -> Seq<char> {
    if profile == "performance"@ {
        "performance"@
    } else if profile == "power-saver"@ {
        "power"@
    } else {
        "balance_performance"@
    }
}

/// The energy preference to write for `profile`, if the driver lists it.
pub fn choose_preference(profile: &str, available: &str) -> (r: Option<&'static str>)
    ensures
        match r {
            Some(p) => p@ == preference_for(profile@) && crate::text::words(available@).contains(
                p@,
            ),
            None => !crate::text::words(available@).contains(preference_for(profile@)),
        },
{
    let preferred: &'static str = if same(profile, "performance") {
        "performance"
    } else if same(profile, "power-saver") {
        "power"
    } else {
        "balance_performance"
    };
    if has_word(available, preferred) {
        Some(preferred)
    } else {
        None
    }
}

/// What a failed write to a control is reported as.
pub fn control_error(path: &str, error: &str) -> (r: String)
    ensures
        r@ == path@ + ": "@ + error@,
{
    joined(joined(path, ": ").as_str(), error)
}

/// What a step of applying a profile to one CPU policy brought back.
pub enum PolicyEvent {
    /// The governors that the policy lists.
    Governors(Option<String>),
    GovernorWritten(Result<(), String>),
    /// The hardware's frequency limit, and whether the policy takes one.
    Hardware { hardware_max: Option<String>, takes_limit: bool },
    LimitWritten(Result<(), String>),
    /// Whether the policy takes an energy preference, and those it lists.
    Preferences { takes_preference: bool, available: Option<String> },
    PreferenceWritten(Result<(), String>),
}

/// What to do next with a CPU policy.
pub enum PolicyStep {
    WriteGovernor(&'static str),
    ReadHardware,
    WriteLimit(u64),
    ReadPreferences,
    WritePreference(&'static str),
    Done(Result<(), String>),
}

/// Whether `step` gives up on the policy with this error.
pub open spec fn gives_up(step: PolicyStep, error: Seq<char>) -> bool {
    step matches PolicyStep::Done(r) && r matches Err(e) && e@ == error
}

/// Whether `step` ends with the policy set.
pub open spec fn settles(step: PolicyStep) -> bool {
    step matches PolicyStep::Done(r) && r is Ok
}

/// Which step follows an event: the governor first, then the frequency
/// limit, then the energy preference. A failed write ends it.
pub open spec fn policy_follows(profile: Seq<char>, event: PolicyEvent, step: PolicyStep) -> bool {
    match event {
        PolicyEvent::Governors(available) => match governor_for(
            profile,
            crate::files::file_text(available),
        ) {
            Some(g) => step matches PolicyStep::WriteGovernor(w) && w@ == g,
            None => gives_up(step, "No suitable CPU governor is available for "@ + profile),
        },
        PolicyEvent::GovernorWritten(Ok(_)) => step is ReadHardware,
        PolicyEvent::GovernorWritten(Err(e)) => gives_up(step, e@),
        PolicyEvent::Hardware { hardware_max, takes_limit } => match crate::files::file_number(
            hardware_max,
        ) {
            Some(n) => if takes_limit {
                step matches PolicyStep::WriteLimit(w) && w == frequency_limit(profile, n)
            } else {
                step is ReadPreferences
            },
            None => step is ReadPreferences,
        },
        PolicyEvent::LimitWritten(Ok(_)) => step is ReadPreferences,
        PolicyEvent::LimitWritten(Err(e)) => gives_up(step, e@),
        PolicyEvent::Preferences { takes_preference, available } => if takes_preference
            && crate::text::words(crate::files::file_text(available)).contains(
            preference_for(profile),
        ) {
            step matches PolicyStep::WritePreference(w) && w@ == preference_for(profile)
        } else {
            settles(step)
        },
        PolicyEvent::PreferenceWritten(Ok(_)) => settles(step),
        PolicyEvent::PreferenceWritten(Err(e)) => gives_up(step, e@),
    }
}

/// One step of applying `profile` to a CPU policy.
pub fn apply_policy(profile: &str, event: PolicyEvent) -> (r: PolicyStep)
    ensures
        policy_follows(profile@, event, r),
{
    match event {
        PolicyEvent::Governors(available) => match choose_governor(
            profile,
            text_or_empty(&available).as_str(),
        ) {
            Ok(g) => PolicyStep::WriteGovernor(g),
            Err(e) => PolicyStep::Done(Err(e)),
        },
        PolicyEvent::GovernorWritten(Ok(_)) => PolicyStep::ReadHardware,
        PolicyEvent::GovernorWritten(Err(e)) => PolicyStep::Done(Err(e)),
        PolicyEvent::Hardware { hardware_max, takes_limit } => {
            if let Some(n) = read_num(&hardware_max) {
                let target = target_frequency(profile, n);
                if takes_limit {
                    return PolicyStep::WriteLimit(target);
                }
            }
            PolicyStep::ReadPreferences
        },
        PolicyEvent::LimitWritten(Ok(_)) => PolicyStep::ReadPreferences,
        PolicyEvent::LimitWritten(Err(e)) => PolicyStep::Done(Err(e)),
        PolicyEvent::Preferences { takes_preference, available } => {
            if takes_preference {
                if let Some(p) = choose_preference(profile, text_or_empty(&available).as_str()) {
                    return PolicyStep::WritePreference(p);
                }
            }
            PolicyStep::Done(Ok(()))
        },
        PolicyEvent::PreferenceWritten(Ok(_)) => PolicyStep::Done(Ok(())),
        PolicyEvent::PreferenceWritten(Err(e)) => PolicyStep::Done(Err(e)),
    }
}

/// Whatever is written to a policy is something the policy lists, or a limit
/// that its hardware can meet.
pub proof fn writes_are_within_the_policy(profile: Seq<char>, event: PolicyEvent, step: PolicyStep)
    requires
        policy_follows(profile, event, step),
    ensures
        step matches PolicyStep::WriteGovernor(w) ==> (event matches PolicyEvent::Governors(
            available,
        ) && crate::text::words(crate::files::file_text(available)).contains(w@)),
        step matches PolicyStep::WriteLimit(w) ==> (event matches PolicyEvent::Hardware {
            hardware_max,
            ..
        } && crate::files::file_number(hardware_max) matches Some(n) && w <= n),
        step matches PolicyStep::WritePreference(w) ==> (event matches PolicyEvent::Preferences {
            available,
            ..
        } && crate::text::words(crate::files::file_text(available)).contains(w@)),
{
}

/// Whether a directory entry is a CPU policy.
pub open spec fn is_policy(name: Seq<char>) -> bool {
    crate::text::begins(name, "policy"@)
}

/// The positions of the CPU policies among `entries`.
pub open spec fn policy_positions(entries: Seq<String>) -> Seq<usize>
    decreases entries.len(),
{
    if entries.len() == 0 {
        Seq::empty()
    } else {
        let before = policy_positions(entries.drop_last());
        if is_policy(entries.last()@) {
            before.push((entries.len() - 1) as usize)
        } else {
            before
        }
    }
}

/// Every position is that of a policy, every policy is among them, and they
/// come in the order of the directory.
pub proof fn policy_positions_are_the_policies(entries: Seq<String>)
    requires
        entries.len() <= usize::MAX,
    ensures
        forall|i: int|
            0 <= i < policy_positions(entries).len() ==> {
                let p = #[trigger] policy_positions(entries)[i];
                p < entries.len() && is_policy(entries[p as int]@)
            },
        forall|k: int|
            0 <= k < entries.len() && is_policy(#[trigger] entries[k]@)
                ==> policy_positions(entries).contains(k as usize),
        forall|i: int, j: int|
            0 <= i < j < policy_positions(entries).len() ==> policy_positions(entries)[i]
                < policy_positions(entries)[j],
    decreases entries.len(),
{
    if entries.len() > 0 {
        let rest = entries.drop_last();
        policy_positions_are_the_policies(rest);
        let before = policy_positions(rest);
        let all = policy_positions(entries);
        assert forall|i: int| 0 <= i < all.len() implies {
            let p = #[trigger] all[i];
            p < entries.len() && is_policy(entries[p as int]@)
        } by {
            if i < before.len() {
                assert(all[i] == before[i]);
                assert(rest[before[i] as int] == entries[before[i] as int]);
            }
        }
        assert forall|k: int|
            0 <= k < entries.len() && is_policy(#[trigger] entries[k]@) implies all.contains(
            k as usize,
        ) by {
            if k < rest.len() {
                assert(rest[k] == entries[k]);
                assert(before.contains(k as usize));
                let w = choose|w: int| 0 <= w < before.len() && before[w] == k as usize;
                assert(all[w] == k as usize);
            } else {
                assert(all.last() == k as usize);
            }
        }
        assert forall|i: int, j: int| 0 <= i < j < all.len() implies all[i] < all[j] by {
            assert(all[i] == before[i]);
            if j < before.len() {
                assert(all[j] == before[j]);
            } else {
                assert(before[i] < rest.len());
            }
        }
    }
}

/// The CPU policies that `profile` is to be applied to, as positions among
/// the entries of the frequency directory (`None` when it cannot be listed),
/// or why it cannot be applied.
pub fn apply_profile_sysfs(profile: &str, entries: &Option<Vec<String>>) -> (r: Result<
    Vec<usize>,
    String,
>)
    ensures
        !crate::profile::is_profile(profile@) ==> (r matches Err(e) && e@
            == crate::profile::invalid_profile(profile@)),
        crate::profile::is_profile(profile@) ==> match entries {
            None => r matches Err(e) && e@
                == "This system does not expose CPU frequency controls"@,
            Some(names) => if policy_positions(names@).len() == 0 {
                r matches Err(e) && e@
                    == "This CPU driver does not expose any controllable policies"@
            } else {
                r matches Ok(v) && v@ == policy_positions(names@)
            },
        },
{
    match validate_profile(profile) {
        Ok(_) => {},
        Err(e) => {
            return Err(e);
        },
    }
    match entries {
        None => Err("This system does not expose CPU frequency controls".to_owned()),
        Some(names) => {
            let mut found: Vec<usize> = Vec::new();
            let mut i: usize = 0;
            assert(names@.take(0) =~= Seq::<String>::empty());
            while i < names.len()
                invariant
                    i <= names.len(),
                    found@ == policy_positions(names@.take(i as int)),
                decreases names.len() - i,
            {
                assert(names@.take(i + 1).drop_last() =~= names@.take(i as int));
                if starts_with(names[i].as_str(), "policy") {
                    found.push(i);
                }
                i += 1;
            }
            assert(names@.take(names.len() as int) =~= names@);
            if found.is_empty() {
                Err("This CPU driver does not expose any controllable policies".to_owned())
            } else {
                Ok(found)
            }
        },
    }
}

/// A profile that was written to a policy's controls, governor and frequency
/// limit, is the profile that is read from them. Only "performance" on a
/// driver without a governor of that name is not to be told from "balanced".
pub proof fn written_profiles_read_back(
    profile: Seq<char>,
    available: Seq<char>,
    governor: Option<String>,
    current_max: Option<String>,
    hardware_max: Option<String>,
)
    requires
        crate::profile::is_profile(profile),
        governor_for(profile, available) == Some(crate::files::file_text(governor)),
        crate::files::file_number(hardware_max) matches Some(n) && n > 0
            && crate::files::file_number(current_max) == Some(frequency_limit(profile, n)),
        profile == "performance"@ ==> crate::text::words(available).contains("performance"@),
    ensures
        crate::profile::policy_profile(governor, current_max, hardware_max) == profile,
{
    reveal_strlit("performance");
    reveal_strlit("power-saver");
    reveal_strlit("balanced");
    reveal_strlit("powersave");
    reveal_strlit("ondemand");
    reveal_strlit("schedutil");
    let n = crate::files::file_number(hardware_max)->0;
    let limit = frequency_limit(profile, n);
    if profile == "power-saver"@ {
        assert(limit * 100 / n <= 70) by (nonlinear_arith)
            requires
                limit == n * 60 / 100,
                n > 0,
        {
            assert(limit * 100 <= n * 60);
            assert(limit * 100 / n <= 60) by {
                assert(limit * 100 < (60 + 1) * n);
            }
        }
    } else {
        assert(n * 100 / n == 100) by (nonlinear_arith)
            requires
                n > 0,
        ;
    }
    assert("ondemand"@.len() != "performance"@.len());
    assert("schedutil"@.len() != "performance"@.len());
    assert("powersave"@.len() != "performance"@.len());
    assert("power-saver"@[1] != "performance"@[1]);
    assert("balanced"@.len() != "performance"@.len());
    assert("balanced"@.len() != "power-saver"@.len());
}

} // verus!
