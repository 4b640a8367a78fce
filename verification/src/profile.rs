//! Power profiles: their names, what the daemon answers, and which source
//! names the active one.
//!
//! Probing alternates between a question put to the system and a decision.
//! The decisions are here, as a function from what came back to what to do
//! next; whoever drives it asks the question and reports the event.

use crate::files::{read_num, text_or_empty};
use crate::text::{joined, same, trim, word_at};
use vstd::prelude::*;

verus! {

/// Whether `s` names one of the three presets.
pub open spec fn is_profile(s: Seq<char>) -> bool {
    s == "performance"@ || s == "balanced"@ || s == "power-saver"@
}

/// Whether `s` names one of the three presets.
pub fn known_profile(s: &str) -> (r: bool)
    ensures
        r == is_profile(s@),
{
    same(s, "performance") || same(s, "balanced") || same(s, "power-saver")
}

/// What an unknown profile is answered.
pub open spec fn invalid_profile(profile: Seq<char>) -> Seq<char> {
    "Invalid power profile: "@ + profile
}

/// Accepts the three presets and refuses every other name.
pub fn validate_profile(profile: &str) -> (r: Result<(), String>)
    ensures
        r is Ok <==> is_profile(profile@),
        r matches Err(e) ==> e@ == invalid_profile(profile@),
{
    if known_profile(profile) {
        Ok(())
    } else {
        Err(joined("Invalid power profile: ", profile))
    }
}

/// The preset named in a reply: its first word, if that is a preset.
pub open spec fn named_profile(reply: Seq<char>) -> Option<Seq<char>> {
    match crate::text::nth_word(reply, 0) {
        Some(w) => if is_profile(w) {
            Some(w)
        } else {
            None
        },
        None => None,
    }
}

/// The preset named in a raven-powerd reply or marker such as
/// "power-saver (auto)". `None` for "unmanaged" and for errors.
pub fn profile_from_reply(reply: &str) -> (r: Option<String>)
    ensures
        match r {
            Some(p) => named_profile(reply@) == Some(p@),
            None => named_profile(reply@) is None,
        },
{
    match word_at(reply, 0) {
        Some(w) => if known_profile(w) {
            Some(w.to_owned())
        } else {
            None
        },
        None => None,
    }
}

/// A reply never names anything but a preset.
pub proof fn replies_name_presets_only(reply: Seq<char>)
    ensures
        named_profile(reply) matches Some(p) ==> is_profile(p),
{
}

/// One line to raven-powerd.
pub fn powerd_line(request: &str) -> (r: String)
    ensures
        r@ == request@ + "\n"@,
{
    joined(request, "\n")
}

/// One line from raven-powerd, trimmed.
pub fn powerd_reply(line: &str) -> (r: String)
    ensures
        r@ == crate::text::trimmed(line@),
{
    trim(line).to_owned()
}

/// What is said when the daemon's socket cannot be reached.
pub fn powerd_unreachable(error: &str) -> (r: String)
    ensures
        r@ == "raven-powerd is not reachable: "@ + error@,
{
    joined("raven-powerd is not reachable: ", error)
}

// The active profile.

/// What was learnt from one of the sources that may name the active profile.
/// The text of a source that did not answer is `None`.
pub enum ProbeEvent {
    /// The daemon's reply to "profile".
    Powerd(Option<String>),
    /// The daemon's published marker.
    Marker(Option<String>),
    /// What the system's profile service printed, where it succeeded.
    Service(Option<String>),
    /// The first CPU policy: its governor, its current and its hardware
    /// frequency limit.
    CpuPolicy { governor: Option<String>, current_max: Option<String>, hardware_max: Option<String> },
}

/// Which source to ask next, or the profile that was found.
pub enum Probe {
    ReadMarker,
    AskService,
    ReadCpuPolicy,
    Found(String),
}

/// The current frequency limit, zero when it cannot be read.
pub open spec fn current_limit(current_max: Option<String>) -> nat {
    match crate::files::file_number(current_max) {
        Some(n) => n,
        None => 0,
    }
}

/// The hardware frequency limit, the current one when it cannot be read.
pub open spec fn hardware_limit(current_max: Option<String>, hardware_max: Option<String>) -> nat {
    match crate::files::file_number(hardware_max) {
        Some(n) => n,
        None => current_limit(current_max),
    }
}

/// The profile that a CPU policy's controls amount to: the performance
/// governor is the performance profile, a limit of at most 70% of what the
/// hardware can do is the power saver, anything else is balanced.
pub open spec fn policy_profile(
    governor: Option<String>,
    current_max: Option<String>,
    hardware_max: Option<String>,
) -> Seq<char> {
    let current = current_limit(current_max);
    let hardware = hardware_limit(current_max, hardware_max);
    if crate::files::file_text(governor) == "performance"@ {
        "performance"@
    } else if hardware > 0 && current * 100 / hardware <= 70 {
        "power-saver"@
    } else {
        "balanced"@
    }
}

/// The profile that a CPU policy's controls amount to.
pub fn profile_of_policy(
    governor: &Option<String>,
    current_max: &Option<String>,
    hardware_max: &Option<String>,
) -> (r: String)
    ensures
        r@ == policy_profile(*governor, *current_max, *hardware_max),
{
    if same(text_or_empty(governor).as_str(), "performance") {
        return "performance".to_owned();
    }
    let current: u64 = match read_num(current_max) {
        Some(n) => n,
        None => 0,
    };
    let hardware: u64 = match read_num(hardware_max) {
        Some(n) => n,
        None => current,
    };
    if hardware > 0 && current as u128 * 100 / hardware as u128 <= 70 {
        "power-saver".to_owned()
    } else {
        "balanced".to_owned()
    }
}

/// What a probe's event leads to. The daemon that owns the governor goes
/// first, then its marker, then the system's profile service, then the CPU
/// policy itself.
pub open spec fn probed(event: ProbeEvent, next: Probe) -> bool {
    match event {
        ProbeEvent::Powerd(reply) => match reply {
            Some(t) => match named_profile(t@) {
                Some(p) => next matches Probe::Found(f) && f@ == p,
                None => next is ReadMarker,
            },
            None => next is ReadMarker,
        },
        ProbeEvent::Marker(marker) => match marker {
            Some(t) => match named_profile(t@) {
                Some(p) => next matches Probe::Found(f) && f@ == p,
                None => next is AskService,
            },
            None => next is AskService,
        },
        ProbeEvent::Service(printed) => match printed {
            Some(t) => next matches Probe::Found(f) && f@ == crate::text::trimmed(t@),
            None => next is ReadCpuPolicy,
        },
        ProbeEvent::CpuPolicy { governor, current_max, hardware_max } => {
            next matches Probe::Found(f) && f@ == policy_profile(governor, current_max, hardware_max)
        },
    }
}

/// One step towards the active profile.
pub fn active_power_profile(event: &ProbeEvent) -> (r: Probe)
    ensures
        probed(*event, r),
{
    match event {
        ProbeEvent::Powerd(reply) => {
            if let Some(t) = reply {
                if let Some(p) = profile_from_reply(t.as_str()) {
                    return Probe::Found(p);
                }
            }
            Probe::ReadMarker
        },
        ProbeEvent::Marker(marker) => {
            if let Some(t) = marker {
                if let Some(p) = profile_from_reply(t.as_str()) {
                    return Probe::Found(p);
                }
            }
            Probe::AskService
        },
        ProbeEvent::Service(printed) => match printed {
            Some(t) => Probe::Found(trim(t.as_str()).to_owned()),
            None => Probe::ReadCpuPolicy,
        },
        ProbeEvent::CpuPolicy { governor, current_max, hardware_max } => {
            Probe::Found(profile_of_policy(governor, current_max, hardware_max))
        },
    }
}

/// Whatever the CPU policy says, the profile read from it is a preset.
pub proof fn policies_name_presets(
    governor: Option<String>,
    current_max: Option<String>,
    hardware_max: Option<String>,
)
    ensures
        is_profile(policy_profile(governor, current_max, hardware_max)),
{
}

/// The profile that is active by what the sources say: the first of the
/// daemon's reply, its marker and the service's answer that names one, else
/// what the CPU policy amounts to.
pub open spec fn active_profile(
    reply: Option<String>,
    marker: Option<String>,
    printed: Option<String>,
    policy: Seq<char>,
) -> Seq<char> {
    if reply is Some && named_profile(reply->0@) is Some {
        named_profile(reply->0@)->0
    } else if marker is Some && named_profile(marker->0@) is Some {
        named_profile(marker->0@)->0
    } else if printed is Some {
        crate::text::trimmed(printed->0@)
    } else {
        policy
    }
}

/// Asking the sources in turn, each only when the one before it named
/// nothing, ends with the first profile that is named, after at most four
/// questions.
pub proof fn the_first_source_decides(
    reply: Option<String>,
    marker: Option<String>,
    printed: Option<String>,
    governor: Option<String>,
    current_max: Option<String>,
    hardware_max: Option<String>,
    after_powerd: Probe,
    after_marker: Probe,
    after_service: Probe,
    after_policy: Probe,
)
    requires
        probed(ProbeEvent::Powerd(reply), after_powerd),
        probed(ProbeEvent::Marker(marker), after_marker),
        probed(ProbeEvent::Service(printed), after_service),
        probed(ProbeEvent::CpuPolicy { governor, current_max, hardware_max }, after_policy),
    ensures
        after_powerd is Found || after_powerd is ReadMarker,
        after_marker is Found || after_marker is AskService,
        after_service is Found || after_service is ReadCpuPolicy,
        after_policy is Found,
        ({
            let last = if after_powerd is Found {
                after_powerd
            } else if after_marker is Found {
                after_marker
            } else if after_service is Found {
                after_service
            } else {
                after_policy
            };
            last matches Probe::Found(f) && f@ == active_profile(
                reply,
                marker,
                printed,
                policy_profile(governor, current_max, hardware_max),
            )
        }),
{
}

} // verus!
