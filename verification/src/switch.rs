//! Switching to another power profile.
//!
//! A switch goes through the daemon where there is one, else through the
//! system's profile service, else straight to the CPU controls, and last
//! through an authorization helper. Each function here takes what the last
//! step brought back and names the next step.

use crate::profile::validate_profile;
use crate::text::{contains, joined, starts_with, trim};
use vstd::prelude::*;

verus! {

/// What an authorization helper left behind.
pub struct HelperOutput {
    pub success: bool,
    pub stderr: String,
}

/// What a step of a switch brought back. Errors are carried as their text.
pub enum SwitchEvent {
    /// Nothing was tried yet.
    Requested,
    /// The daemon's reply, trimmed.
    PowerdReplied(Result<String, String>),
    /// Whether the system's profile service is installed.
    ServiceLookedUp(bool),
    /// Whether the profile service accepted the change.
    ServiceRan(Result<bool, String>),
    /// Whether the CPU controls could be written.
    ControlsWritten(Result<(), String>),
    /// Whether this program's own executable was found.
    ExecutableLocated(Result<(), String>),
    /// Which helpers are installed. `run0` is of use only on a system that
    /// was booted with systemd.
    HelpersLookedUp { run0: bool, systemd_booted: bool, pkexec: bool },
    /// How the helper ended.
    HelperRan(Result<HelperOutput, String>),
}

/// What to do next.
pub enum SwitchStep {
    /// Send this request to the daemon.
    AskPowerd(String),
    LookUpService,
    RunService,
    WriteControls,
    LocateExecutable,
    LookUpHelpers,
    RunRun0,
    RunPkexec,
    Done(Result<(), String>),
}

/// Whether `step` ends the switch with this error.
pub open spec fn fails_with(step: SwitchStep, error: Seq<char>) -> bool {
    step matches SwitchStep::Done(r) && r matches Err(e) && e@ == error
}

/// Whether `step` ends the switch with success.
pub open spec fn succeeds(step: SwitchStep) -> bool {
    step matches SwitchStep::Done(r) && r is Ok
}

/// Whether an error means that only the right to write was missing.
pub open spec fn lacks_permission(error: Seq<char>) -> bool {
    crate::text::holds(error, "Permission denied"@) || crate::text::holds(
        error,
        "Read-only file system"@,
    )
}

/// Whether an error means that only the right to write was missing.
pub fn is_permission_error(error: &str) -> (r: bool)
    ensures
        r == lacks_permission(error@),
{
    contains(error, "Permission denied") || contains(error, "Read-only file system")
}

/// What is said when a helper failed: what it printed, or that nobody
/// authorized it.
pub open spec fn helper_failure(stderr: Seq<char>) -> Seq<char> {
    let said = crate::text::trimmed(stderr);
    if said.len() == 0 {
        "The profile was not changed. Authorization was cancelled or denied."@
    } else {
        "The profile was not changed: "@ + said
    }
}

/// Which step follows an event.
pub open spec fn follows(profile: Seq<char>, event: SwitchEvent, step: SwitchStep) -> bool {
    match event {
        SwitchEvent::Requested => if crate::profile::is_profile(profile) {
            step matches SwitchStep::AskPowerd(request) && request@ == "profile "@ + profile
        } else {
            fails_with(step, crate::profile::invalid_profile(profile))
        },
        SwitchEvent::PowerdReplied(Ok(reply)) => if !crate::text::begins(reply@, "error"@) {
            succeeds(step)
        } else if !crate::text::holds(reply@, "unknown command"@) {
            fails_with(step, "raven-powerd refused: "@ + reply@)
        } else {
            step is LookUpService
        },
        SwitchEvent::PowerdReplied(Err(_)) => step is LookUpService,
        SwitchEvent::ServiceLookedUp(found) => if found {
            step is RunService
        } else {
            step is WriteControls
        },
        SwitchEvent::ServiceRan(Ok(accepted)) => if accepted {
            succeeds(step)
        } else {
            fails_with(step, "The system power-profile service rejected this change"@)
        },
        SwitchEvent::ServiceRan(Err(e)) => fails_with(
            step,
            "Could not start the system profile service: "@ + e@,
        ),
        SwitchEvent::ControlsWritten(Ok(_)) => succeeds(step),
        SwitchEvent::ControlsWritten(Err(e)) => if lacks_permission(e@) {
            step is LocateExecutable
        } else {
            fails_with(step, e@)
        },
        SwitchEvent::ExecutableLocated(Ok(_)) => step is LookUpHelpers,
        SwitchEvent::ExecutableLocated(Err(e)) => fails_with(
            step,
            "Could not locate the Raven Power executable: "@ + e@,
        ),
        SwitchEvent::HelpersLookedUp { run0, systemd_booted, pkexec } => if run0
            && systemd_booted {
            step is RunRun0
        } else if pkexec {
            step is RunPkexec
        } else {
            fails_with(
                step,
                "Raven Power needs raven-powerd, run0, or pkexec to change kernel power settings"@,
            )
        },
        SwitchEvent::HelperRan(Ok(output)) => if output.success {
            succeeds(step)
        } else {
            fails_with(step, helper_failure(output.stderr@))
        },
        SwitchEvent::HelperRan(Err(e)) => fails_with(
            step,
            "Could not request authorization: "@ + e@,
        ),
    }
}

fn helper_error(stderr: &str) -> (r: String)
    ensures
        r@ == helper_failure(stderr@),
{
    let said = trim(stderr);
    if said.is_empty() {
        "The profile was not changed. Authorization was cancelled or denied.".to_owned()
    } else {
        joined("The profile was not changed: ", said)
    }
}

/// One step of a switch to `profile`.
pub fn set_power_profile(profile: &str, event: SwitchEvent) -> (r: SwitchStep)
    ensures
        follows(profile@, event, r),
{
    match event {
        SwitchEvent::Requested => match validate_profile(profile) {
            Ok(_) => SwitchStep::AskPowerd(joined("profile ", profile)),
            Err(e) => SwitchStep::Done(Err(e)),
        },
        SwitchEvent::PowerdReplied(Ok(reply)) => if !starts_with(reply.as_str(), "error") {
            SwitchStep::Done(Ok(()))
        } else if !contains(reply.as_str(), "unknown command") {
            SwitchStep::Done(Err(joined("raven-powerd refused: ", reply.as_str())))
        } else {
            SwitchStep::LookUpService
        },
        SwitchEvent::PowerdReplied(Err(_)) => SwitchStep::LookUpService,
        SwitchEvent::ServiceLookedUp(found) => if found {
            SwitchStep::RunService
        } else {
            SwitchStep::WriteControls
        },
        SwitchEvent::ServiceRan(Ok(accepted)) => if accepted {
            SwitchStep::Done(Ok(()))
        } else {
            SwitchStep::Done(
                Err("The system power-profile service rejected this change".to_owned()),
            )
        },
        SwitchEvent::ServiceRan(Err(e)) => SwitchStep::Done(
            Err(joined("Could not start the system profile service: ", e.as_str())),
        ),
        SwitchEvent::ControlsWritten(Ok(_)) => SwitchStep::Done(Ok(())),
        SwitchEvent::ControlsWritten(Err(e)) => if is_permission_error(e.as_str()) {
            SwitchStep::LocateExecutable
        } else {
            SwitchStep::Done(Err(e))
        },
        SwitchEvent::ExecutableLocated(Ok(_)) => SwitchStep::LookUpHelpers,
        SwitchEvent::ExecutableLocated(Err(e)) => SwitchStep::Done(
            Err(joined("Could not locate the Raven Power executable: ", e.as_str())),
        ),
        SwitchEvent::HelpersLookedUp { run0, systemd_booted, pkexec } => if run0
            && systemd_booted {
            SwitchStep::RunRun0
        } else if pkexec {
            SwitchStep::RunPkexec
        } else {
            SwitchStep::Done(
                Err(
                    "Raven Power needs raven-powerd, run0, or pkexec to change kernel power settings".to_owned(),
                ),
            )
        },
        SwitchEvent::HelperRan(Ok(output)) => if output.success {
            SwitchStep::Done(Ok(()))
        } else {
            SwitchStep::Done(Err(helper_error(output.stderr.as_str())))
        },
        SwitchEvent::HelperRan(Err(e)) => SwitchStep::Done(
            Err(joined("Could not request authorization: ", e.as_str())),
        ),
    }
}

/// Whether an event reports that somebody took the change.
pub open spec fn took_the_change(event: SwitchEvent) -> bool {
    match event {
        SwitchEvent::PowerdReplied(Ok(reply)) => !crate::text::begins(reply@, "error"@),
        SwitchEvent::ServiceRan(Ok(accepted)) => accepted,
        SwitchEvent::ControlsWritten(r) => r is Ok,
        SwitchEvent::HelperRan(Ok(output)) => output.success,
        _ => false,
    }
}

/// A switch succeeds exactly when the daemon, the service, the controls or a
/// helper took the change.
pub proof fn success_needs_a_taker(profile: Seq<char>, event: SwitchEvent, step: SwitchStep)
    requires
        follows(profile, event, step),
    ensures
        succeeds(step) <==> took_the_change(event),
{
}

/// A request for anything but a preset ends at once with an error: nothing is
/// asked, run or written for it.
pub proof fn unknown_profiles_go_nowhere(profile: Seq<char>, step: SwitchStep)
    requires
        !crate::profile::is_profile(profile),
        follows(profile, SwitchEvent::Requested, step),
    ensures
        fails_with(step, crate::profile::invalid_profile(profile)),
{
}

/// How far a switch has come when an event is reported.
pub open spec fn event_stage(event: SwitchEvent) -> nat {
    match event {
        SwitchEvent::Requested => 0,
        SwitchEvent::PowerdReplied(_) => 1,
        SwitchEvent::ServiceLookedUp(_) => 2,
        SwitchEvent::ServiceRan(_) => 3,
        SwitchEvent::ControlsWritten(_) => 3,
        SwitchEvent::ExecutableLocated(_) => 4,
        SwitchEvent::HelpersLookedUp { .. } => 5,
        SwitchEvent::HelperRan(_) => 6,
    }
}

/// How far a switch has come when a step has been taken.
pub open spec fn step_stage(step: SwitchStep) -> nat {
    match step {
        SwitchStep::AskPowerd(_) => 1,
        SwitchStep::LookUpService => 2,
        SwitchStep::RunService => 3,
        SwitchStep::WriteControls => 3,
        SwitchStep::LocateExecutable => 4,
        SwitchStep::LookUpHelpers => 5,
        SwitchStep::RunRun0 => 6,
        SwitchStep::RunPkexec => 6,
        SwitchStep::Done(_) => 7,
    }
}

/// Every step brings a switch forward, so that it ends after at most seven.
pub proof fn switches_end(profile: Seq<char>, event: SwitchEvent, step: SwitchStep)
    requires
        follows(profile, event, step),
    ensures
        event_stage(event) < step_stage(step) <= 7,
        !(step is Done) ==> step_stage(step) == event_stage(event) + 1,
{
}

/// The daemon stays the only writer where it answers: the profile service is
/// looked for only when the daemon is out of reach or does not know the
/// request, and the CPU controls are written only when there is no service.
pub proof fn the_daemon_stays_the_only_writer(
    profile: Seq<char>,
    event: SwitchEvent,
    step: SwitchStep,
)
    requires
        follows(profile, event, step),
    ensures
        step is LookUpService <==> (event matches SwitchEvent::PowerdReplied(r) && (r matches Ok(
            reply,
        ) ==> crate::text::begins(reply@, "error"@) && crate::text::holds(
            reply@,
            "unknown command"@,
        ))),
        step is RunService <==> event == SwitchEvent::ServiceLookedUp(true),
        step is WriteControls <==> event == SwitchEvent::ServiceLookedUp(false),
{
}

/// A helper is run only after the controls could not be written for want of
/// permission, and `run0` only on a system booted with systemd.
pub proof fn helpers_are_the_last_resort(profile: Seq<char>, event: SwitchEvent, step: SwitchStep)
    requires
        follows(profile, event, step),
    ensures
        step is LocateExecutable <==> (event matches SwitchEvent::ControlsWritten(r)
            && r matches Err(e) && lacks_permission(e@)),
        step is LookUpHelpers <==> (event matches SwitchEvent::ExecutableLocated(r) && r is Ok),
        step is RunRun0 <==> (event matches SwitchEvent::HelpersLookedUp {
            run0,
            systemd_booted,
            pkexec,
        } && run0 && systemd_booted),
        step is RunPkexec <==> (event matches SwitchEvent::HelpersLookedUp {
            run0,
            systemd_booted,
            pkexec,
        } && !(run0 && systemd_booted) && pkexec),
{
}

// Application eco mode.

/// The scheduling priority of an application in or out of eco mode.
pub open spec fn eco_priority(eco: bool) -> Seq<char> {
    if eco {
        "10"@
    } else {
        "0"@
    }
}

/// The scheduling priority of an application in or out of eco mode.
pub fn renice_priority(eco: bool) -> (r: &'static str)
    ensures
        r@ == eco_priority(eco),
{
    if eco {
        "10"
    } else {
        "0"
    }
}

/// What became of one process whose priority was to change: whether the
/// request succeeded, or the error that kept it from being made. Lowering a
/// priority may fail quietly; raising it back may not.
pub fn set_process_eco(eco: bool, outcome: Result<bool, String>) -> (r: Result<(), String>)
    ensures
        match outcome {
            Ok(success) => if success || eco {
                r is Ok
            } else {
                r matches Err(e) && e@ == "Restoring normal priority may require authentication"@
            },
            Err(o) => r matches Err(e) && e@ == o@,
        },
{
    match outcome {
        Ok(success) => if !success && !eco {
            Err("Restoring normal priority may require authentication".to_owned())
        } else {
            Ok(())
        },
        Err(e) => Err(e),
    }
}

} // verus!
