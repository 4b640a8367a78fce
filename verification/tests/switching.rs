use raven_power::policy::{
    apply_policy, apply_profile_sysfs, choose_governor, choose_preference, control_error,
    target_frequency, PolicyEvent, PolicyStep,
};
use raven_power::profile::{
    active_power_profile, known_profile, powerd_line, powerd_reply, powerd_unreachable,
    profile_of_policy, validate_profile, Probe, ProbeEvent,
};
use raven_power::switch::{
    is_permission_error, renice_priority, set_power_profile, set_process_eco, HelperOutput,
    SwitchEvent, SwitchStep,
};

fn text(s: &str) -> Option<String> {
    Some(s.to_string())
}

fn found(probe: Probe) -> String {
    match probe {
        Probe::Found(profile) => profile,
        Probe::ReadMarker => panic!("asks for the marker"),
        Probe::AskService => panic!("asks the service"),
        Probe::ReadCpuPolicy => panic!("asks the policy"),
    }
}

fn failure(step: SwitchStep) -> String {
    match step {
        SwitchStep::Done(Err(e)) => e,
        _ => panic!("did not fail"),
    }
}

fn done(step: SwitchStep) -> bool {
    matches!(step, SwitchStep::Done(Ok(())))
}

#[test]
fn profiles_are_the_three_presets() {
    for profile in ["performance", "balanced", "power-saver"] {
        assert!(known_profile(profile));
        assert_eq!(validate_profile(profile), Ok(()));
    }
    assert!(!known_profile("Balanced"));
    assert_eq!(validate_profile("eco"), Err("Invalid power profile: eco".to_string()));
}

#[test]
fn the_daemon_speaks_in_lines() {
    assert_eq!(powerd_line("profile balanced"), "profile balanced\n");
    assert_eq!(powerd_reply(" balanced (auto)\n"), "balanced (auto)");
    assert_eq!(
        powerd_unreachable("No such file or directory"),
        "raven-powerd is not reachable: No such file or directory"
    );
}

#[test]
fn the_first_source_names_the_profile() {
    let reply = ProbeEvent::Powerd(text("power-saver (override)"));
    assert_eq!(found(active_power_profile(&reply)), "power-saver");
    assert!(matches!(active_power_profile(&ProbeEvent::Powerd(text("unmanaged"))), Probe::ReadMarker));
    assert!(matches!(active_power_profile(&ProbeEvent::Powerd(None)), Probe::ReadMarker));
    assert_eq!(found(active_power_profile(&ProbeEvent::Marker(text("balanced\n")))), "balanced");
    assert!(matches!(active_power_profile(&ProbeEvent::Marker(None)), Probe::AskService));
    // The service is taken at its word, whatever it says.
    assert_eq!(found(active_power_profile(&ProbeEvent::Service(text(" custom\n")))), "custom");
    assert!(matches!(active_power_profile(&ProbeEvent::Service(None)), Probe::ReadCpuPolicy));
    let policy = ProbeEvent::CpuPolicy { governor: None, current_max: None, hardware_max: None };
    assert_eq!(found(active_power_profile(&policy)), "balanced");
}

#[test]
fn policies_amount_to_profiles() {
    let of = |g: &str, c: &str, h: &str| profile_of_policy(&text(g), &text(c), &text(h));
    assert_eq!(of("performance\n", "1", "2"), "performance");
    assert_eq!(of("powersave", "2400000\n", "4000000\n"), "power-saver");
    assert_eq!(of("powersave", "2800000", "4000000"), "power-saver");
    // 70.9 percent is cut to 70, 71 is not.
    assert_eq!(of("powersave", "2836000", "4000000"), "power-saver");
    assert_eq!(of("powersave", "2840000", "4000000"), "balanced");
    assert_eq!(of("powersave", "2400000", "?"), "balanced");
    assert_eq!(of("schedutil", "?", "4000000"), "power-saver");
    assert_eq!(of("schedutil", "0", "0"), "balanced");
    assert_eq!(of("schedutil", "18446744073709551615", "18446744073709551615"), "balanced");
}

#[test]
fn a_switch_asks_the_daemon_first() {
    match set_power_profile("balanced", SwitchEvent::Requested) {
        SwitchStep::AskPowerd(request) => assert_eq!(request, "profile balanced"),
        _ => panic!("did not ask"),
    }
    assert_eq!(
        failure(set_power_profile("turbo", SwitchEvent::Requested)),
        "Invalid power profile: turbo"
    );
    let replied = |r: Result<&str, &str>| {
        set_power_profile(
            "balanced",
            SwitchEvent::PowerdReplied(r.map(Into::into).map_err(Into::into)),
        )
    };
    assert!(done(replied(Ok("ok"))));
    assert!(done(replied(Ok(""))));
    assert_eq!(failure(replied(Ok("error: busy"))), "raven-powerd refused: error: busy");
    assert!(matches!(replied(Ok("error: unknown command")), SwitchStep::LookUpService));
    assert!(matches!(replied(Err("gone")), SwitchStep::LookUpService));
}

#[test]
fn a_switch_falls_back_in_order() {
    let next = |event| set_power_profile("balanced", event);
    assert!(matches!(next(SwitchEvent::ServiceLookedUp(true)), SwitchStep::RunService));
    assert!(matches!(next(SwitchEvent::ServiceLookedUp(false)), SwitchStep::WriteControls));
    assert!(done(next(SwitchEvent::ServiceRan(Ok(true)))));
    assert_eq!(
        failure(next(SwitchEvent::ServiceRan(Ok(false)))),
        "The system power-profile service rejected this change"
    );
    assert_eq!(
        failure(next(SwitchEvent::ServiceRan(Err("no exec".into())))),
        "Could not start the system profile service: no exec"
    );
    assert!(done(next(SwitchEvent::ControlsWritten(Ok(())))));
    assert_eq!(failure(next(SwitchEvent::ControlsWritten(Err("No CPU".into())))), "No CPU");
    let denied = "/sys/x: Permission denied (os error 13)".to_string();
    assert!(matches!(
        next(SwitchEvent::ControlsWritten(Err(denied))),
        SwitchStep::LocateExecutable
    ));
    assert!(matches!(next(SwitchEvent::ExecutableLocated(Ok(()))), SwitchStep::LookUpHelpers));
    assert_eq!(
        failure(next(SwitchEvent::ExecutableLocated(Err("gone".into())))),
        "Could not locate the Raven Power executable: gone"
    );
}

#[test]
fn helpers_are_chosen_and_believed() {
    let next = |event| set_power_profile("balanced", event);
    let looked = |run0, systemd_booted, pkexec| {
        next(SwitchEvent::HelpersLookedUp { run0, systemd_booted, pkexec })
    };
    assert!(matches!(looked(true, true, true), SwitchStep::RunRun0));
    assert!(matches!(looked(true, false, true), SwitchStep::RunPkexec));
    assert!(matches!(looked(false, true, true), SwitchStep::RunPkexec));
    assert_eq!(
        failure(looked(true, false, false)),
        "Raven Power needs raven-powerd, run0, or pkexec to change kernel power settings"
    );
    let ran = |success, stderr: &str| {
        next(SwitchEvent::HelperRan(Ok(HelperOutput { success, stderr: stderr.into() })))
    };
    assert!(done(ran(true, "noise")));
    assert_eq!(
        failure(ran(false, " \n")),
        "The profile was not changed. Authorization was cancelled or denied."
    );
    assert_eq!(failure(ran(false, " denied\n")), "The profile was not changed: denied");
    assert_eq!(
        failure(next(SwitchEvent::HelperRan(Err("no exec".into())))),
        "Could not request authorization: no exec"
    );
}

#[test]
fn permission_errors_are_told_apart() {
    assert!(is_permission_error("x: Permission denied (os error 13)"));
    assert!(is_permission_error("x: Read-only file system (os error 30)"));
    assert!(!is_permission_error("x: permission denied"));
    assert!(!is_permission_error(""));
}

#[test]
fn eco_mode_lowers_priorities() {
    assert_eq!(renice_priority(true), "10");
    assert_eq!(renice_priority(false), "0");
    assert_eq!(set_process_eco(true, Ok(false)), Ok(()));
    assert_eq!(set_process_eco(false, Ok(true)), Ok(()));
    assert_eq!(
        set_process_eco(false, Ok(false)),
        Err("Restoring normal priority may require authentication".to_string())
    );
    assert_eq!(set_process_eco(true, Err("no renice".into())), Err("no renice".to_string()));
}

#[test]
fn governors_are_chosen_from_those_available() {
    let all = "performance powersave ondemand schedutil";
    assert_eq!(choose_governor("performance", all), Ok("performance"));
    assert_eq!(choose_governor("power-saver", all), Ok("powersave"));
    assert_eq!(choose_governor("power-saver", "ondemand schedutil"), Ok("ondemand"));
    assert_eq!(choose_governor("balanced", all), Ok("schedutil"));
    assert_eq!(choose_governor("balanced", "ondemand"), Ok("ondemand"));
    assert_eq!(choose_governor("performance", "schedutil"), Ok("schedutil"));
    assert_eq!(
        choose_governor("balanced", "performance powersave"),
        Err("No suitable CPU governor is available for balanced".to_string())
    );
}

#[test]
fn limits_and_preferences_follow_the_profile() {
    assert_eq!(target_frequency("power-saver", 4_000_001), 2_400_000);
    assert_eq!(target_frequency("balanced", 4_000_001), 4_000_001);
    let all = "default performance balance_performance balance_power power";
    assert_eq!(choose_preference("performance", all), Some("performance"));
    assert_eq!(choose_preference("power-saver", all), Some("power"));
    assert_eq!(choose_preference("balanced", all), Some("balance_performance"));
    assert_eq!(choose_preference("balanced", "balance_power"), None);
    assert_eq!(control_error("/sys/a", "denied"), "/sys/a: denied");
}

#[test]
fn a_policy_is_written_step_by_step() {
    let next = |event| apply_policy("power-saver", event);
    assert!(matches!(
        next(PolicyEvent::Governors(text("powersave performance"))),
        PolicyStep::WriteGovernor("powersave")
    ));
    assert!(matches!(next(PolicyEvent::Governors(None)), PolicyStep::Done(Err(_))));
    assert!(matches!(next(PolicyEvent::GovernorWritten(Ok(()))), PolicyStep::ReadHardware));
    assert!(matches!(
        next(PolicyEvent::GovernorWritten(Err("denied".into()))),
        PolicyStep::Done(Err(_))
    ));
    assert!(matches!(
        next(PolicyEvent::Hardware { hardware_max: text("4000000\n"), takes_limit: true }),
        PolicyStep::WriteLimit(2_400_000)
    ));
    assert!(matches!(
        next(PolicyEvent::Hardware { hardware_max: text("4000000\n"), takes_limit: false }),
        PolicyStep::ReadPreferences
    ));
    assert!(matches!(
        next(PolicyEvent::Hardware { hardware_max: None, takes_limit: true }),
        PolicyStep::ReadPreferences
    ));
    assert!(matches!(next(PolicyEvent::LimitWritten(Ok(()))), PolicyStep::ReadPreferences));
    assert!(matches!(
        next(PolicyEvent::LimitWritten(Err("denied".into()))),
        PolicyStep::Done(Err(_))
    ));
    let listed = |takes_preference, available: &str| {
        next(PolicyEvent::Preferences { takes_preference, available: text(available) })
    };
    assert!(matches!(listed(true, "power default"), PolicyStep::WritePreference("power")));
    assert!(matches!(listed(true, "default"), PolicyStep::Done(Ok(()))));
    assert!(matches!(listed(false, "power"), PolicyStep::Done(Ok(()))));
    assert!(matches!(next(PolicyEvent::PreferenceWritten(Ok(()))), PolicyStep::Done(Ok(()))));
    assert!(matches!(
        next(PolicyEvent::PreferenceWritten(Err("denied".into()))),
        PolicyStep::Done(Err(_))
    ));
}

#[test]
fn policies_are_found_among_the_entries() {
    let entries = Some(vec!["boost".to_string(), "policy0".to_string(), "policy12".to_string()]);
    assert_eq!(apply_profile_sysfs("balanced", &entries), Ok(vec![1, 2]));
    assert_eq!(
        apply_profile_sysfs("balanced", &None),
        Err("This system does not expose CPU frequency controls".to_string())
    );
    assert_eq!(
        apply_profile_sysfs("balanced", &Some(vec!["boost".to_string()])),
        Err("This CPU driver does not expose any controllable policies".to_string())
    );
}
