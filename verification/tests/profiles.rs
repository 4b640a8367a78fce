use raven_power::profile::profile_from_reply;

#[test]
fn parses_powerd_profile_replies() {
    assert_eq!(
        profile_from_reply("power-saver (override)").as_deref(),
        Some("power-saver")
    );
    assert_eq!(
        profile_from_reply("balanced (auto)").as_deref(),
        Some("balanced")
    );
    assert_eq!(
        profile_from_reply("performance").as_deref(),
        Some("performance")
    );
    assert_eq!(profile_from_reply("unmanaged"), None);
    assert_eq!(profile_from_reply("error: unknown command"), None);
    assert_eq!(profile_from_reply(""), None);
}
