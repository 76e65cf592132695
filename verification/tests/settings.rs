use arkana::settings::{
    command_output_text, find_command, get_settings, is_interactive, is_ui_only,
    parse_battery_level, setting_kind_code, settings_action, shell_command, SettingKind,
    SettingsAction,
};

#[test]
fn settings_table_in_display_order() {
    let settings = get_settings();
    let rows: Vec<(u32, &str, &str, bool, SettingKind)> = settings
        .iter()
        .map(|s| (s.id, s.title, s.command, s.interactive, s.kind))
        .collect();
    assert_eq!(
        rows,
        vec![
            (1, "Power Off", "poweroff", false, SettingKind::Command),
            (2, "Reboot", "reboot", false, SettingKind::Command),
            (3, "IP Info", "ip a", false, SettingKind::Command),
            (4, "Input Test", "evtest", true, SettingKind::Command),
            (5, "Volume", "", false, SettingKind::Volume),
            (6, "Brightness", "", false, SettingKind::Brightness),
        ]
    );
}

#[test]
fn lookups_by_id() {
    for id in 0..10 {
        assert_eq!(is_interactive(id), id == 4);
        assert_eq!(is_ui_only(id), id == 5 || id == 6);
        assert_eq!(find_command(id).is_some(), (1..=4).contains(&id));
    }
    assert_eq!(find_command(3), Some("ip a"));
    assert_eq!(find_command(4), Some("evtest"));
    assert_eq!(find_command(5), None);
}

#[test]
fn shell_command_joins_stderr() {
    assert_eq!(shell_command(3), Some("ip a 2>&1".to_string()));
    assert_eq!(shell_command(1), Some("poweroff 2>&1".to_string()));
    assert_eq!(shell_command(5), None);
    assert_eq!(shell_command(42), None);
}

#[test]
fn command_output_is_decoded() {
    assert_eq!(command_output_text(Some(b"inet 10.0.0.2\n")), "inet 10.0.0.2\n");
    assert_eq!(command_output_text(Some(b"bad \xff byte")), "bad \u{fffd} byte");
    assert_eq!(command_output_text(None), "(command failed)");
}

#[test]
fn settings_actions() {
    assert!(matches!(settings_action(5), SettingsAction::Ignore));
    assert!(matches!(settings_action(6), SettingsAction::Ignore));
    assert!(matches!(settings_action(4), SettingsAction::Spawn("evtest")));
    assert!(matches!(settings_action(3), SettingsAction::Run));
    assert!(matches!(settings_action(99), SettingsAction::Run));
}

#[test]
fn kind_codes() {
    assert_eq!(setting_kind_code(SettingKind::Command), 0);
    assert_eq!(setting_kind_code(SettingKind::Volume), 1);
    assert_eq!(setting_kind_code(SettingKind::Brightness), 2);
}

#[test]
fn battery_levels() {
    assert_eq!(parse_battery_level("87\n"), Some(87));
    assert_eq!(parse_battery_level("  100 "), Some(100));
    assert_eq!(parse_battery_level("0"), Some(0));
    assert_eq!(parse_battery_level("+42"), Some(42));
    assert_eq!(parse_battery_level("-0"), Some(0));
    assert_eq!(parse_battery_level("007"), Some(7));
    assert_eq!(parse_battery_level("101"), None);
    assert_eq!(parse_battery_level("-5"), None);
    assert_eq!(parse_battery_level("99999999999999999999"), None);
    assert_eq!(parse_battery_level(""), None);
    assert_eq!(parse_battery_level("+"), None);
    assert_eq!(parse_battery_level("5 %"), None);
    assert_eq!(parse_battery_level("\u{2003}64\u{3000}"), Some(64));
}
