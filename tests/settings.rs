use dotlocal_dns::config::{
    auto_launch_mismatch_message, records_file_template, safe_open_records_file, AppConfig,
    RecordsFileStep,
};
use dotlocal_dns::records::parse_records;
use std::path::PathBuf;

#[test]
fn app_config_defaults() {
    let mut c = AppConfig::new(PathBuf::from("cfg"), PathBuf::from("cfg/logs"), PathBuf::from("home/.dot-local-records"));
    assert_eq!(c.top_level_domain, ".local");
    assert_eq!(c.port, 53);
    assert!(c.log_level.is_none());
    assert!(c.start_at_login.is_none());
    assert_eq!(c.config_revision.revision(), 0);
    assert_eq!(c.logging_dir, PathBuf::from("cfg/logs"));
    c.set_start_at_login(true);
    assert_eq!(c.start_at_login, Some(true));
}

#[test]
fn opening_records_file_creates_it_first_when_missing() {
    assert_eq!(safe_open_records_file(true), vec![RecordsFileStep::Open]);
    assert_eq!(safe_open_records_file(false), vec![RecordsFileStep::CreateWithTemplate, RecordsFileStep::Open]);
}

#[test]
fn template_loads_as_empty_table() {
    let t = records_file_template();
    assert!(t.starts_with('#'));
    assert!(parse_records(&t, ".local").unwrap().is_empty());
}

#[test]
fn mismatch_message_names_both_states() {
    let m = auto_launch_mismatch_message(true, false);
    assert_eq!(
        m,
        "There is a mismatch in configured starting at login between the application (enabled) and the system (disabled)!\n\nWe've set the application to match the system settings (disabled). You can set it to your liking using the menu in the system tray."
    );
}
