use ninja_linter::config::{CheckInstant, Config};

#[test]
fn test_config_default_has_no_container_name() {
    let config = Config::default();
    assert!(config.container_name.is_none());
}

#[test]
fn test_config_default_updated_check_at_is_empty() {
    let config = Config::default();
    assert!(config.updated_check_at.is_empty());
}

#[test]
fn test_has_updated_check_at_false_when_empty() {
    let config = Config::default();
    assert!(!config.has_updated_check_at());
}

#[test]
fn test_has_updated_check_at_true_when_set() {
    let config = Config {
        updated_check_at: "2026-07-07T00:00:00+00:00".to_string(),
        ..Config::default()
    };
    assert!(config.has_updated_check_at());
}

#[test]
fn test_get_or_set_container_name_returns_existing() {
    let config = Config {
        container_name: Some("my_container".to_string()),
        test_command: None,
        ..Config::default()
    };
    let name = config.configured_container_name().unwrap();
    assert_eq!(name, "my_container");
}

#[test]
fn test_container_name_not_mutated_when_already_set() {
    let config = Config {
        container_name: Some("original_container".to_string()),
        test_command: None,
        ..Config::default()
    };
    assert!(config.configured_container_name().is_some());
    assert_eq!(config.container_name, Some("original_container".to_string()));
}

#[test]
fn set_container_name_stores_trimmed_input() {
    let mut config = Config::default();
    let name = config.set_container_name("  ninja_symfony\n");
    assert_eq!(name, "ninja_symfony");
    assert_eq!(config.configured_container_name(), Some("ninja_symfony".to_string()));
    assert!(config.test_command.is_none());
}

#[test]
fn set_test_command_stores_trimmed_input() {
    let mut config = Config::default();
    let cmd = config.set_test_command("docker exec ninja_symfony bin/phpunit\r\n");
    assert_eq!(cmd, "docker exec ninja_symfony bin/phpunit");
    assert_eq!(
        config.configured_test_command(),
        Some("docker exec ninja_symfony bin/phpunit".to_string())
    );
    assert!(config.container_name.is_none());
}

#[test]
fn test_set_updated_check_at_stores_rfc3339() {
    let mut config = Config::default();
    assert!(config.set_updated_check_at(CheckInstant { seconds: 0, nanoseconds: 0 }));
    assert_eq!(config.updated_check_at, "1970-01-01T00:00:00+00:00");
    assert!(config.has_updated_check_at());
}

#[test]
fn test_get_updated_check_at_roundtrips() {
    let mut config = Config::default();
    let at = CheckInstant { seconds: 1_000_000, nanoseconds: 0 };
    assert!(config.set_updated_check_at(at));
    assert_eq!(config.get_updated_check_at(), at);
}

#[test]
fn unrepresentable_instant_is_not_stored() {
    let mut config = Config::default();
    assert!(!config.set_updated_check_at(CheckInstant { seconds: i64::MAX, nanoseconds: 0 }));
    assert!(config.updated_check_at.is_empty());
}

#[test]
fn missing_check_time_reads_as_none() {
    let config = Config::default();
    assert_eq!(config.try_get_updated_check_at(), None);
}

#[test]
fn check_time_in_another_offset_reads_as_utc() {
    let config = Config {
        updated_check_at: "1970-01-01T01:00:00+01:00".to_string(),
        ..Config::default()
    };
    assert_eq!(
        config.try_get_updated_check_at(),
        Some(CheckInstant { seconds: 0, nanoseconds: 0 })
    );
}

#[test]
fn check_times_with_four_digit_years_read_back() {
    for at in [
        CheckInstant { seconds: 1_700_000_000, nanoseconds: 123_000_000 },
        CheckInstant { seconds: 1_700_000_000, nanoseconds: 999_999_999 },
        CheckInstant { seconds: -62_167_219_200, nanoseconds: 0 },
        CheckInstant { seconds: 253_402_300_799, nanoseconds: 1_000 },
    ] {
        let mut config = Config::default();
        assert!(config.set_updated_check_at(at));
        assert_eq!(config.try_get_updated_check_at(), Some(at));
    }
}

#[test]
fn check_time_past_year_9999_is_stored_but_not_read_back() {
    let mut config = Config::default();
    assert!(config.set_updated_check_at(CheckInstant { seconds: 253_402_300_800, nanoseconds: 0 }));
    assert!(config.updated_check_at.starts_with("+10000-"));
    assert_eq!(config.try_get_updated_check_at(), None);
}
