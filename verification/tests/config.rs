//! What a project can ask for.

use stylus_check::config::{Config, ConfigError, ConfigFile};
use stylus_check::finding::Severity;

const KNOWN: &[&str] = &["unwrap-in-entrypoint", "state-write-after-call"];

fn parse(text: &str) -> Result<Config, ConfigError> {
    let table: toml::Table =
        toml::from_str(text).map_err(|e| ConfigError::Malformed(e.to_string()))?;
    let mut config = Config::default();
    if let Some(rules) = table.get("disable").and_then(|v| v.as_array()) {
        config.disable = rules.iter().map(|r| r.as_str().unwrap().to_string()).collect();
    }
    if let Some(set) = table.get("severity").and_then(|v| v.as_table()) {
        config.severity = set
            .iter()
            .map(|(rule, value)| (rule.clone(), value.as_str().unwrap().to_string()))
            .collect();
    }
    config.validate(KNOWN)?;
    Ok(config)
}

#[test]
fn a_project_can_switch_a_rule_off() {
    let config = parse("disable = [\"unwrap-in-entrypoint\"]").unwrap();
    assert!(config.is_disabled("unwrap-in-entrypoint"));
    assert!(!config.is_disabled("state-write-after-call"));
}

#[test]
fn a_project_can_rank_a_rule_differently() {
    let config = parse("[severity]\nstate-write-after-call = \"low\"").unwrap();
    assert_eq!(config.severity_for("state-write-after-call"), Some(Severity::Low));
    assert_eq!(config.severity_for("unwrap-in-entrypoint"), None);
}

#[test]
fn a_typo_is_refused_rather_than_ignored() {
    let err = parse("disable = [\"unwrap-in-entrypoints\"]").unwrap_err();
    assert!(
        matches!(err, ConfigError::UnknownRule { .. }),
        "silently ignoring this would leave somebody thinking a rule was off"
    );
}

#[test]
fn a_severity_that_is_not_one_is_refused() {
    let err = parse("[severity]\nunwrap-in-entrypoint = \"critical\"").unwrap_err();
    assert!(matches!(err, ConfigError::UnknownSeverity { .. }));
}

#[test]
fn a_missing_file_asks_for_nothing() {
    let config = Config::load(ConfigFile::Absent, KNOWN).unwrap();
    assert!(config.disable.is_empty());
    assert!(config.severity.is_empty());
    assert!(!config.is_disabled("unwrap-in-entrypoint"));
}

#[test]
fn a_file_that_cannot_be_used_is_an_error() {
    let err = Config::load(ConfigFile::Unreadable("denied".into()), KNOWN).unwrap_err();
    assert_eq!(err.message(), "could not read stylus-check.toml: denied");
    let err = Config::load(ConfigFile::Malformed("line 1".into()), KNOWN).unwrap_err();
    assert_eq!(err.message(), "stylus-check.toml is not valid: line 1");
}

#[test]
fn an_error_names_the_rule_and_what_is_known() {
    let config = Config { disable: vec!["nope".into()], severity: vec![] };
    let err = Config::load(ConfigFile::Read(config), KNOWN).unwrap_err();
    assert_eq!(
        err.message(),
        "stylus-check.toml mentions the rule `nope`, which does not exist. \
         The rules are: unwrap-in-entrypoint, state-write-after-call"
    );
    let config = Config {
        disable: vec![],
        severity: vec![("unwrap-in-entrypoint".into(), "critical".into())],
    };
    let err = Config::load(ConfigFile::Read(config), KNOWN).unwrap_err();
    assert_eq!(
        err.message(),
        "stylus-check.toml sets `unwrap-in-entrypoint` to severity `critical`, \
         which is not one of low, medium or high"
    );
}

#[test]
fn a_rule_that_does_not_exist_comes_before_a_severity_that_does_not() {
    let config = Config {
        disable: vec!["unwrap-in-entrypoint".into()],
        severity: vec![
            ("state-write-after-call".into(), "critical".into()),
            ("zzz".into(), "low".into()),
        ],
    };
    match config.validate(KNOWN) {
        Err(ConfigError::UnknownRule { rule, known }) => {
            assert_eq!(rule, "zzz");
            assert_eq!(known, KNOWN);
        }
        other => panic!("expected an unknown rule, got {other:?}"),
    }
}

#[test]
fn an_accepted_config_is_kept_as_it_is() {
    let config = Config {
        disable: vec!["state-write-after-call".into()],
        severity: vec![("unwrap-in-entrypoint".into(), " MED ".into())],
    };
    let kept = Config::load(ConfigFile::Read(config), KNOWN).unwrap();
    assert_eq!(kept.disable, vec!["state-write-after-call"]);
    assert_eq!(kept.severity_for("unwrap-in-entrypoint"), Some(Severity::Medium));
}
