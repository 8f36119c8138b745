use cade::config::{Config, RawConfig};
use cade::verbosity::Verbosity;

#[test]
fn parses_config() {
    let raw = RawConfig {
        verbosity: Some("vars".into()),
        long_running_warning_ms: Some(100),
    };
    let cfg: Config = Config::try_from(raw).unwrap();
    assert_eq!(cfg.verbosity, Some(Verbosity::Vars));
    assert_eq!(cfg.long_running_warning_ms, Some(100));
}

#[test]
fn rejects_bad_verbosity() {
    let raw = RawConfig {
        verbosity: Some("loud".into()),
        long_running_warning_ms: None,
    };
    assert!(Config::try_from(raw).is_err());
}

#[test]
fn rejects_zero_warning_threshold() {
    let raw = RawConfig {
        verbosity: None,
        long_running_warning_ms: Some(0),
    };
    assert!(Config::try_from(raw).is_err());
}
