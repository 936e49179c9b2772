use inference::config::{is_log_level, str_equal, Config, ConfigError, ConfigFault};

fn valid() -> Config {
    Config::default()
}

#[test]
fn default_values() {
    let c = Config::default();
    assert_eq!(c.model_path, "model.onnx");
    assert_eq!(c.context_window, 128);
    assert_eq!(c.beam_width, 1);
    assert!(!c.quantization);
    assert_eq!(c.socket_path, "/tmp/ai_autocorrect.sock");
    assert_eq!(c.gpu_device, None);
    assert_eq!(c.log_level, "info");
}

#[test]
fn validate_accepts_default_with_model() {
    assert!(valid().validate(true).is_ok());
}

#[test]
fn validate_missing_model() {
    assert!(matches!(valid().validate(false), Err(ConfigError::Validation(_))));
    assert!(matches!(valid().check(false), Some(ConfigFault::MissingModel)));
}

#[test]
fn validate_zero_context_window() {
    let mut c = valid();
    c.context_window = 0;
    assert!(matches!(c.validate(true), Err(ConfigError::Validation(_))));
    assert!(matches!(c.check(true), Some(ConfigFault::ZeroContextWindow)));
}

#[test]
fn validate_zero_beam_width() {
    let mut c = valid();
    c.beam_width = 0;
    assert!(matches!(c.check(true), Some(ConfigFault::ZeroBeamWidth)));
    assert!(c.validate(true).is_err());
}

#[test]
fn validate_log_level() {
    let mut c = valid();
    c.log_level = "loud".to_string();
    assert!(matches!(c.check(true), Some(ConfigFault::BadLogLevel)));
    for l in ["error", "warn", "info", "debug", "trace"] {
        assert!(is_log_level(l));
    }
    assert!(!is_log_level("Info"));
    assert!(!is_log_level(""));
}

#[test]
fn string_equality() {
    assert!(str_equal("abc", "abc"));
    assert!(!str_equal("abc", "abd"));
    assert!(!str_equal("ab", "abc"));
}

#[test]
fn fault_messages() {
    assert_eq!(ConfigFault::ZeroContextWindow.message(), "Context window must be greater than 0");
}
