use detrudr::config::{
    apply_env_overrides, load_dashboard_auth, load_dotenv, parse_bool_env, AppConfig, AuditConfig,
    BaselineConfig, BlockingConfig, Config, ConfigError, DashboardConfig, EnvOverrides, LogConfig,
    SlackConfig, ThresholdConfig, WindowConfig,
};
use detrudr::double::{Double, Rounded};
use detrudr::startup::{logging_level, parse_config_path};

fn double(value: f64) -> Double {
    Double { bits: value.to_bits() }
}

fn rounded(value: f64) -> Rounded {
    Rounded { value: double(value), shown: double((value * 10000.0).round() / 10000.0) }
}

fn config() -> Config {
    Config {
        app: AppConfig { log_level: "info".to_owned() },
        log: LogConfig { path: "/logs/access.log".to_owned() },
        window: WindowConfig { seconds: 60 },
        baseline: BaselineConfig {
            history_seconds: 1800,
            recalc_interval_seconds: 60,
            min_samples_per_hour: 300,
            floor_mean: rounded(1.0),
            floor_stddev: rounded(0.5),
        },
        thresholds: ThresholdConfig {
            zscore: double(3.0),
            rate_multiplier: double(5.0),
            tightening_factor: double(2.0),
            error_multiplier: double(3.0),
            error_floor_mean: rounded(0.1),
            error_floor_stddev: rounded(0.05),
            global_alert_cooldown_seconds: 60,
        },
        blocking: BlockingConfig {
            dry_run: false,
            iptables_chain: "INPUT".to_owned(),
            ban_minutes: vec![10, 30],
            ban_hours_final: 2,
            strike_decay_hours: 24,
        },
        slack: SlackConfig {
            enabled: false,
            webhook_url: "https://hooks.example/a".to_owned(),
            channel: "#a".to_owned(),
        },
        dashboard: DashboardConfig {
            host: "0.0.0.0".to_owned(),
            port: 8080,
            trusted_proxies: Vec::new(),
        },
        audit: AuditConfig { path: "/logs/audit.log".to_owned() },
    }
}

fn no_overrides() -> EnvOverrides {
    EnvOverrides {
        log_path: None,
        audit_log_path: None,
        web_hook_url: None,
        channel: None,
        enable_slack_notification: None,
        dry_run: None,
    }
}

#[test]
fn truth_values_are_read() {
    for yes in ["true", "1", "yes", "y", "on", " TRUE ", "On\n"] {
        assert!(matches!(parse_bool_env("DRY_RUN", yes), Ok(true)), "{yes}");
    }
    for no in ["false", "0", "no", "n", "off", " False", "OFF"] {
        assert!(matches!(parse_bool_env("DRY_RUN", no), Ok(false)), "{no}");
    }
    for bad in ["", "2", "tru", "yes no"] {
        let error = parse_bool_env("DRY_RUN", bad).unwrap_err();
        assert_eq!(
            error.message(),
            "DRY_RUN must be a boolean value such as true or false",
            "{bad}"
        );
    }
}

#[test]
fn the_environment_wins_over_the_file() {
    let mut settings = config();
    let env = EnvOverrides {
        log_path: Some(" /other/access.log ".to_owned()),
        audit_log_path: Some("/other/audit.log".to_owned()),
        web_hook_url: Some("https://hooks.example/b".to_owned()),
        channel: Some("#b".to_owned()),
        enable_slack_notification: Some("yes".to_owned()),
        dry_run: Some("1".to_owned()),
    };
    assert!(apply_env_overrides(&mut settings, &env).is_ok());
    assert_eq!(settings.log.path, "/other/access.log");
    assert_eq!(settings.audit.path, "/other/audit.log");
    assert_eq!(settings.slack.webhook_url, "https://hooks.example/b");
    assert_eq!(settings.slack.channel, "#b");
    assert!(settings.slack.enabled);
    assert!(settings.blocking.dry_run);
    assert_eq!(settings.dashboard.port, 8080);
}

#[test]
fn blank_and_missing_variables_change_nothing() {
    let mut settings = config();
    let env = EnvOverrides {
        log_path: Some("  ".to_owned()),
        dry_run: Some("\t".to_owned()),
        ..no_overrides()
    };
    assert!(apply_env_overrides(&mut settings, &env).is_ok());
    assert_eq!(settings.log.path, "/logs/access.log");
    assert_eq!(settings.audit.path, "/logs/audit.log");
    assert_eq!(settings.slack.channel, "#a");
    assert!(!settings.blocking.dry_run);
}

#[test]
fn a_variable_that_is_no_truth_value_is_named() {
    let mut settings = config();
    let env = EnvOverrides {
        enable_slack_notification: Some("maybe".to_owned()),
        dry_run: Some("perhaps".to_owned()),
        ..no_overrides()
    };
    match apply_env_overrides(&mut settings, &env) {
        Err(ConfigError::NotBoolean(name)) => assert_eq!(name, "ENABLE_SLACK_NOTIFICATION"),
        _ => panic!("accepted"),
    }
    let env = EnvOverrides { dry_run: Some("perhaps".to_owned()), ..no_overrides() };
    match apply_env_overrides(&mut settings, &env) {
        Err(ConfigError::NotBoolean(name)) => assert_eq!(name, "DRY_RUN"),
        _ => panic!("accepted"),
    }
}

#[test]
fn credentials_are_required() {
    let some = |text: &str| Some(text.to_owned());
    let auth = load_dashboard_auth(some(" hello@email.com "), some("supersecret\n")).unwrap();
    assert_eq!(auth.email, "hello@email.com");
    assert_eq!(auth.password, "supersecret");

    let message = |email, password| match load_dashboard_auth(email, password) {
        Err(error) => error.message(),
        Ok(_) => String::new(),
    };
    assert_eq!(
        message(None, None),
        "EMAIL must be set in .env or the process environment for dashboard auth"
    );
    assert_eq!(
        message(some(""), None),
        "PASSWORD must be set in .env or the process environment for dashboard auth"
    );
    assert_eq!(message(some("  "), some("")), "EMAIL must not be empty");
    assert_eq!(message(some("a"), some(" ")), "PASSWORD must not be empty");
}

#[test]
fn dotenv_lines_are_read() {
    let raw = "# comment\n\n CHANNEL = '#channel-name' \r\nDRY_RUN=true\nnothing\nA=\"'x'\"\nB=a=b\n=c\nDRY_RUN=false\nEMPTY=\n";
    let pairs = load_dotenv(raw, &Vec::new());
    let expected: Vec<(String, String)> = [
        ("CHANNEL", "#channel-name"),
        ("DRY_RUN", "true"),
        ("A", "x"),
        ("B", "a=b"),
        ("", "c"),
        ("EMPTY", ""),
    ]
    .iter()
    .map(|(key, value)| ((*key).to_owned(), (*value).to_owned()))
    .collect();
    assert_eq!(pairs, expected);
}

#[test]
fn defined_variables_are_not_set_again() {
    let defined = vec!["CHANNEL".to_owned()];
    let pairs = load_dotenv("CHANNEL=#b\nDRY_RUN=true", &defined);
    assert_eq!(pairs, vec![("DRY_RUN".to_owned(), "true".to_owned())]);
}

#[test]
fn the_configuration_path_is_an_argument() {
    let args = |list: &[&str]| -> Vec<String> { list.iter().map(|arg| (*arg).to_owned()).collect() };
    assert_eq!(parse_config_path(&args(&["--config", "a.yaml"])), "a.yaml");
    assert_eq!(parse_config_path(&args(&["-v", "--config", "a.yaml", "--config", "b"])), "a.yaml");
    assert_eq!(parse_config_path(&args(&["--config"])), "config.yaml");
    assert_eq!(parse_config_path(&args(&["a.yaml"])), "config.yaml");
    assert_eq!(parse_config_path(&args(&[])), "config.yaml");
}

#[test]
fn log_levels_are_recognised() {
    assert_eq!(logging_level("TRACE"), "trace");
    assert_eq!(logging_level("Debug"), "debug");
    assert_eq!(logging_level("warn"), "warn");
    assert_eq!(logging_level("Warning"), "warn");
    assert_eq!(logging_level("error"), "error");
    assert_eq!(logging_level("info"), "info");
    assert_eq!(logging_level("verbose"), "info");
}
