use clankircd::config::{default_bind_addr, default_metrics_log_interval_secs, BindAddr, ConfigError};
use clankircd::Config;

#[test]
fn defaults_are_localhost_6667_and_30_seconds() {
    assert_eq!(
        default_bind_addr(),
        BindAddr::V4 { octets: [127, 0, 0, 1], port: 6667 }
    );
    assert_eq!(default_metrics_log_interval_secs(), 30);
}

#[test]
fn rejects_zero_metrics_interval() {
    let cfg = Config { bind_addr: default_bind_addr(), metrics_log_interval_secs: 0 };
    assert_eq!(cfg.validate(), Err(ConfigError::MetricsIntervalZero));
    let cfg = Config { bind_addr: default_bind_addr(), metrics_log_interval_secs: 1 };
    assert_eq!(cfg.validate(), Ok(()));
}

#[test]
fn zero_interval_error_text() {
    assert_eq!(
        ConfigError::MetricsIntervalZero.message(),
        "metrics_log_interval_secs must be >= 1"
    );
}
