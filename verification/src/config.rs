//! The server's configuration and the checks it must pass.

use vstd::prelude::*;

use crate::text::owned;

verus! {

/// The socket address the server listens on, as plain values.
#[derive(Debug, Clone, Copy, PartialEq, Eq)]
pub enum BindAddr {
    V4 { octets: [u8; 4], port: u16 },
    V6 { segments: [u16; 8], port: u16, flowinfo: u32, scope_id: u32 },
}

/// The server's configuration.
#[derive(Debug, Clone, Copy)]
pub struct Config {
    pub bind_addr: BindAddr,
    pub metrics_log_interval_secs: u64,
}

/// Why a configuration is refused.
#[derive(Debug, Clone, Copy, PartialEq, Eq)]
pub enum ConfigError {
    /// `metrics_log_interval_secs` is 0.
    MetricsIntervalZero,
}

impl ConfigError {
    /// The text that reports the error.
    pub fn message(&self) -> (s: String)
        ensures
            s@ == "metrics_log_interval_secs must be >= 1"@,
    {
        match self {
            ConfigError::MetricsIntervalZero => owned("metrics_log_interval_secs must be >= 1"),
        }
    }
}

/// The address used when the configuration names none: 127.0.0.1, port 6667.
pub fn default_bind_addr() -> (r: BindAddr)
    ensures
        r matches BindAddr::V4 { octets, port } && octets@ == seq![127u8, 0u8, 0u8, 1u8] && port
            == 6667,
{
    let octets: [u8; 4] = [127, 0, 0, 1];
    let r = BindAddr::V4 { octets, port: 6667 };
    assert(octets@ =~= seq![127u8, 0u8, 0u8, 1u8]);
    r
}

/// The interval between metrics reports when the configuration names none: 30 seconds.
pub fn default_metrics_log_interval_secs() -> (r: u64)
    ensures
        r == 30,
{
    30
}

impl Config {
    /// A configuration is refused exactly when its metrics interval is 0.
    pub fn validate(&self) -> (r: Result<(), ConfigError>)
        ensures
            r is Err <==> self.metrics_log_interval_secs == 0,
            r matches Err(e) ==> e == ConfigError::MetricsIntervalZero,
    {
        if self.metrics_log_interval_secs == 0 {
            return Err(ConfigError::MetricsIntervalZero);
        }
        Ok(())
    }
}

} // verus!
