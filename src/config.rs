//! The command-line configuration, and what the scrape cycle takes from it.

use crate::endpoint::{decimal, endpoint_with_port, port_replaced};
use vstd::prelude::*;

verus! {

/// How much the log file records.
#[derive(Clone, Copy, Debug, PartialEq, Eq, Structural)]
pub enum LogLevel {
    Off,
    Error,
    Warn,
    Info,
    Debug,
    Trace,
}

/// The settings the program starts with.
#[derive(Clone, Debug)]
pub struct Cli {
    /// The endpoint to scrape.
    pub endpoint: String,
    /// A port that overrides the one the endpoint names.
    pub port: Option<u16>,
    /// Seconds between the end of one scrape and the start of the next.
    pub scrape_interval: u16,
    pub loglevel: LogLevel,
}

/// Why a configuration cannot run.
#[derive(Clone, Copy, Debug, PartialEq, Eq, Structural)]
pub enum ConfigError {
    /// The scrape interval is not a positive number of seconds.
    ZeroInterval,
}

/// The endpoint that a configuration scrapes.
pub open spec fn target_of(endpoint: Seq<char>, port: Option<u16>) -> Seq<char> {
    match port {
        Some(p) => port_replaced(endpoint, seq![':'] + decimal(p as nat) + seq!['/']),
        None => endpoint,
    }
}

impl Cli {
    /// The endpoint to scrape and the interval in seconds; a zero interval is
    /// refused before any scrape begins.
    pub fn scrape_target(&self) -> (r: Result<(String, u64), ConfigError>)
        ensures
            match r {
                Ok(t) => self.scrape_interval > 0 && t.0@ == target_of(self.endpoint@, self.port)
                    && t.1 == self.scrape_interval as u64,
                Err(e) => self.scrape_interval == 0 && e == ConfigError::ZeroInterval,
            },
    {
        if self.scrape_interval == 0 {
            return Err(ConfigError::ZeroInterval);
        }
        let target = endpoint_with_port(self.endpoint.as_str(), self.port);
        Ok((target, self.scrape_interval as u64))
    }
}

} // verus!
