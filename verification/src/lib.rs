//! Measuring how long a TCP handshake with a fixed target takes, over a series
//! of trials.
//!
//! The target is taken from a numeric address literal and a port ([`address`],
//! [`args`]). The series is a state machine that is fed the outcome of each
//! connection attempt and answers with what to report and how long to wait
//! ([`ping`]); what holds of whole series is proved in [`series`]. Latencies
//! are whole nanoseconds ([`stats`]) and are shown in milliseconds
//! ([`render`]).

pub mod address;
pub mod args;
pub mod ipv4;
pub mod ipv6;
pub mod ping;
pub mod render;
pub mod roundtrip;
pub mod series;
pub mod stats;
pub mod text;

pub use address::{parse_args, Cli, ConfigError, Family, IpAddress, Target};
pub use ping::{do_tcp_ping, Effect, Line, PingConfig, PingReport, PingSession, PingState, TrialResult};
pub use stats::{RunningStats, Summary};
