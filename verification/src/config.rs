//! The daemon's settings.
//!
//! All times in this library are counts of nanoseconds: points in time count
//! from the Unix epoch, spans count their own length.

use vstd::prelude::*;

verus! {

/// The nanoseconds in one second.
pub const NANOS_PER_SECOND: u64 = 1_000_000_000;

/// The nanoseconds in one minute.
pub const NANOS_PER_MINUTE: u64 = 60_000_000_000;

/// What can be set for one run of the daemon.
#[derive(Clone, Debug, PartialEq, Eq)]
pub struct Config {
    /// Where the listener receives datagrams.
    pub bind_address: String,
    /// How long a block lasts after the address was last seen.
    pub ttl: u64,
    /// How long the sweeper rests between two sweeps.
    pub sweep_interval: u64,
    /// The most blocks one sweep revokes.
    pub batch_cap: usize,
    /// The size of the listener's receive buffer, in bytes.
    pub receive_capacity: usize,
}

impl Default for Config {
    /// Five minutes of block, a sweep every second, a hundred revocations a
    /// sweep, a kilobyte of receive buffer, listening on every interface.
    fn default() -> (config: Config)
        ensures
            config.bind_address@ == "0.0.0.0:1234"@,
            config.ttl == 300 * NANOS_PER_SECOND,
            config.sweep_interval == NANOS_PER_SECOND,
            config.batch_cap == 100,
            config.receive_capacity == 1024,
    {
        Config {
            bind_address: "0.0.0.0:1234".to_owned(),
            ttl: 300 * NANOS_PER_SECOND,
            sweep_interval: NANOS_PER_SECOND,
            batch_cap: 100,
            receive_capacity: 1024,
        }
    }
}

} // verus!
