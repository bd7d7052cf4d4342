use vstd::prelude::*;

verus! {

/// First port of the contiguous bank of Alpha listener ports.
pub const ALPHA_PORT_BASE: u16 = 4000;

/// Number of Alpha listener ports, and so the number of Alpha probes expected from a peer.
pub const ALPHA_PORT_COUNT: u16 = 10;

/// Port of the single Beta listener.
pub const BETA_PORT: u16 = 4010;

/// Number of Beta probes a peer is expected to send, each from its own local port.
pub const BETA_COUNT: usize = 10;

/// Port on which the query interface listens.
pub const API_PORT: u16 = 4011;

/// Share of the expected probes, in percent, that makes a record complete; also the
/// confidence of the `Unknown` floor hypothesis.
pub const THRESHOLD_PERCENT: usize = 80;

/// A record whose most recent observation is at least this old (in milliseconds) is evicted.
pub const STALENESS_WINDOW_MS: u64 = 3000;

/// Interval between two sweeps of the reaper, in milliseconds.
pub const REAPER_INTERVAL_MS: u64 = 1000;

/// Largest absolute port delta, other than zero, that counts as "close" to the origin port.
pub const CLOSE_PORT_TOLERANCE: i32 = 100;

/// Largest forward (wrapping) step between sequence-adjacent external ports that counts
/// as round-robin allocation.
pub const ROUND_ROBIN_TOLERANCE: u16 = 5000;

} // verus!
