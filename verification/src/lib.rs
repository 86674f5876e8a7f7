//! Core logic of a latency- and health-aware scheduler over MCP tool servers.
//!
//! The library models the scheduler's shared state (monitored servers, batch
//! registrations, ping latency histories), the registration and heartbeat
//! state transitions, single-link clustering of tool points, and the
//! per-cluster selection of the fastest healthy provider. All I/O (HTTP,
//! vector index, relational store, MCP transport) lives outside the library
//! and hands plain values in and out.

use vstd::prelude::*;

pub mod calllog;
pub mod cluster;
pub mod ids;
pub mod index;
pub mod ingest;
pub mod kv;
pub mod select;
pub mod state;

verus! {

/// Capacity of a server's ping latency history; older samples are evicted
/// first-in-first-out once the bound is reached.
pub const MAX_PING_HISTORY: usize = 100;

/// Seconds between heartbeat sweeps.
pub const HEARTBEAT_INTERVAL_SECONDS: u64 = 10;

/// A batch reference older than this many seconds is evicted by the sweep.
pub const TIMEOUT_SECONDS: u64 = 600;

/// A `(tool, url)` pair with at least this many recent error rows is unhealthy.
pub const N_ERROR_THRESHOLD: usize = 5;

/// Width of the recent-error window, in seconds.
pub const ERROR_WINDOW_SECONDS: u64 = 600;

/// How many of the most recent successful calls enter the latency mean.
pub const MAX_TOOL_CALL_LOGS: usize = 3;

} // verus!
