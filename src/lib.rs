//! Verified core of a network-telemetry recorder: address classification,
//! parsing of the OS utilities' output, geolocation cache policy, per-tick
//! frame estimation, change gating, collection-loop decisions, persistence
//! scheduling and aggregates, and baseline analytics.
pub mod address;
pub mod scan;
pub mod geo;
pub mod frame;
pub mod gate;
pub mod monitor;
pub mod writer;
pub mod analytics;
pub mod export;
pub mod vecs;
