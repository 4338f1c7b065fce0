//! A lightweight service uptime monitor: per-minute health-check records,
//! daily uptime aggregation, and a staleness-bounded snapshot of the whole
//! system, all specified and verified over mathematical models.

pub mod cache;
pub mod config;
pub mod snapshot;
pub mod storage;
pub mod table;
pub mod uptime;
