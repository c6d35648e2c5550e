//! A round-robin load balancer core: backend health tracking, health-aware
//! cyclic selection with failover, and per-client fixed-window rate limiting.
//!
//! The core is a pure state machine: callers supply the current time and the
//! latest probe results, and every decision the balancer makes is verified.
//! Network I/O (probing the backends, proxying requests) lives outside the
//! library and only feeds plain values in.

pub mod balancer;
pub mod config;
pub mod laws;
