//! Core logic of a focus-session enforcement engine.
//!
//! The library models the three stateful pieces of the engine — a hosts-file
//! blocker that null-routes domains, a process blocker that repeatedly scans a
//! process-table snapshot and decides which processes to terminate, and a
//! privilege-elevation lease that amortizes interactive prompts — as verified
//! functions over plain values. All I/O (reading the hosts file, invoking the
//! elevation helper, enumerating live processes, sending signals) stays with
//! the caller, which hands snapshots in and carries decisions out.

pub mod app_blocker;
pub mod desktop;
pub mod domain;
pub mod elevation;
pub mod hosts;
pub mod matcher;
pub mod notify;
pub mod session;
pub mod text;
