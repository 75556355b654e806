//! Verified core of a process manager and system monitor: the formatting of
//! sizes, rates and durations, the rules that classify processes and startup
//! entries, the bookkeeping behind the process table, and the session that
//! decides how the window answers each event.

pub mod text;
pub mod format;
pub mod tree;
pub mod system;
pub mod ui;
pub mod table;
pub mod pid_table;
pub mod leak;
pub mod sparkline;
pub mod tracking;
pub mod startup;
pub mod heuristics;
pub mod config;
pub mod lang;
pub mod messages;
pub mod session;
