//! Detection core of an HTTP traffic-anomaly daemon.

pub mod bans;
pub mod baseline;
pub mod blocker;
pub mod clock;
pub mod config;
pub mod dashboard;
pub mod double;
pub mod engine;
pub mod events;
pub mod forms;
pub mod laws;
pub mod limiter;
pub mod monitor;
pub mod notifier;
pub mod pass;
pub mod promises;
pub mod report;
pub mod rolling;
pub mod runs;
pub mod seconds;
pub mod session;
pub mod shown;
pub mod startup;
pub mod state;
pub mod table;
pub mod text;
pub mod window;
