//! The logic of kagari, a live graph of system metrics: what a poll finds, what is
//! kept of it, what the graph shows, and what is remembered across runs.
//!
//! Programs, files and the window are left to the application. It hands over what
//! the sources put out, and draws what it is told to.

pub mod collect;
pub mod config;
pub mod graph;
pub mod json;
pub mod labels;
pub mod names;
pub mod procfs;
pub mod sample;
pub mod sensors;
pub mod state;
pub mod text;
pub mod throughput;
pub mod unit;
