//! Reference-counted power management for a small fleet of home servers:
//! the configuration model, dependency-cycle detection, the power state
//! machine driven by health checks, and the planning of the commands that
//! wake up and shut down machines.

pub mod cascade;
pub mod config;
pub mod db;
pub mod engine;
pub mod graph;
pub mod health;
pub mod laws;
pub mod power;
pub mod text;
pub mod types;
