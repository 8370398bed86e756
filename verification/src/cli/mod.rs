//! The command line: configuration, and what the commands decide.

pub mod commands;
pub mod config;

pub use commands::OutputFormat;
pub use config::Config;
