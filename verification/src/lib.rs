//! Verified core of a batch MySQL administration tool: configuration
//! parsing, database-name filtering, execution bookkeeping and log formatting.

pub mod text;
pub mod config;
pub mod db;
pub mod commands;
pub mod logging;
