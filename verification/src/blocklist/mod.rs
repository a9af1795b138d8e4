pub mod config;
pub mod fetch;
