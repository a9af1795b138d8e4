pub mod config;
pub mod fetch;
pub mod formatter;
pub mod iprange;
pub mod parse;
