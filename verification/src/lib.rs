//! IP list service core: IP network model, prefix trie, blocklist and
//! geo list assembly, output formatting and service status.
pub mod blocklist;
pub mod config;
pub mod error;
pub mod forms;
pub mod handlers;
pub mod iplist;
pub mod iptools;
pub mod list;
pub mod models;
pub mod status;
pub mod text;
pub mod utils;
