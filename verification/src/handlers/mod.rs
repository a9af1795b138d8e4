pub mod auth;
pub mod blocklist;
pub mod iplist;
