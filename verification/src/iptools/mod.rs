pub mod iptrie;
pub mod network;
