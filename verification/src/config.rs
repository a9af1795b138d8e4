use vstd::prelude::*;

use crate::blocklist::config::BlocklistConfig;
use crate::iplist::config::IplistConfig;

verus! {

/// The default log level: `info`.
pub fn default_info() -> (r: String)
    ensures
        r@ == "info"@,
{
    String::from_str("info")
}

/// A flag that is on unless configured otherwise.
pub fn default_true() -> (r: Option<bool>)
    ensures
        r == Some(true),
{
    Some(true)
}

/// The default folder of static files: `static`.
pub fn default_static_files() -> (r: String)
    ensures
        r@ == "static"@,
{
    String::from_str("static")
}

/// The default addresses to listen on: every interface, port 8000.
pub fn default_web_hostname() -> (r: Vec<String>)
    ensures
        r@.len() == 1,
        r@[0]@ == "[::]:8000"@,
{
    let mut v: Vec<String> = Vec::new();
    v.push(String::from_str("[::]:8000"));
    v
}

/// The service configuration.
pub struct AppConfig {
    /// The addresses to listen on, each once.
    pub hostnames: Vec<String>,
    pub blocklist: BlocklistConfig,
    pub iplist: IplistConfig,
    pub app_log_level: String,
    pub all_log_level: String,
    pub static_files_path: String,
    pub workers: Option<usize>,
    pub tls_cert_path: Option<String>,
    pub tls_key_path: Option<String>,
    pub auth_token_file_path: Option<String>,
}

} // verus!
