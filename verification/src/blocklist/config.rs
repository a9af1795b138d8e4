use vstd::prelude::*;

verus! {

/// The default request timeout, in milliseconds: ten seconds.
pub fn default_timeout() -> (r: u64)
    ensures
        r == 10_000,
{
    10_000
}

/// Where the blocklist comes from and when it is refreshed.
pub struct BlocklistConfig {
    pub url_blocklist: Vec<UrlBlocklist>,
    pub custom_blocklist: CustomListConfig,
    pub custom_allowlist: CustomListConfig,
    pub interval: String,
    pub cron: String,
}

/// Folders of text files that hold networks, one family per folder.
pub struct CustomListConfig {
    pub ipv4_folder: String,
    pub ipv6_folder: String,
    pub split_string: Option<String>,
}

/// A blocklist served over HTTP, with a local backup copy.
pub struct UrlBlocklist {
    pub ipv4_url: Option<String>,
    pub ipv6_url: Option<String>,
    /// Request headers, as (name, value) pairs.
    pub headers: Option<Vec<(String, String)>>,
    /// Request timeout in milliseconds.
    pub timeout: u64,
    pub split_string: Option<String>,
    pub backup_path: String,
}

} // verus!
