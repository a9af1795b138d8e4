use vstd::prelude::*;

verus! {

/// The default download timeout, in milliseconds: ten seconds.
pub fn default_timeout() -> (r: u64)
    ensures
        r == 10_000,
{
    10_000
}

/// The default age after which a downloaded file is fetched again, in
/// milliseconds: a day.
pub fn default_max_age() -> (r: u64)
    ensures
        r == 86_400_000,
{
    86_400_000
}

/// Credentials for HTTP basic authentication.
pub struct BasicAuth {
    pub username: String,
    pub password: String,
}

/// Where the geo databases come from, where they are kept and when they are
/// refreshed.
pub struct IplistConfig {
    pub country_uri: String,
    pub asn_uri: String,
    /// Download timeout in milliseconds.
    pub timeout: u64,
    /// Age after which a downloaded file is fetched again, in milliseconds.
    pub max_age: u64,
    /// Request headers, as (name, value) pairs.
    pub headers: Vec<(String, String)>,
    pub basic_auth: Option<BasicAuth>,
    pub output_folder: String,
    pub cron: String,
}

} // verus!
