use vstd::prelude::*;

use crate::forms::IpVersion;
use crate::iplist::formatter::OutputFormat;

verus! {

/// The query of a request for the blocklist.
pub struct BlocklistIpVersion {
    pub version: Option<IpVersion>,
    pub format: OutputFormat,
}

} // verus!
