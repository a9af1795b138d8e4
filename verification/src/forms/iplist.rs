use vstd::prelude::*;

use crate::forms::IpVersion;
use crate::iplist::formatter::OutputFormat;

verus! {

/// The query of a request for the networks of a country or a continent.
pub struct IpListFormByCountry {
    pub country: Option<String>,
    pub continent: Option<String>,
    pub format: OutputFormat,
    pub version: Option<IpVersion>,
}

/// The query of a request for the networks of an autonomous system.
pub struct IpListFormByAsn {
    pub asn: Option<u32>,
    pub format: OutputFormat,
    pub version: Option<IpVersion>,
}

} // verus!
