use vstd::prelude::*;

use crate::iplist::iprange::Location;
use crate::iptools::network::{IpAddr, IpNet};

verus! {

/// What the geo lists know of an address: the network it lies in, its
/// autonomous system and provider, and its country.
pub struct CombinedIpRange {
    pub ip: IpAddr,
    pub network: IpNet,
    pub asn: u32,
    pub isp: String,
    pub location: Location,
}

impl CombinedIpRange {
    /// The record of an address.
    pub fn new(ip: IpAddr, network: IpNet, asn: u32, isp: String, location: Location) -> (r: Self)
        ensures
            r.ip == ip,
            r.network == network,
            r.asn == asn,
            r.isp == isp,
            r.location == location,
    {
        CombinedIpRange { ip, network, asn, isp, location }
    }
}

} // verus!
