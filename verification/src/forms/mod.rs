use vstd::prelude::*;

pub mod blocklist;
pub mod iplist;

verus! {

/// An IP family asked for by a request.
#[derive(Copy, Clone, Debug, PartialEq, Eq, Structural)]
pub enum IpVersion {
    Ipv4,
    Ipv6,
}

} // verus!
