use vstd::prelude::*;

use crate::blocklist::fetch::BlocklistRanges;
use crate::forms::blocklist::BlocklistIpVersion;
use crate::handlers::iplist::by_version;
use crate::iptools::network::{IpNet, Ipv4Net, Ipv6Net};

verus! {

/// The IPv4 networks as networks of either family.
pub open spec fn as_nets4(s: Seq<Ipv4Net>) -> Seq<IpNet> {
    s.map_values(|n: Ipv4Net| IpNet::V4(n))
}

/// The IPv6 networks as networks of either family.
pub open spec fn as_nets6(s: Seq<Ipv6Net>) -> Seq<IpNet> {
    s.map_values(|n: Ipv6Net| IpNet::V6(n))
}

/// The blocklist networks that a request asks for: those of the family
/// asked for, or of both, IPv4 first. The list is named `blocklist`.
pub fn get_blocklist(blocklist: &BlocklistRanges<Ipv4Net, Ipv6Net>, form: &BlocklistIpVersion) -> (r: Vec<IpNet>)
    ensures
        r@ == by_version(as_nets4(blocklist.ipv4@), as_nets6(blocklist.ipv6@), form.version),
{
    let mut out: Vec<IpNet> = Vec::new();
    let take4 = match form.version {
        Some(crate::forms::IpVersion::Ipv6) => false,
        _ => true,
    };
    let take6 = match form.version {
        Some(crate::forms::IpVersion::Ipv4) => false,
        _ => true,
    };
    let ghost s4 = if take4 { as_nets4(blocklist.ipv4@) } else { Seq::<IpNet>::empty() };
    if take4 {
        let mut i: usize = 0;
        while i < blocklist.ipv4.len()
            invariant
                i <= blocklist.ipv4@.len(),
                out@ == as_nets4(blocklist.ipv4@.take(i as int)),
            decreases blocklist.ipv4@.len() - i,
        {
            out.push(IpNet::V4(blocklist.ipv4[i]));
            proof {
                assert(as_nets4(blocklist.ipv4@.take(i + 1)) =~= as_nets4(blocklist.ipv4@.take(i as int)).push(IpNet::V4(blocklist.ipv4@[i as int])));
            }
            i = i + 1;
        }
        proof {
            assert(blocklist.ipv4@.take(blocklist.ipv4@.len() as int) =~= blocklist.ipv4@);
        }
    }
    proof {
        assert(out@ =~= s4);
    }
    if take6 {
        let mut j: usize = 0;
        while j < blocklist.ipv6.len()
            invariant
                j <= blocklist.ipv6@.len(),
                out@ == s4 + as_nets6(blocklist.ipv6@.take(j as int)),
            decreases blocklist.ipv6@.len() - j,
        {
            out.push(IpNet::V6(blocklist.ipv6[j]));
            proof {
                assert(as_nets6(blocklist.ipv6@.take(j + 1)) =~= as_nets6(blocklist.ipv6@.take(j as int)).push(IpNet::V6(blocklist.ipv6@[j as int])));
                assert(s4 + as_nets6(blocklist.ipv6@.take(j + 1)) =~= (s4 + as_nets6(blocklist.ipv6@.take(j as int))).push(IpNet::V6(blocklist.ipv6@[j as int])));
            }
            j = j + 1;
        }
        proof {
            assert(blocklist.ipv6@.take(blocklist.ipv6@.len() as int) =~= blocklist.ipv6@);
        }
    }
    proof {
        match form.version {
            Some(crate::forms::IpVersion::Ipv4) => {},
            Some(crate::forms::IpVersion::Ipv6) => {
                assert(s4 + as_nets6(blocklist.ipv6@) =~= as_nets6(blocklist.ipv6@));
            },
            None => {},
        }
    }
    out
}

} // verus!
