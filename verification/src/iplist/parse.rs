use vstd::prelude::*;
use vstd::hash_map::StringHashMap;

use crate::iplist::iprange::{IpLocationRange, Location};
use crate::iptools::network::IpNet;

verus! {

/// The name of the downloaded country database archive.
pub const COUNTRY_FILENAME: &'static str = "ip-country.zip";

/// The name of the downloaded autonomous-system database archive.
pub const ASN_FILENAME: &'static str = "ip-asn.csv.gz";

/// The table of countries in the country archive.
pub const LOCATIONS_CSV: &'static str = "GeoLite2-Country-Locations-en.csv";

/// The IPv4 country networks in the country archive.
pub const COUNTRY_BLOCKS_V4_CSV: &'static str = "GeoLite2-Country-Blocks-IPv4.csv";

/// The IPv6 country networks in the country archive.
pub const COUNTRY_BLOCKS_V6_CSV: &'static str = "GeoLite2-Country-Blocks-IPv6.csv";

/// The IPv4 system networks in the system archive.
pub const ASN_BLOCKS_V4_CSV: &'static str = "GeoLite2-ASN-Blocks-IPv4.csv";

/// The IPv6 system networks in the system archive.
pub const ASN_BLOCKS_V6_CSV: &'static str = "GeoLite2-ASN-Blocks-IPv6.csv";

/// The reader of the MaxMind GeoLite2 databases.
pub struct MaxMindParser;

/// The location with identifier `id`: the last one of `locations` that has it.
pub open spec fn location_by_id(locations: Seq<Location>, id: Seq<char>) -> Option<Location>
    decreases locations.len(),
{
    if locations.len() == 0 {
        None
    } else if locations.last().id@ == id {
        Some(locations.last())
    } else {
        location_by_id(locations.drop_last(), id)
    }
}

/// The located networks of the rows (location identifier, network), in order:
/// a row whose identifier names no location is dropped.
pub open spec fn joined_rows(rows: Seq<(String, IpNet)>, locations: Seq<Location>) -> Seq<IpLocationRange>
    decreases rows.len(),
{
    if rows.len() == 0 {
        Seq::empty()
    } else {
        let rest = joined_rows(rows.drop_last(), locations);
        match location_by_id(locations, rows.last().0@) {
            Some(l) => rest.push(IpLocationRange { network: rows.last().1, location: l }),
            None => rest,
        }
    }
}

/// Locates the network rows of the country database: each row's location
/// identifier is looked up among `locations`.
pub fn join_locations(rows: &Vec<(String, IpNet)>, locations: &Vec<Location>) -> (r: Vec<IpLocationRange>)
    ensures
        r@ == joined_rows(rows@, locations@),
{
    let mut index: StringHashMap<usize> = StringHashMap::new();
    let mut j: usize = 0;
    while j < locations.len()
        invariant
            j <= locations@.len(),
            forall|id: Seq<char>| #[trigger] index@.contains_key(id) <==> location_by_id(locations@.take(j as int), id) is Some,
            forall|id: Seq<char>| #[trigger] index@.contains_key(id) ==> index@[id] < j
                && location_by_id(locations@.take(j as int), id) == Some(locations@[index@[id] as int]),
        decreases locations@.len() - j,
    {
        let ghost before = index@;
        index.insert(locations[j].id.clone(), j);
        proof {
            let t = locations@.take(j as int);
            let t1 = locations@.take(j + 1);
            assert(t1.drop_last() =~= t);
            assert(t1.last() == locations@[j as int]);
            assert forall|id: Seq<char>| #[trigger] index@.contains_key(id) <==> location_by_id(t1, id) is Some by {
                if id != locations@[j as int].id@ {
                    assert(index@.contains_key(id) == before.contains_key(id));
                }
            }
        }
        j = j + 1;
    }
    proof {
        assert(locations@.take(locations@.len() as int) =~= locations@);
    }
    let mut out: Vec<IpLocationRange> = Vec::new();
    let mut i: usize = 0;
    while i < rows.len()
        invariant
            i <= rows@.len(),
            forall|id: Seq<char>| #[trigger] index@.contains_key(id) <==> location_by_id(locations@, id) is Some,
            forall|id: Seq<char>| #[trigger] index@.contains_key(id) ==> index@[id] < locations@.len()
                && location_by_id(locations@, id) == Some(locations@[index@[id] as int]),
            out@ == joined_rows(rows@.take(i as int), locations@),
        decreases rows@.len() - i,
    {
        proof {
            assert(rows@.take(i + 1).drop_last() =~= rows@.take(i as int));
            assert(rows@.take(i + 1).last() == rows@[i as int]);
        }
        match index.get(rows[i].0.as_str()) {
            Some(k) => {
                let l = locations[*k].copied();
                out.push(IpLocationRange { network: rows[i].1, location: l });
            },
            None => {},
        }
        i = i + 1;
    }
    proof {
        assert(rows@.take(rows@.len() as int) =~= rows@);
    }
    out
}

} // verus!
