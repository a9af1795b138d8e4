use vstd::prelude::*;
use itertools::Itertools;

use crate::error::AppError;
use crate::iplist::iprange::{IpAsnRangeByIp, IpAsnRanges, IpLocationRangeByIp, IpLocationRanges, Location};
use crate::status::{AppStatus, StatusCode};
use crate::text::{dec_text, decimal};

verus! {

broadcast use vstd::std_specs::hash::group_hash_axioms;

/// The geo lists: located networks and autonomous-system networks.
pub struct IpLists {
    pub location_ranges: IpLocationRanges,
    pub asn_ranges: IpAsnRanges,
}

impl Default for IpLists {
    fn default() -> (r: Self)
        ensures
            r.location_ranges.by_country@ == Map::<Seq<char>, IpLocationRangeByIp>::empty(),
            r.location_ranges.by_continent@ == Map::<Seq<char>, IpLocationRangeByIp>::empty(),
            r.asn_ranges.by_asn@ == Map::<u32, IpAsnRangeByIp>::empty(),
    {
        IpLists { location_ranges: IpLocationRanges::default(), asn_ranges: IpAsnRanges::default() }
    }
}

impl IpLists {
    /// The networks of a continent; not found when no network is located there.
    pub fn get_by_continent(&self, continent: &str) -> (r: Result<&IpLocationRangeByIp, AppError>)
        ensures
            match r {
                Ok(g) => self.location_ranges.by_continent@.contains_key(continent@)
                    && *g == self.location_ranges.by_continent@[continent@],
                Err(e) => !self.location_ranges.by_continent@.contains_key(continent@)
                    && (e matches AppError::NotFound(m) && m@ == "No location ranges found for continent: "@ + continent@),
            },
    {
        match self.location_ranges.by_continent.get(continent) {
            Some(g) => Ok(g),
            None => {
                let m = String::from_str("No location ranges found for continent: ").concat(continent);
                proof {
                    reveal_strlit("No location ranges found for continent: ");
                }
                Err(AppError::NotFound(m))
            },
        }
    }

    /// The networks of a country, by its two-letter code; not found when no
    /// network is located there.
    pub fn get_by_country(&self, country_alpha2: &str) -> (r: Result<&IpLocationRangeByIp, AppError>)
        ensures
            match r {
                Ok(g) => self.location_ranges.by_country@.contains_key(country_alpha2@)
                    && *g == self.location_ranges.by_country@[country_alpha2@],
                Err(e) => !self.location_ranges.by_country@.contains_key(country_alpha2@)
                    && (e matches AppError::NotFound(m) && m@ == "No location ranges found for country: "@ + country_alpha2@),
            },
    {
        match self.location_ranges.by_country.get(country_alpha2) {
            Some(g) => Ok(g),
            None => {
                let m = String::from_str("No location ranges found for country: ").concat(country_alpha2);
                proof {
                    reveal_strlit("No location ranges found for country: ");
                }
                Err(AppError::NotFound(m))
            },
        }
    }

    /// The networks of an autonomous system; not found when it has none.
    pub fn get_by_asn(&self, asn: u32) -> (r: Result<&IpAsnRangeByIp, AppError>)
        ensures
            match r {
                Ok(g) => self.asn_ranges.by_asn@.contains_key(asn) && *g == self.asn_ranges.by_asn@[asn],
                Err(e) => !self.asn_ranges.by_asn@.contains_key(asn)
                    && (e matches AppError::NotFound(m) && m@ == "No ASN ranges found for ASN: "@ + dec_text(asn as nat)),
            },
    {
        match self.asn_ranges.by_asn.get(&asn) {
            Some(g) => Ok(g),
            None => {
                let n = decimal(asn as u64);
                let m = String::from_str("No ASN ranges found for ASN: ").concat(n.as_str());
                proof {
                    reveal_strlit("No ASN ranges found for ASN: ");
                }
                Err(AppError::NotFound(m))
            },
        }
    }
}


/// `a` comes before `b` or equals it, comparing character by character (the
/// order of `String`, whose byte order is that of the characters).
pub open spec fn text_le(a: Seq<char>, b: Seq<char>) -> bool
    decreases a.len(),
{
    if a.len() == 0 {
        true
    } else if b.len() == 0 {
        false
    } else if a[0] != b[0] {
        (a[0] as u32) < (b[0] as u32)
    } else {
        text_le(a.drop_first(), b.drop_first())
    }
}

/// The locations are in ascending order of country code.
pub open spec fn sorted_by_code(s: Seq<Location>) -> bool {
    forall|i: int, j: int| 0 <= i < j < s.len() ==> text_le(s[i].code@, s[j].code@)
}

/// The locations of `s` with country code `k`, in order.
pub open spec fn code_group(s: Seq<Location>, k: Seq<char>) -> Seq<Location>
    decreases s.len(),
{
    if s.len() == 0 {
        Seq::empty()
    } else {
        let rest = code_group(s.drop_last(), k);
        if s.last().code@ == k {
            rest.push(s.last())
        } else {
            rest
        }
    }
}

/// itertools' `sorted_by_key` on the country codes. Its documentation states
/// a stable sort: the result is in ascending key order and locations of equal
/// code keep their order, which is all that is claimed here.
#[verifier::external_body]
fn sort_by_code(locations: Vec<Location>) -> (r: Vec<Location>)
    ensures
        sorted_by_code(r@),
        forall|k: Seq<char>| #[trigger] code_group(r@, k) == code_group(locations@, k),
{
    locations.into_iter().sorted_by_key(|l| l.code.clone()).collect()
}

/// The locations that the lists are built from: those with a country code,
/// sorted by code, locations of equal code in their order.
pub fn prepare_locations(locations: Vec<Location>) -> (r: Vec<Location>)
    ensures
        sorted_by_code(r@),
        forall|k: Seq<char>| #[trigger] code_group(r@, k)
            == (if k.len() > 0 { code_group(locations@, k) } else { Seq::<Location>::empty() }),
{
    let mut kept: Vec<Location> = Vec::new();
    let mut i: usize = 0;
    while i < locations.len()
        invariant
            i <= locations@.len(),
            forall|k: Seq<char>| #[trigger] code_group(kept@, k)
                == (if k.len() > 0 { code_group(locations@.take(i as int), k) } else { Seq::<Location>::empty() }),
        decreases locations@.len() - i,
    {
        let ghost before = kept@;
        let l = locations[i].copied();
        proof {
            assert(locations@.take(i + 1).drop_last() =~= locations@.take(i as int));
            assert(locations@.take(i + 1).last() == l);
        }
        if l.code.as_str().unicode_len() > 0 {
            kept.push(l);
            proof {
                assert(kept@.drop_last() =~= before);
            }
        }
        proof {
            let t = locations@.take(i as int);
            let t1 = locations@.take(i + 1);
            assert forall|k: Seq<char>| #[trigger] code_group(kept@, k)
                == (if k.len() > 0 { code_group(t1, k) } else { Seq::<Location>::empty() }) by {
                assert(code_group(before, k) == (if k.len() > 0 { code_group(t, k) } else { Seq::<Location>::empty() }));
            }
        }
        i = i + 1;
    }
    proof {
        assert(locations@.take(locations@.len() as int) =~= locations@);
    }
    sort_by_code(kept)
}

/// The error of a list that could not be loaded: what was being loaded and why.
pub fn list_load_error(what: &str, cause: &AppError) -> (r: AppError)
    ensures
        r matches AppError::ListLoadError(m) && m@ == "Failed to load "@ + what@ + ": "@ + cause.spec_message(),
{
    proof {
        reveal_strlit("Failed to load ");
        reveal_strlit(": ");
    }
    let m = String::from_str("Failed to load ").concat(what).concat(": ");
    let c = cause.message();
    AppError::ListLoadError(m.concat(c.as_str()))
}

/// How a refresh of the geo lists ends up in the status: the location and
/// system components report their load, the geo component warns of each list
/// that was not updated and is healthy when both were. (A failed save of the
/// location files is reported and then superseded by the successful load.)
/// `locations` is the load of the locations (with the error of saving their
/// files, if any), `asns` that of the systems.
pub fn record_geo_update(status: &mut AppStatus, locations: &Result<Option<AppError>, AppError>, asns: &Result<(), AppError>)
    ensures
        final(status).overall == old(status).overall,
        final(status).blocklist == old(status).blocklist,
        final(status).locations.update == old(status).locations.update,
        final(status).asns.update == old(status).asns.update,
        final(status).geo.update == old(status).geo.update,
        match locations {
            Ok(_) => final(status).locations.status.is(StatusCode::Okay, "Locations loaded successfully"@),
            Err(e) => final(status).locations.status.is(StatusCode::Error, e.spec_message()),
        },
        match asns {
            Ok(_) => final(status).asns.status.is(StatusCode::Okay, "ASNs loaded successfully"@),
            Err(e) => final(status).asns.status.is(StatusCode::Error, e.spec_message()),
        },
        match (locations, asns) {
            (Ok(_), Ok(_)) => final(status).geo.status.is(StatusCode::Okay, "GEO index loaded successfully"@),
            (_, Err(e)) => final(status).geo.status.is(StatusCode::Warning, "ASNs not updated: "@ + e.spec_message()),
            (Err(e), Ok(_)) => final(status).geo.status.is(StatusCode::Warning, "Locations not updated: "@ + e.spec_message()),
        },
{
    let mut geo_ok = true;
    proof {
        reveal_strlit("Failed to save locations: ");
        reveal_strlit("Locations loaded successfully");
        reveal_strlit("Locations not updated: ");
        reveal_strlit("ASNs loaded successfully");
        reveal_strlit("ASNs not updated: ");
        reveal_strlit("GEO index loaded successfully");
    }
    match locations {
        Ok(save_error) => {
            if let Some(e) = save_error {
                let msg = String::from_str("Failed to save locations: ").concat(e.message().as_str());
                status.locations.warning(msg);
            }
            status.locations.ok(String::from_str("Locations loaded successfully"));
        },
        Err(e) => {
            status.locations.error(e.message());
            status.geo.warning(String::from_str("Locations not updated: ").concat(e.message().as_str()));
            geo_ok = false;
        },
    }
    match asns {
        Ok(_) => {
            status.asns.ok(String::from_str("ASNs loaded successfully"));
        },
        Err(e) => {
            status.asns.error(e.message());
            status.geo.warning(String::from_str("ASNs not updated: ").concat(e.message().as_str()));
            geo_ok = false;
        },
    }
    if geo_ok {
        status.geo.ok(String::from_str("GEO index loaded successfully"));
    }
}

} // verus!
