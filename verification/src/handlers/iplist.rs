use vstd::prelude::*;
use std::collections::HashMap;
use vstd::std_specs::iter::IteratorSpec;
use itertools::Itertools;

use crate::error::AppError;
use crate::forms::IpVersion;
use crate::forms::iplist::{IpListFormByAsn, IpListFormByCountry};
use crate::iplist::iprange::{concat_ranges, IpAsnRange, IpAsnRangeByIp, IpLocationRange, IpLocationRangeByIp, Location, LocationRangeGroups};
use crate::list::IpLists;
use crate::text::{dec_text, decimal, first_occurrences, views};

verus! {

broadcast use vstd::std_specs::hash::group_hash_axioms;

/// The networks of the systems `keys`, in that order, of one family.
pub open spec fn asn_concat(m: Map<u32, IpAsnRangeByIp>, keys: Seq<u32>, v4: bool) -> Seq<IpAsnRange>
    decreases keys.len(),
{
    if keys.len() == 0 {
        Seq::empty()
    } else {
        asn_concat(m, keys.drop_last(), v4) + (if v4 { m[keys.last()].ipv4@ } else { m[keys.last()].ipv6@ })
    }
}

/// The networks of all systems, system after system in the map's order.
pub fn all_asn_ranges(by_asn: &HashMap<u32, IpAsnRangeByIp>) -> (r: IpAsnRangeByIp)
    ensures
        exists|keys: Seq<u32>| {
            &&& keys.no_duplicates()
            &&& keys.to_set() == by_asn@.dom()
            &&& r.ipv4@ == asn_concat(by_asn@, keys, true)
            &&& r.ipv6@ == asn_concat(by_asn@, keys, false)
        },
{
    let mut v4: Vec<IpAsnRange> = Vec::new();
    let mut v6: Vec<IpAsnRange> = Vec::new();
    let ghost m = by_asn@;
    let ghost mut keys: Seq<u32> = Seq::empty();
    for (k, g) in it: by_asn.iter()
        invariant
            m == by_asn@,
            it.seq() == vstd::std_specs::hash::spec_hash_map_iter(by_asn).remaining(),
            it.seq().no_duplicates(),
            keys.len() == it.index(),
            forall|i: int| 0 <= i < it.index() ==> keys[i] == *it.seq()[i].0,
            v4@ == asn_concat(m, keys, true),
            v6@ == asn_concat(m, keys, false),
    {
        proof {
            assert(m.contains_key(*k) && m[*k] == *g);
        }
        v4 = concat_ranges(&v4, &g.ipv4);
        v6 = concat_ranges(&v6, &g.ipv6);
        proof {
            assert(keys.push(*k).drop_last() =~= keys);
            keys = keys.push(*k);
        }
    }
    proof {
        let sq = vstd::std_specs::hash::spec_hash_map_iter(by_asn).remaining();
        assert(keys.len() == sq.len());
        assert forall|i: int, j: int| 0 <= i < keys.len() && 0 <= j < keys.len() && i != j implies keys[i] != keys[j] by {
            assert(m.contains_key(*sq[i].0) && m[*sq[i].0] == *sq[i].1);
            assert(m.contains_key(*sq[j].0) && m[*sq[j].0] == *sq[j].1);
            assert(sq[i] != sq[j]);
        }
        assert(keys.no_duplicates());
        assert forall|k: u32| #[trigger] keys.to_set().contains(k) <==> m.dom().contains(k) by {
            if m.dom().contains(k) {
                assert(sq.contains((&k, &m[k])));
                let i = choose|i: int| 0 <= i < sq.len() && sq[i] == (&k, &m[k]);
                assert(keys[i] == k);
            }
            if keys.to_set().contains(k) {
                let i = choose|i: int| 0 <= i < keys.len() && keys[i] == k;
                assert(m.contains_key(*sq[i].0));
            }
        }
        assert(keys.to_set() =~= m.dom());
    }
    IpAsnRangeByIp { ipv4: v4, ipv6: v6 }
}


/// The networks of the groups `keys`, in that order, of one family.
pub open spec fn location_concat(m: Map<Seq<char>, IpLocationRangeByIp>, keys: Seq<Seq<char>>, v4: bool) -> Seq<IpLocationRange>
    decreases keys.len(),
{
    if keys.len() == 0 {
        Seq::empty()
    } else {
        location_concat(m, keys.drop_last(), v4) + (if v4 { m[keys.last()].ipv4@ } else { m[keys.last()].ipv6@ })
    }
}

/// The networks of all groups, group after group in key order.
pub fn all_location_ranges(groups: &LocationRangeGroups) -> (r: IpLocationRangeByIp)
    ensures
        r.ipv4@ == location_concat(groups@, groups.key_order(), true),
        r.ipv6@ == location_concat(groups@, groups.key_order(), false),
{
    let n = groups.len();
    let ghost keys = groups.key_order();
    let mut v4: Vec<IpLocationRange> = Vec::new();
    let mut v6: Vec<IpLocationRange> = Vec::new();
    let mut i: usize = 0;
    proof {
        assert(keys.take(0) =~= Seq::<Seq<char>>::empty());
    }
    while i < n
        invariant
            n == keys.len(),
            keys == groups.key_order(),
            i <= n,
            v4@ == location_concat(groups@, keys.take(i as int), true),
            v6@ == location_concat(groups@, keys.take(i as int), false),
        decreases n - i,
    {
        let g = groups.group_at(i);
        proof {
            assert(keys.take(i + 1).drop_last() =~= keys.take(i as int));
            assert(keys.take(i + 1).last() == keys[i as int]);
        }
        v4 = concat_ranges(&v4, &g.ipv4);
        v6 = concat_ranges(&v6, &g.ipv6);
        i = i + 1;
    }
    proof {
        assert(keys.take(n as int) =~= keys);
    }
    IpLocationRangeByIp { ipv4: v4, ipv6: v6 }
}

/// The networks of one family when a version is asked for, else of both,
/// IPv4 first.
pub open spec fn by_version<T>(v4: Seq<T>, v6: Seq<T>, version: Option<IpVersion>) -> Seq<T> {
    match version {
        Some(IpVersion::Ipv4) => v4,
        Some(IpVersion::Ipv6) => v6,
        None => v4 + v6,
    }
}

fn select_version<T: crate::iptools::network::ListNetwork>(v4: &Vec<T>, v6: &Vec<T>, version: Option<IpVersion>) -> (r: Vec<T>)
    ensures
        r@ == by_version(v4@, v6@, version),
{
    let empty: Vec<T> = Vec::new();
    match version {
        Some(IpVersion::Ipv4) => {
            let r = concat_ranges(v4, &empty);
            proof {
                assert(v4@ + empty@ =~= v4@);
            }
            r
        },
        Some(IpVersion::Ipv6) => {
            let r = concat_ranges(v6, &empty);
            proof {
                assert(v6@ + empty@ =~= v6@);
            }
            r
        },
        None => concat_ranges(v4, v6),
    }
}

/// The networks of a group of the family the query asks for, or of both.
pub fn get_ips_by_version(ips: &IpLocationRangeByIp, form: &IpListFormByCountry) -> (r: Vec<IpLocationRange>)
    ensures
        r@ == by_version(ips.ipv4@, ips.ipv6@, form.version),
{
    select_version(&ips.ipv4, &ips.ipv6, form.version)
}

/// The networks that a request by location asks for, with the name of the
/// list: those of the continent when one is given, else those of the country
/// when one is given, else all of them, continent after continent; of the
/// family asked for, or of both.
pub fn select_by_location(lists: &IpLists, form: &IpListFormByCountry) -> (r: Result<(Vec<IpLocationRange>, Option<String>), AppError>)
    ensures
        match form.continent {
            Some(c) => match r {
                Ok((v, name)) => lists.location_ranges.by_continent@.contains_key(c@)
                    && v@ == by_version(lists.location_ranges.by_continent@[c@].ipv4@, lists.location_ranges.by_continent@[c@].ipv6@, form.version)
                    && name == Some(c),
                Err(e) => !lists.location_ranges.by_continent@.contains_key(c@)
                    && (e matches AppError::NotFound(m) && m@ == "No location ranges found for continent: "@ + c@),
            },
            None => match form.country {
                Some(c) => match r {
                    Ok((v, name)) => lists.location_ranges.by_country@.contains_key(c@)
                        && v@ == by_version(lists.location_ranges.by_country@[c@].ipv4@, lists.location_ranges.by_country@[c@].ipv6@, form.version)
                        && name == Some(c),
                    Err(e) => !lists.location_ranges.by_country@.contains_key(c@)
                        && (e matches AppError::NotFound(m) && m@ == "No location ranges found for country: "@ + c@),
                },
                None => match r {
                    Ok((v, name)) => name is None && v@ == by_version(
                        location_concat(lists.location_ranges.by_continent@, lists.location_ranges.by_continent.key_order(), true),
                        location_concat(lists.location_ranges.by_continent@, lists.location_ranges.by_continent.key_order(), false),
                        form.version,
                    ),
                    Err(_) => false,
                },
            },
        },
{
    match &form.continent {
        Some(c) => {
            let g = lists.get_by_continent(c.as_str())?;
            Ok((get_ips_by_version(g, form), Some(c.clone())))
        },
        None => match &form.country {
            Some(c) => {
                let g = lists.get_by_country(c.as_str())?;
                Ok((get_ips_by_version(g, form), Some(c.clone())))
            },
            None => {
                let all = all_location_ranges(&lists.location_ranges.by_continent);
                Ok((get_ips_by_version(&all, form), None))
            },
        },
    }
}

/// The networks that a request by autonomous system asks for, with the name
/// of the list (`asn` and the number): those of the system when one is
/// given, else those of all systems, system after system in the map's order;
/// of the family asked for, or of both.
pub fn select_by_asn(lists: &IpLists, form: &IpListFormByAsn) -> (r: Result<(Vec<IpAsnRange>, Option<String>), AppError>)
    ensures
        match form.asn {
            Some(a) => match r {
                Ok((v, name)) => lists.asn_ranges.by_asn@.contains_key(a)
                    && v@ == by_version(lists.asn_ranges.by_asn@[a].ipv4@, lists.asn_ranges.by_asn@[a].ipv6@, form.version)
                    && (name matches Some(n) && n@ == "asn"@ + dec_text(a as nat)),
                Err(e) => !lists.asn_ranges.by_asn@.contains_key(a)
                    && (e matches AppError::NotFound(m) && m@ == "No ASN ranges found for ASN: "@ + dec_text(a as nat)),
            },
            None => match r {
                Ok((v, name)) => name is None && exists|keys: Seq<u32>| {
                    &&& keys.no_duplicates()
                    &&& keys.to_set() == lists.asn_ranges.by_asn@.dom()
                    &&& v@ == by_version(
                        asn_concat(lists.asn_ranges.by_asn@, keys, true),
                        asn_concat(lists.asn_ranges.by_asn@, keys, false),
                        form.version,
                    )
                },
                Err(_) => false,
            },
        },
{
    match form.asn {
        Some(a) => {
            let g = lists.get_by_asn(a)?;
            let v = select_version(&g.ipv4, &g.ipv6, form.version);
            proof {
                reveal_strlit("asn");
            }
            let name = String::from_str("asn").concat(decimal(a as u64).as_str());
            Ok((v, Some(name)))
        },
        None => {
            let all = all_asn_ranges(&lists.asn_ranges.by_asn);
            let v = select_version(&all.ipv4, &all.ipv6, form.version);
            Ok((v, None))
        },
    }
}

/// The continents of `s`, in order.
pub open spec fn continents_of(s: Seq<Location>) -> Seq<Seq<char>> {
    s.map_values(|l: Location| l.continent@)
}

/// itertools' `unique_by` on the continents of the locations, keeping the
/// continent of each: its documentation states that it keeps the first of
/// each set of equal keys, in order, which is what is claimed.
#[verifier::external_body]
fn unique_continents(locations: &Vec<Location>) -> (r: Vec<String>)
    ensures
        views(r@) == first_occurrences(continents_of(locations@)),
{
    locations.iter().cloned().unique_by(|l| l.continent.clone()).map(|l| l.continent).collect()
}

/// The continents of the locations, each once, in order of first occurrence.
pub fn get_all_continents(locations: &Vec<Location>) -> (r: Vec<String>)
    ensures
        views(r@) == first_occurrences(continents_of(locations@)),
{
    unique_continents(locations)
}

} // verus!
