use vstd::prelude::*;
use std::collections::HashMap;
use vstd::hash_map::StringHashMap;

use crate::error::AppError;
use crate::iptools::iptrie::{fill_trie, spec_deduplicate, IPTrie, TrieKey};
use crate::iptools::network::{IpAddr, IpNet, ListNetwork, Splitable};
use crate::iplist::formatter::{joined_lines, lemma_joined_lines_concat, nft_set_name, nft_text, OutputFormat};
use crate::text::{first_occurrences, lemma_first_occurrences, views};

verus! {

broadcast use vstd::std_specs::hash::group_hash_axioms;

/// A country of the geo database.
#[derive(Clone, Debug)]
pub struct Location {
    pub id: String,
    pub name: String,
    pub code: String,
    pub continent: String,
}

impl Location {
    /// A copy of the location.
    pub fn copied(&self) -> (r: Self)
        ensures
            r == *self,
    {
        Location {
            id: self.id.clone(),
            name: self.name.clone(),
            code: self.code.clone(),
            continent: self.continent.clone(),
        }
    }
}

impl Default for Location {
    fn default() -> (r: Self)
        ensures
            r.id@ == Seq::<char>::empty(),
            r.name@ == Seq::<char>::empty(),
            r.code@ == Seq::<char>::empty(),
            r.continent@ == Seq::<char>::empty(),
    {
        Location { id: String::new(), name: String::new(), code: String::new(), continent: String::new() }
    }
}

/// A network of the geo database with the country it is located in.
#[derive(Clone, Debug)]
pub struct IpLocationRange {
    pub network: IpNet,
    pub location: Location,
}

/// A network of the geo database with its autonomous system and provider.
#[derive(Clone, Debug)]
pub struct IpAsnRange {
    pub network: IpNet,
    pub asn: u32,
    pub isp: String,
}

impl ListNetwork for IpLocationRange {
    open spec fn key(&self) -> TrieKey {
        self.network.key()
    }

    open spec fn spec_address(&self) -> IpAddr {
        self.network.spec_address()
    }

    open spec fn spec_is_net(&self) -> bool {
        self.network.spec_is_net()
    }

    open spec fn spec_text(&self) -> Seq<char> {
        self.network.spec_text()
    }

    fn address(&self) -> (r: IpAddr) {
        self.network.address()
    }

    fn network_prefix(&self) -> (r: u8) {
        self.network.network_prefix()
    }

    fn trie_key(&self) -> (r: TrieKey) {
        self.network.trie_key()
    }

    fn network_string(&self) -> (r: String) {
        self.network.network_string()
    }

    fn is_net(&self) -> (r: bool) {
        self.network.is_net()
    }

    fn is_ipv4(&self) -> (r: bool) {
        self.network.is_ipv4()
    }

    fn is_ipv6(&self) -> (r: bool) {
        self.network.is_ipv6()
    }

    fn duplicate(&self) -> (r: Self) {
        IpLocationRange { network: self.network, location: self.location.copied() }
    }
}

impl Splitable for IpLocationRange {
    open spec fn rekey(&self, k: TrieKey) -> Self {
        IpLocationRange { network: self.network.rekey(k), location: self.location }
    }

    fn split(&self) -> (r: Result<(Self, Self), AppError>) {
        let (a, b) = self.network.split()?;
        Ok((
            IpLocationRange { network: a, location: self.location.copied() },
            IpLocationRange { network: b, location: self.location.copied() },
        ))
    }

    proof fn lemma_rekey_twice(&self, k1: TrieKey, k2: TrieKey) {
        self.network.lemma_rekey_twice(k1, k2);
    }
}

impl ListNetwork for IpAsnRange {
    open spec fn key(&self) -> TrieKey {
        self.network.key()
    }

    open spec fn spec_address(&self) -> IpAddr {
        self.network.spec_address()
    }

    open spec fn spec_is_net(&self) -> bool {
        self.network.spec_is_net()
    }

    open spec fn spec_text(&self) -> Seq<char> {
        self.network.spec_text()
    }

    fn address(&self) -> (r: IpAddr) {
        self.network.address()
    }

    fn network_prefix(&self) -> (r: u8) {
        self.network.network_prefix()
    }

    fn trie_key(&self) -> (r: TrieKey) {
        self.network.trie_key()
    }

    fn network_string(&self) -> (r: String) {
        self.network.network_string()
    }

    fn is_net(&self) -> (r: bool) {
        self.network.is_net()
    }

    fn is_ipv4(&self) -> (r: bool) {
        self.network.is_ipv4()
    }

    fn is_ipv6(&self) -> (r: bool) {
        self.network.is_ipv6()
    }

    fn duplicate(&self) -> (r: Self) {
        IpAsnRange { network: self.network, asn: self.asn, isp: self.isp.clone() }
    }
}

impl Splitable for IpAsnRange {
    open spec fn rekey(&self, k: TrieKey) -> Self {
        IpAsnRange { network: self.network.rekey(k), asn: self.asn, isp: self.isp }
    }

    fn split(&self) -> (r: Result<(Self, Self), AppError>) {
        let (a, b) = self.network.split()?;
        Ok((
            IpAsnRange { network: a, asn: self.asn, isp: self.isp.clone() },
            IpAsnRange { network: b, asn: self.asn, isp: self.isp.clone() },
        ))
    }

    proof fn lemma_rekey_twice(&self, k1: TrieKey, k2: TrieKey) {
        self.network.lemma_rekey_twice(k1, k2);
    }
}

/// The networks of a country, a continent or an autonomous system, by family.
pub struct IpLocationRangeByIp {
    pub ipv4: Vec<IpLocationRange>,
    pub ipv6: Vec<IpLocationRange>,
}

impl Default for IpLocationRangeByIp {
    fn default() -> (r: Self)
        ensures
            r.ipv4@ == Seq::<IpLocationRange>::empty(),
            r.ipv6@ == Seq::<IpLocationRange>::empty(),
    {
        IpLocationRangeByIp { ipv4: Vec::new(), ipv6: Vec::new() }
    }
}

/// The networks of an autonomous system, by family.
pub struct IpAsnRangeByIp {
    pub ipv4: Vec<IpAsnRange>,
    pub ipv6: Vec<IpAsnRange>,
}

impl Default for IpAsnRangeByIp {
    fn default() -> (r: Self)
        ensures
            r.ipv4@ == Seq::<IpAsnRange>::empty(),
            r.ipv6@ == Seq::<IpAsnRange>::empty(),
    {
        IpAsnRangeByIp { ipv4: Vec::new(), ipv6: Vec::new() }
    }
}

/// Lookup tries of the located networks, one per family.
pub struct IPTrieLocationRanges {
    pub ipv4: IPTrie<IpLocationRange>,
    pub ipv6: IPTrie<IpLocationRange>,
}

impl Default for IPTrieLocationRanges {
    fn default() -> (r: Self)
        ensures
            r.ipv4@ == Set::<IpLocationRange>::empty(),
            r.ipv6@ == Set::<IpLocationRange>::empty(),
    {
        IPTrieLocationRanges { ipv4: IPTrie::new(), ipv6: IPTrie::new() }
    }
}

/// Lookup tries of the autonomous-system networks, one per family.
pub struct IPTrieAsnRanges {
    pub ipv4: IPTrie<IpAsnRange>,
    pub ipv6: IPTrie<IpAsnRange>,
}

impl Default for IPTrieAsnRanges {
    fn default() -> (r: Self)
        ensures
            r.ipv4@ == Set::<IpAsnRange>::empty(),
            r.ipv6@ == Set::<IpAsnRange>::empty(),
    {
        IPTrieAsnRanges { ipv4: IPTrie::new(), ipv6: IPTrie::new() }
    }
}

// ---------------------------------------------------------------------------
// Families and groups
// ---------------------------------------------------------------------------

/// The elements of `s` of one family (IPv4 when `v4`), in order.
pub open spec fn family<T: ListNetwork>(s: Seq<T>, v4: bool) -> Seq<T>
    decreases s.len(),
{
    if s.len() == 0 {
        Seq::empty()
    } else {
        let rest = family(s.drop_last(), v4);
        if (s.last().key().addr is Ipv4) == v4 {
            rest.push(s.last())
        } else {
            rest
        }
    }
}

/// The networks of `s` of autonomous system `a`, in order.
pub open spec fn asn_group(s: Seq<IpAsnRange>, a: u32) -> Seq<IpAsnRange>
    decreases s.len(),
{
    if s.len() == 0 {
        Seq::empty()
    } else {
        let rest = asn_group(s.drop_last(), a);
        if s.last().asn == a {
            rest.push(s.last())
        } else {
            rest
        }
    }
}

/// The networks that the ranges keep of one family: after ordering by prefix
/// length, those no earlier network of the family covers.
pub open spec fn kept_family<T: ListNetwork>(s: Seq<T>, v4: bool) -> Seq<T> {
    spec_deduplicate(family(s, v4))
}

/// Splits `ranges` into its IPv4 and its IPv6 networks, keeping their order.
fn split_families<T: ListNetwork>(ranges: &Vec<T>) -> (r: (Vec<T>, Vec<T>))
    ensures
        r.0@ == family(ranges@, true),
        r.1@ == family(ranges@, false),
{
    let mut v4: Vec<T> = Vec::new();
    let mut v6: Vec<T> = Vec::new();
    let mut i: usize = 0;
    while i < ranges.len()
        invariant
            i <= ranges@.len(),
            v4@ == family(ranges@.take(i as int), true),
            v6@ == family(ranges@.take(i as int), false),
        decreases ranges@.len() - i,
    {
        proof {
            assert(ranges@.take(i + 1).drop_last() =~= ranges@.take(i as int));
        }
        let x = ranges[i].duplicate();
        if x.is_ipv4() {
            v4.push(x);
        } else {
            v6.push(x);
        }
        i = i + 1;
    }
    proof {
        assert(ranges@.take(ranges@.len() as int) =~= ranges@);
    }
    (v4, v6)
}

/// The networks of the autonomous systems, grouped by system and indexed by
/// family.
pub struct IpAsnRanges {
    pub by_asn: HashMap<u32, IpAsnRangeByIp>,
    pub trie: IPTrieAsnRanges,
}

/// `m` groups the networks of `kept4` and `kept6` by autonomous system.
pub open spec fn groups_by_asn(m: Map<u32, IpAsnRangeByIp>, kept4: Seq<IpAsnRange>, kept6: Seq<IpAsnRange>) -> bool {
    &&& forall|a: u32| #[trigger] m.contains_key(a) <==> (asn_group(kept4, a).len() > 0 || asn_group(kept6, a).len() > 0)
    &&& forall|a: u32| #[trigger] m.contains_key(a) ==> m[a].ipv4@ == asn_group(kept4, a) && m[a].ipv6@ == asn_group(kept6, a)
}

/// Adds the networks of `s` (all of one family) to their systems' groups.
fn add_asn_groups(m: &mut HashMap<u32, IpAsnRangeByIp>, s: &Vec<IpAsnRange>, v4: bool, other: Ghost<Seq<IpAsnRange>>)
    requires
        v4 ==> groups_by_asn(old(m)@, Seq::empty(), other@),
        !v4 ==> groups_by_asn(old(m)@, other@, Seq::empty()),
    ensures
        v4 ==> groups_by_asn(final(m)@, s@, other@),
        !v4 ==> groups_by_asn(final(m)@, other@, s@),
{
    let mut i: usize = 0;
    proof {
        assert(s@.take(0) =~= Seq::<IpAsnRange>::empty());
    }
    while i < s.len()
        invariant
            i <= s@.len(),
            v4 ==> groups_by_asn(m@, s@.take(i as int), other@),
            !v4 ==> groups_by_asn(m@, other@, s@.take(i as int)),
        decreases s@.len() - i,
    {
        let x = s[i].duplicate();
        let a = x.asn;
        let ghost before = m@;
        let removed = m.remove(&a);
        proof {
            assert(m@ == before.remove(a));
            assert(removed matches Some(g) ==> before.contains_key(a) && g == before[a]);
            assert(removed is None ==> !before.contains_key(a));
        }
        let mut g = match removed {
            Some(g) => g,
            None => IpAsnRangeByIp::default(),
        };
        let ghost g0 = g;
        if v4 {
            g.ipv4.push(x);
        } else {
            g.ipv6.push(x);
        }
        m.insert(a, g);
        proof {
            let t = s@.take(i as int);
            let t1 = s@.take(i + 1);
            assert(t1.drop_last() =~= t);
            assert(t1.last() == x);
            assert(m@ == before.remove(a).insert(a, g));
            assert forall|b: u32| b != a implies asn_group(t1, b) == asn_group(t, b) by {}
            assert(asn_group(t1, a) == asn_group(t, a).push(x));
            if v4 {
                assert forall|b: u32| #[trigger] m@.contains_key(b) <==> (asn_group(t1, b).len() > 0 || asn_group(other@, b).len() > 0) by {
                    if b != a {
                        assert(m@.contains_key(b) == before.contains_key(b));
                    }
                }
                assert forall|b: u32| #[trigger] m@.contains_key(b) implies m@[b].ipv4@ == asn_group(t1, b) && m@[b].ipv6@ == asn_group(other@, b) by {
                    if b != a {
                        assert(m@[b] == before[b]);
                    } else if before.contains_key(a) {
                        assert(g0 == before[a]);
                    } else {
                        assert(asn_group(t, a).len() == 0 && asn_group(other@, a).len() == 0);
                    }
                }
            } else {
                assert forall|b: u32| #[trigger] m@.contains_key(b) <==> (asn_group(other@, b).len() > 0 || asn_group(t1, b).len() > 0) by {
                    if b != a {
                        assert(m@.contains_key(b) == before.contains_key(b));
                    }
                }
                assert forall|b: u32| #[trigger] m@.contains_key(b) implies m@[b].ipv4@ == asn_group(other@, b) && m@[b].ipv6@ == asn_group(t1, b) by {
                    if b != a {
                        assert(m@[b] == before[b]);
                    } else if before.contains_key(a) {
                        assert(g0 == before[a]);
                    } else {
                        assert(asn_group(t, a).len() == 0 && asn_group(other@, a).len() == 0);
                    }
                }
            }
        }
        i = i + 1;
    }
    proof {
        assert(s@.take(s@.len() as int) =~= s@);
    }
}

impl IpAsnRanges {
    /// Indexes the networks of the autonomous systems: per family, after
    /// ordering by prefix length, each network that no network kept before
    /// covers is kept, filed in the family's lookup trie and in its system's
    /// group, in that order.
    pub fn new(asn_ranges: Vec<IpAsnRange>) -> (r: Self)
        ensures
            r.trie.ipv4@ == kept_family(asn_ranges@, true).to_set(),
            r.trie.ipv6@ == kept_family(asn_ranges@, false).to_set(),
            groups_by_asn(r.by_asn@, kept_family(asn_ranges@, true), kept_family(asn_ranges@, false)),
    {
        let (v4, v6) = split_families(&asn_ranges);
        let (trie4, kept4) = fill_trie(&v4);
        let (trie6, kept6) = fill_trie(&v6);
        let mut by_asn: HashMap<u32, IpAsnRangeByIp> = HashMap::new();
        proof {
            assert(groups_by_asn(by_asn@, Seq::empty(), Seq::empty()));
        }
        add_asn_groups(&mut by_asn, &kept4, true, Ghost(Seq::empty()));
        add_asn_groups(&mut by_asn, &kept6, false, Ghost(kept4@));
        IpAsnRanges { by_asn, trie: IPTrieAsnRanges { ipv4: trie4, ipv6: trie6 } }
    }
}

impl Default for IpAsnRanges {
    fn default() -> (r: Self)
        ensures
            r.by_asn@ == Map::<u32, IpAsnRangeByIp>::empty(),
            r.trie.ipv4@ == Set::<IpAsnRange>::empty(),
            r.trie.ipv6@ == Set::<IpAsnRange>::empty(),
    {
        IpAsnRanges { by_asn: HashMap::new(), trie: IPTrieAsnRanges::default() }
    }
}


/// The text by which a located network is grouped: its country code, or its
/// continent when `by_continent`.
pub open spec fn location_key(x: IpLocationRange, by_continent: bool) -> Seq<char> {
    if by_continent {
        x.location.continent@
    } else {
        x.location.code@
    }
}

/// The networks of `s` whose country code (or continent) is `k`, in order.
pub open spec fn location_group(s: Seq<IpLocationRange>, by_continent: bool, k: Seq<char>) -> Seq<IpLocationRange>
    decreases s.len(),
{
    if s.len() == 0 {
        Seq::empty()
    } else {
        let rest = location_group(s.drop_last(), by_continent, k);
        if location_key(s.last(), by_continent) == k {
            rest.push(s.last())
        } else {
            rest
        }
    }
}

/// The keys of the networks of `s`, in order.
pub open spec fn location_keys(s: Seq<IpLocationRange>, by_continent: bool) -> Seq<Seq<char>> {
    s.map_values(|x: IpLocationRange| location_key(x, by_continent))
}

/// A key has a group exactly when some network has it.
proof fn lemma_group_nonempty(s: Seq<IpLocationRange>, by_continent: bool, k: Seq<char>)
    ensures
        location_group(s, by_continent, k).len() > 0 <==> location_keys(s, by_continent).contains(k),
    decreases s.len(),
{
    if s.len() > 0 {
        lemma_group_nonempty(s.drop_last(), by_continent, k);
        let ks = location_keys(s, by_continent);
        let kd = location_keys(s.drop_last(), by_continent);
        assert(kd =~= ks.drop_last());
        assert(ks[ks.len() - 1] == location_key(s.last(), by_continent));
        if location_key(s.last(), by_continent) == k {
            assert(ks[ks.len() - 1] == k);
        }
        if kd.contains(k) {
            let i = choose|i: int| 0 <= i < kd.len() && kd[i] == k;
            assert(ks[i] == k);
        }
        if ks.contains(k) {
            let i = choose|i: int| 0 <= i < ks.len() && ks[i] == k;
            if i < ks.len() - 1 {
                assert(kd[i] == k);
            }
        }
    }
}

/// `m` groups the networks of `kept4` and `kept6` by country code (or continent).
pub open spec fn groups_by_location(
    m: Map<Seq<char>, IpLocationRangeByIp>,
    kept4: Seq<IpLocationRange>,
    kept6: Seq<IpLocationRange>,
    by_continent: bool,
) -> bool {
    &&& forall|k: Seq<char>| #[trigger] m.contains_key(k)
        <==> (location_group(kept4, by_continent, k).len() > 0 || location_group(kept6, by_continent, k).len() > 0)
    &&& forall|k: Seq<char>| #[trigger] m.contains_key(k) ==> m[k].ipv4@ == location_group(kept4, by_continent, k)
        && m[k].ipv6@ == location_group(kept6, by_continent, k)
}

/// Groups under construction: each key has a slot number, and each slot its
/// networks.
struct LocationGroups {
    index: StringHashMap<usize>,
    keys: Vec<String>,
    slots: HashMap<usize, IpLocationRangeByIp>,
}

impl LocationGroups {
    spec fn wf(self) -> bool {
        &&& forall|k: Seq<char>| #[trigger] self.index@.contains_key(k)
            ==> self.index@[k] < self.keys@.len() && self.keys@[self.index@[k] as int]@ == k
        &&& forall|j: int| 0 <= j < self.keys@.len()
            ==> self.index@.contains_key(#[trigger] self.keys@[j]@) && self.index@[self.keys@[j]@] == j
        &&& forall|j: usize| #[trigger] self.slots@.contains_key(j) <==> j < self.keys@.len()
    }

    spec fn models(self, p4: Seq<IpLocationRange>, p6: Seq<IpLocationRange>, by_continent: bool) -> bool {
        &&& self.wf()
        &&& forall|k: Seq<char>| #[trigger] self.index@.contains_key(k)
            <==> (location_group(p4, by_continent, k).len() > 0 || location_group(p6, by_continent, k).len() > 0)
        &&& forall|k: Seq<char>| #[trigger] self.index@.contains_key(k)
            ==> self.slots@[self.index@[k]].ipv4@ == location_group(p4, by_continent, k)
                && self.slots@[self.index@[k]].ipv6@ == location_group(p6, by_continent, k)
        &&& views(self.keys@) == first_occurrences(location_keys(p4 + p6, by_continent))
    }

    fn new(by_continent: bool) -> (r: Self)
        ensures
            r.models(Seq::empty(), Seq::empty(), by_continent),
    {
        let r = LocationGroups { index: StringHashMap::new(), keys: Vec::new(), slots: HashMap::new() };
        proof {
            assert(views(r.keys@) =~= Seq::<Seq<char>>::empty());
            assert(location_keys(Seq::<IpLocationRange>::empty() + Seq::<IpLocationRange>::empty(), by_continent)
                =~= Seq::<Seq<char>>::empty());
        }
        r
    }

    /// Files the networks of `s` (all of one family) under their keys.
    fn add_all(&mut self, s: &Vec<IpLocationRange>, v4: bool, by_continent: bool, other: Ghost<Seq<IpLocationRange>>)
        requires
            v4 ==> other@.len() == 0,
            v4 ==> old(self).models(Seq::empty(), other@, by_continent),
            !v4 ==> old(self).models(other@, Seq::empty(), by_continent),
        ensures
            v4 ==> final(self).models(s@, other@, by_continent),
            !v4 ==> final(self).models(other@, s@, by_continent),
    {
        let mut i: usize = 0;
        proof {
            assert(s@.take(0) =~= Seq::<IpLocationRange>::empty());
        }
        while i < s.len()
            invariant
                i <= s@.len(),
                v4 ==> other@.len() == 0,
                v4 ==> self.models(s@.take(i as int), other@, by_continent),
                !v4 ==> self.models(other@, s@.take(i as int), by_continent),
            decreases s@.len() - i,
        {
            let x = s[i].duplicate();
            let key = if by_continent {
                x.location.continent.clone()
            } else {
                x.location.code.clone()
            };
            proof {
                let t = s@.take(i as int);
                let t1 = s@.take(i + 1);
                assert(t1.drop_last() =~= t);
                assert(t1.last() == x);
                assert(key@ == location_key(x, by_continent));
            }
            self.add(key, x, v4, Ghost(s@.take(i as int)), other, by_continent);
            proof {
                assert(s@.take(i + 1) =~= s@.take(i as int).push(x));
            }
            i = i + 1;
        }
        proof {
            assert(s@.take(s@.len() as int) =~= s@);
        }
    }

    /// Files `x` under `key`, in the list of its family.
    fn add(
        &mut self,
        key: String,
        x: IpLocationRange,
        v4: bool,
        t: Ghost<Seq<IpLocationRange>>,
        other: Ghost<Seq<IpLocationRange>>,
        by_continent: bool,
    )
        requires
            key@ == location_key(x, by_continent),
            v4 ==> other@.len() == 0,
            v4 ==> old(self).models(t@, other@, by_continent),
            !v4 ==> old(self).models(other@, t@, by_continent),
        ensures
            v4 ==> final(self).models(t@.push(x), other@, by_continent),
            !v4 ==> final(self).models(other@, t@.push(x), by_continent),
    {
        let ghost old_index = self.index@;
        let ghost old_keys = self.keys@;
        let ghost old_slots = self.slots@;
        let ghost t1 = t@.push(x);
        let ghost all = if v4 { t@ + other@ } else { other@ + t@ };
        let ghost all1 = if v4 { t1 + other@ } else { other@ + t1 };
        proof {
            assert(all1 =~= all.push(x));
            assert(location_keys(all1, by_continent) =~= location_keys(all, by_continent).push(key@));
            lemma_first_occurrences(location_keys(all, by_continent), key@);
            let ka = location_keys(if v4 { t@ } else { other@ }, by_continent);
            let kb = location_keys(if v4 { other@ } else { t@ }, by_continent);
            assert(location_keys(all, by_continent) =~= ka + kb);
            lemma_group_nonempty(if v4 { t@ } else { other@ }, by_continent, key@);
            lemma_group_nonempty(if v4 { other@ } else { t@ }, by_continent, key@);
            if (ka + kb).contains(key@) {
                let i = choose|i: int| 0 <= i < (ka + kb).len() && (ka + kb)[i] == key@;
                if i < ka.len() {
                    assert(ka[i] == key@);
                } else {
                    assert(kb[i - ka.len()] == key@);
                }
            }
            if ka.contains(key@) {
                let i = choose|i: int| 0 <= i < ka.len() && ka[i] == key@;
                assert((ka + kb)[i] == key@);
            }
            if kb.contains(key@) {
                let i = choose|i: int| 0 <= i < kb.len() && kb[i] == key@;
                assert((ka + kb)[ka.len() + i] == key@);
            }
            assert(self.index@.contains_key(key@) <==> first_occurrences(location_keys(all, by_continent)).contains(key@));
            assert(t1.drop_last() =~= t@);
            assert forall|k: Seq<char>| k != key@ implies location_group(t1, by_continent, k) == location_group(t@, by_continent, k) by {}
            assert(location_group(t1, by_continent, key@) == location_group(t@, by_continent, key@).push(x));
        }
        let found = match self.index.get(key.as_str()) {
            Some(j) => Some(*j),
            None => None,
        };
        match found {
            Some(j) => {
                let removed = self.slots.remove(&j);
                let mut g = match removed {
                    Some(g) => g,
                    None => IpLocationRangeByIp::default(),
                };
                let ghost g0 = g;
                proof {
                    assert(old_slots.contains_key(j));
                    assert(g0 == old_slots[j]);
                }
                if v4 {
                    g.ipv4.push(x);
                } else {
                    g.ipv6.push(x);
                }
                self.slots.insert(j, g);
                proof {
                    assert(self.slots@ == old_slots.remove(j).insert(j, g));
                    assert(self.index@ == old_index);
                    assert(self.keys@ == old_keys);
                    assert forall|k: Seq<char>| #[trigger] self.index@.contains_key(k) && k != key@ implies self.index@[k] != j by {
                        assert(self.keys@[self.index@[k] as int]@ == k);
                        assert(self.keys@[j as int]@ == key@);
                    }
                    assert forall|jj: usize| #[trigger] self.slots@.contains_key(jj) <==> jj < self.keys@.len() by {
                        if jj != j {
                            assert(self.slots@.contains_key(jj) == old_slots.contains_key(jj));
                        }
                    }
                    assert(self.wf());
                    assert forall|k: Seq<char>| #[trigger] self.index@.contains_key(k) implies
                        self.slots@[self.index@[k]] == (if k == key@ { g } else { old_slots[old_index[k]] }) by {
                        if k != key@ {
                            assert(self.index@[k] != j);
                        }
                    }
                    assert(old_index.contains_key(key@) && old_index[key@] == j);
                    assert(location_keys(all1, by_continent).drop_last() =~= location_keys(all, by_continent));
                    assert(views(self.keys@) == first_occurrences(location_keys(all1, by_continent)));
                    if v4 {
                        assert(g0.ipv4@ == location_group(t@, by_continent, key@));
                        assert(g0.ipv6@ == location_group(other@, by_continent, key@));
                        assert(g.ipv4@ == location_group(t1, by_continent, key@));
                        assert forall|k: Seq<char>| #[trigger] self.index@.contains_key(k)
                            <==> (location_group(t1, by_continent, k).len() > 0 || location_group(other@, by_continent, k).len() > 0) by {
                            if k != key@ {
                                assert(location_group(t1, by_continent, k) == location_group(t@, by_continent, k));
                            }
                        }
                        assert forall|k: Seq<char>| #[trigger] self.index@.contains_key(k)
                            implies self.slots@[self.index@[k]].ipv4@ == location_group(t1, by_continent, k)
                                && self.slots@[self.index@[k]].ipv6@ == location_group(other@, by_continent, k) by {
                            if k != key@ {
                                assert(location_group(t1, by_continent, k) == location_group(t@, by_continent, k));
                            }
                        }
                        assert(self.models(t1, other@, by_continent));
                    } else {
                        assert(g0.ipv6@ == location_group(t@, by_continent, key@));
                        assert(g0.ipv4@ == location_group(other@, by_continent, key@));
                        assert(g.ipv6@ == location_group(t1, by_continent, key@));
                        assert forall|k: Seq<char>| #[trigger] self.index@.contains_key(k)
                            <==> (location_group(other@, by_continent, k).len() > 0 || location_group(t1, by_continent, k).len() > 0) by {
                            if k != key@ {
                                assert(location_group(t1, by_continent, k) == location_group(t@, by_continent, k));
                            }
                        }
                        assert forall|k: Seq<char>| #[trigger] self.index@.contains_key(k)
                            implies self.slots@[self.index@[k]].ipv4@ == location_group(other@, by_continent, k)
                                && self.slots@[self.index@[k]].ipv6@ == location_group(t1, by_continent, k) by {
                            if k != key@ {
                                assert(location_group(t1, by_continent, k) == location_group(t@, by_continent, k));
                            }
                        }
                        assert(self.models(other@, t1, by_continent));
                    }
                }
            },
            None => {
                let j = self.keys.len();
                self.keys.push(key.clone());
                self.index.insert(key, j);
                let mut g = IpLocationRangeByIp::default();
                if v4 {
                    g.ipv4.push(x);
                } else {
                    g.ipv6.push(x);
                }
                self.slots.insert(j, g);
                proof {
                    assert(!old_slots.contains_key(j));
                    assert(self.slots@ == old_slots.insert(j, g));
                    assert(self.index@ == old_index.insert(key@, j));
                    assert(self.keys@ == old_keys.push(key));
                    assert forall|k: Seq<char>| #[trigger] self.index@.contains_key(k) implies self.index@[k] < self.keys@.len() && self.keys@[self.index@[k] as int]@ == k by {
                        if k != key@ {
                            assert(old_index.contains_key(k));
                        }
                    }
                    assert forall|jj: int| 0 <= jj < self.keys@.len() implies self.index@.contains_key(#[trigger] self.keys@[jj]@) && self.index@[self.keys@[jj]@] == jj by {
                        if jj < old_keys.len() {
                            assert(self.keys@[jj] == old_keys[jj]);
                            assert(old_index.contains_key(old_keys[jj]@));
                            assert(old_keys[jj]@ != key@);
                        }
                    }
                    assert forall|k: Seq<char>| #[trigger] self.index@.contains_key(k) && k != key@ implies self.index@[k] != j by {
                        assert(old_index.contains_key(k));
                    }
                    assert(location_group(t@, by_continent, key@).len() == 0);
                    assert(location_group(other@, by_continent, key@).len() == 0);
                    assert(location_group(t@, by_continent, key@) =~= Seq::<IpLocationRange>::empty());
                    assert(location_group(other@, by_continent, key@) =~= Seq::<IpLocationRange>::empty());
                    assert(location_keys(all1, by_continent).drop_last() =~= location_keys(all, by_continent));
                    assert(views(self.keys@) =~= views(old_keys).push(key@));
                    assert(views(self.keys@) == first_occurrences(location_keys(all1, by_continent)));
                    assert forall|jj: usize| #[trigger] self.slots@.contains_key(jj) <==> jj < self.keys@.len() by {
                        if jj != j {
                            assert(self.slots@.contains_key(jj) == old_slots.contains_key(jj));
                        }
                    }
                    assert(self.wf());
                    assert forall|k: Seq<char>| #[trigger] self.index@.contains_key(k) && k != key@ implies
                        self.slots@[self.index@[k]] == old_slots[old_index[k]] by {
                        assert(self.index@[k] != j);
                    }
                    if v4 {
                        assert(g.ipv4@ =~= location_group(t1, by_continent, key@));
                        assert(g.ipv6@ =~= location_group(other@, by_continent, key@));
                        assert forall|k: Seq<char>| #[trigger] self.index@.contains_key(k)
                            <==> (location_group(t1, by_continent, k).len() > 0 || location_group(other@, by_continent, k).len() > 0) by {
                            if k != key@ {
                                assert(location_group(t1, by_continent, k) == location_group(t@, by_continent, k));
                            }
                        }
                        assert forall|k: Seq<char>| #[trigger] self.index@.contains_key(k)
                            implies self.slots@[self.index@[k]].ipv4@ == location_group(t1, by_continent, k)
                                && self.slots@[self.index@[k]].ipv6@ == location_group(other@, by_continent, k) by {
                            if k != key@ {
                                assert(location_group(t1, by_continent, k) == location_group(t@, by_continent, k));
                            }
                        }
                        assert(self.models(t1, other@, by_continent));
                    } else {
                        assert(g.ipv6@ =~= location_group(t1, by_continent, key@));
                        assert(g.ipv4@ =~= location_group(other@, by_continent, key@));
                        assert forall|k: Seq<char>| #[trigger] self.index@.contains_key(k)
                            <==> (location_group(other@, by_continent, k).len() > 0 || location_group(t1, by_continent, k).len() > 0) by {
                            if k != key@ {
                                assert(location_group(t1, by_continent, k) == location_group(t@, by_continent, k));
                            }
                        }
                        assert forall|k: Seq<char>| #[trigger] self.index@.contains_key(k)
                            implies self.slots@[self.index@[k]].ipv4@ == location_group(other@, by_continent, k)
                                && self.slots@[self.index@[k]].ipv6@ == location_group(t1, by_continent, k) by {
                            if k != key@ {
                                assert(location_group(t1, by_continent, k) == location_group(t@, by_continent, k));
                            }
                        }
                        assert(self.models(other@, t1, by_continent));
                    }
                }
            },
        }
    }

    /// The groups, in the order their keys were first met.
    fn into_groups(self) -> (r: LocationRangeGroups)
        requires
            self.wf(),
        ensures
            forall|k: Seq<char>| #[trigger] r@.contains_key(k) <==> self.index@.contains_key(k),
            forall|k: Seq<char>| #[trigger] r@.contains_key(k) ==> r@[k] == self.slots@[self.index@[k]],
            r.key_order() == views(self.keys@),
    {
        let ghost index0 = self.index@;
        let ghost slots0 = self.slots@;
        let LocationGroups { index, keys, mut slots } = self;
        let mut groups: Vec<IpLocationRangeByIp> = Vec::new();
        let mut j: usize = 0;
        while j < keys.len()
            invariant
                j <= keys@.len(),
                groups@.len() == j,
                forall|jj: usize| #[trigger] slots0.contains_key(jj) <==> jj < keys@.len(),
                forall|jj: usize| j <= jj < keys@.len() ==> #[trigger] slots@.contains_key(jj) && slots@[jj] == slots0[jj],
                forall|jj: int| 0 <= jj < j ==> #[trigger] groups@[jj] == slots0[jj as usize],
            decreases keys@.len() - j,
        {
            proof {
                assert(slots@.contains_key(j));
            }
            let ghost before_slots = slots@;
            let removed = slots.remove(&j);
            proof {
                assert(slots@ == before_slots.remove(j));
                assert(removed matches Some(g) ==> g == before_slots[j]);
            }
            match removed {
                Some(g) => {
                    groups.push(g);
                },
                None => {
                    proof {
                        assert(false);
                    }
                },
            }
            j = j + 1;
        }
        let r = LocationRangeGroups { index, keys, groups };
        proof {
            assert forall|k: Seq<char>| #[trigger] r@.contains_key(k) implies r@[k] == slots0[index0[k]] by {
                assert(index0[k] < j);
                assert(r.groups@[index0[k] as int] == slots0[index0[k]]);
            }
        }
        r
    }
}

/// Groups of located networks under text keys (country codes or
/// continents), in the order their keys were first met.
pub struct LocationRangeGroups {
    index: StringHashMap<usize>,
    keys: Vec<String>,
    groups: Vec<IpLocationRangeByIp>,
}

impl View for LocationRangeGroups {
    type V = Map<Seq<char>, IpLocationRangeByIp>;

    /// The group of each key.
    closed spec fn view(&self) -> Map<Seq<char>, IpLocationRangeByIp> {
        Map::new(|k: Seq<char>| self.index@.contains_key(k), |k: Seq<char>| self.groups@[self.index@[k] as int])
    }
}

impl LocationRangeGroups {
    #[verifier::type_invariant]
    closed spec fn inv(self) -> bool {
        &&& forall|k: Seq<char>| #[trigger] self.index@.contains_key(k)
            ==> self.index@[k] < self.keys@.len() && self.keys@[self.index@[k] as int]@ == k
        &&& forall|j: int| 0 <= j < self.keys@.len()
            ==> self.index@.contains_key(#[trigger] self.keys@[j]@) && self.index@[self.keys@[j]@] == j
        &&& self.groups@.len() == self.keys@.len()
    }

    /// The keys, in the order they were first met.
    pub closed spec fn key_order(self) -> Seq<Seq<char>> {
        views(self.keys@)
    }

    /// No groups.
    pub fn new() -> (r: Self)
        ensures
            r@ == Map::<Seq<char>, IpLocationRangeByIp>::empty(),
            r.key_order() == Seq::<Seq<char>>::empty(),
    {
        let r = LocationRangeGroups { index: StringHashMap::new(), keys: Vec::new(), groups: Vec::new() };
        proof {
            assert(r@ =~= Map::<Seq<char>, IpLocationRangeByIp>::empty());
            assert(r.key_order() =~= Seq::<Seq<char>>::empty());
        }
        r
    }

    /// The group of `key`.
    pub fn get(&self, key: &str) -> (r: Option<&IpLocationRangeByIp>)
        ensures
            match r {
                Some(g) => self@.contains_key(key@) && *g == self@[key@],
                None => !self@.contains_key(key@),
            },
    {
        proof {
            use_type_invariant(self);
        }
        match self.index.get(key) {
            Some(j) => Some(&self.groups[*j]),
            None => None,
        }
    }

    /// The number of groups; the keys are those of the groups, each once.
    pub fn len(&self) -> (r: usize)
        ensures
            r == self.key_order().len(),
            forall|k: Seq<char>| #[trigger] self@.contains_key(k) <==> self.key_order().contains(k),
            forall|i: int, j: int| 0 <= i < j < self.key_order().len() ==> self.key_order()[i] != self.key_order()[j],
    {
        proof {
            use_type_invariant(self);
            assert forall|k: Seq<char>| #[trigger] self@.contains_key(k) implies self.key_order().contains(k) by {
                assert(self.key_order()[self.index@[k] as int] == k);
            }
            assert forall|i: int, j: int| 0 <= i < j < self.key_order().len() implies self.key_order()[i] != self.key_order()[j] by {
                assert(self.key_order()[i] == self.keys@[i]@);
                assert(self.key_order()[j] == self.keys@[j]@);
            }
        }
        self.keys.len()
    }

    /// The key of the `i`-th group.
    pub fn key_at(&self, i: usize) -> (r: &String)
        requires
            i < self.key_order().len(),
        ensures
            r@ == self.key_order()[i as int],
            self@.contains_key(r@),
    {
        proof {
            use_type_invariant(self);
        }
        &self.keys[i]
    }

    /// The `i`-th group.
    pub fn group_at(&self, i: usize) -> (r: &IpLocationRangeByIp)
        requires
            i < self.key_order().len(),
        ensures
            self@.contains_key(self.key_order()[i as int]),
            *r == self@[self.key_order()[i as int]],
    {
        proof {
            use_type_invariant(self);
            assert(self.keys@[i as int]@ == self.key_order()[i as int]);
        }
        &self.groups[i]
    }
}

/// The located networks, grouped by country and by continent and indexed by
/// family, with the countries they were read with.
pub struct IpLocationRanges {
    pub by_country: LocationRangeGroups,
    pub by_continent: LocationRangeGroups,
    pub trie: IPTrieLocationRanges,
    pub locations: Vec<Location>,
}

impl IpLocationRanges {
    /// Indexes the located networks: per family, after ordering by prefix
    /// length, each network that no network kept before covers is kept, filed
    /// in the family's lookup trie and in the groups of its country and of its
    /// continent, in that order.
    pub fn new(locations: Vec<Location>, location_ranges: Vec<IpLocationRange>) -> (r: Self)
        ensures
            r.trie.ipv4@ == kept_family(location_ranges@, true).to_set(),
            r.trie.ipv6@ == kept_family(location_ranges@, false).to_set(),
            groups_by_location(r.by_country@, kept_family(location_ranges@, true), kept_family(location_ranges@, false), false),
            groups_by_location(r.by_continent@, kept_family(location_ranges@, true), kept_family(location_ranges@, false), true),
            r.by_country.key_order() == first_occurrences(
                location_keys(kept_family(location_ranges@, true) + kept_family(location_ranges@, false), false),
            ),
            r.by_continent.key_order() == first_occurrences(
                location_keys(kept_family(location_ranges@, true) + kept_family(location_ranges@, false), true),
            ),
            r.locations@ == locations@,
    {
        let (v4, v6) = split_families(&location_ranges);
        let (trie4, kept4) = fill_trie(&v4);
        let (trie6, kept6) = fill_trie(&v6);
        let mut countries = LocationGroups::new(false);
        countries.add_all(&kept4, true, false, Ghost(Seq::empty()));
        countries.add_all(&kept6, false, false, Ghost(kept4@));
        let ghost c = countries;
        let by_country = countries.into_groups();
        let mut continents = LocationGroups::new(true);
        continents.add_all(&kept4, true, true, Ghost(Seq::empty()));
        continents.add_all(&kept6, false, true, Ghost(kept4@));
        let ghost n = continents;
        let by_continent = continents.into_groups();
        proof {
            assert(c.models(kept4@, kept6@, false));
            assert(n.models(kept4@, kept6@, true));
        }
        IpLocationRanges {
            by_country,
            by_continent,
            trie: IPTrieLocationRanges { ipv4: trie4, ipv6: trie6 },
            locations,
        }
    }
}

impl Default for IpLocationRanges {
    fn default() -> (r: Self)
        ensures
            r.by_country@ == Map::<Seq<char>, IpLocationRangeByIp>::empty(),
            r.by_continent@ == Map::<Seq<char>, IpLocationRangeByIp>::empty(),
            r.trie.ipv4@ == Set::<IpLocationRange>::empty(),
            r.trie.ipv6@ == Set::<IpLocationRange>::empty(),
            r.locations@ == Seq::<Location>::empty(),
    {
        IpLocationRanges {
            by_country: LocationRangeGroups::new(),
            by_continent: LocationRangeGroups::new(),
            trie: IPTrieLocationRanges::default(),
            locations: Vec::new(),
        }
    }
}


// ---------------------------------------------------------------------------
// Files of the groups
// ---------------------------------------------------------------------------

/// `a` followed by `b`, copied.
pub fn concat_ranges<T: ListNetwork>(a: &Vec<T>, b: &Vec<T>) -> (r: Vec<T>)
    ensures
        r@ == a@ + b@,
{
    let mut out: Vec<T> = Vec::new();
    let mut i: usize = 0;
    while i < a.len()
        invariant
            i <= a@.len(),
            out@ == a@.take(i as int),
        decreases a@.len() - i,
    {
        out.push(a[i].duplicate());
        proof {
            assert(a@.take(i + 1) =~= a@.take(i as int).push(a@[i as int]));
        }
        i = i + 1;
    }
    let mut j: usize = 0;
    proof {
        assert(a@.take(a@.len() as int) =~= a@);
    }
    while j < b.len()
        invariant
            j <= b@.len(),
            out@ == a@ + b@.take(j as int),
        decreases b@.len() - j,
    {
        out.push(b[j].duplicate());
        proof {
            assert(b@.take(j + 1) =~= b@.take(j as int).push(b@[j as int]));
            assert(a@ + b@.take(j + 1) =~= (a@ + b@.take(j as int)).push(b@[j as int]));
        }
        j = j + 1;
    }
    proof {
        assert(b@.take(b@.len() as int) =~= b@);
    }
    out
}

/// A file to write: where, and what.
pub struct OutputFile {
    pub path: String,
    pub content: String,
}

/// The text lists of a group: one CIDR per line.
pub open spec fn text_of(s: Seq<IpLocationRange>) -> Seq<char> {
    joined_lines(s)
}

/// The nftables sets of a group, named after its key.
pub open spec fn nft_of(s: Seq<IpLocationRange>, key: Seq<char>) -> Seq<char> {
    nft_text(s, nft_set_name(Some(key)))
}

/// The six files of the group `g` of `key` under `folder`: per family and
/// for both, as text and as nftables sets, named
/// `{folder}/gen/{key}[-ipv4|-ipv6].{txt|nft}`. Countries list the per-family
/// files first, continents the merged ones.
pub open spec fn group_files(folder: Seq<char>, key: Seq<char>, g: IpLocationRangeByIp, continent: bool) -> Seq<(Seq<char>, Seq<char>)> {
    let base = folder + "/gen/"@ + key;
    let v4 = g.ipv4@;
    let v6 = g.ipv6@;
    let all = v4 + v6;
    if continent {
        seq![
            (base + ".txt"@, text_of(all)),
            (base + "-ipv4.txt"@, text_of(v4)),
            (base + "-ipv6.txt"@, text_of(v6)),
            (base + ".nft"@, nft_of(all, key)),
            (base + "-ipv4.nft"@, nft_of(v4, key)),
            (base + "-ipv6.nft"@, nft_of(v6, key)),
        ]
    } else {
        seq![
            (base + "-ipv4.txt"@, text_of(v4)),
            (base + "-ipv6.txt"@, text_of(v6)),
            (base + ".txt"@, text_of(all)),
            (base + "-ipv4.nft"@, nft_of(v4, key)),
            (base + "-ipv6.nft"@, nft_of(v6, key)),
            (base + ".nft"@, nft_of(all, key)),
        ]
    }
}

/// The files of the groups whose keys are `keys`, in that order.
pub open spec fn groups_files(
    folder: Seq<char>,
    keys: Seq<Seq<char>>,
    groups: Map<Seq<char>, IpLocationRangeByIp>,
    continent: bool,
) -> Seq<(Seq<char>, Seq<char>)>
    decreases keys.len(),
{
    if keys.len() == 0 {
        Seq::empty()
    } else {
        groups_files(folder, keys.drop_last(), groups, continent) + group_files(folder, keys.last(), groups[keys.last()], continent)
    }
}

/// The path and content of each file.
pub open spec fn file_views(s: Seq<OutputFile>) -> Seq<(Seq<char>, Seq<char>)> {
    s.map_values(|f: OutputFile| (f.path@, f.content@))
}

/// Some file of `files` has this path and this content.
pub open spec fn has_file(files: Seq<(Seq<char>, Seq<char>)>, path: Seq<char>, content: Seq<char>) -> bool {
    exists|j: int| 0 <= j < files.len() && #[trigger] files[j] == (path, content)
}

/// The lines of the IPv4 networks followed by those of the IPv6 networks.
pub open spec fn v4_then_v6_lines(v4: Seq<IpLocationRange>, v6: Seq<IpLocationRange>) -> Seq<char> {
    if v4.len() == 0 {
        joined_lines(v6)
    } else if v6.len() == 0 {
        joined_lines(v4)
    } else {
        joined_lines(v4) + "\n"@ + joined_lines(v6)
    }
}

/// Among `files` are the text lists of group `g` of `key`:
/// `{folder}/gen/{key}-ipv4.txt` with its IPv4 networks, `-ipv6.txt` with its
/// IPv6 networks, and `{key}.txt` with its IPv4 networks followed by its IPv6
/// networks, one per line.
pub open spec fn group_text_files_hold(
    files: Seq<(Seq<char>, Seq<char>)>,
    folder: Seq<char>,
    key: Seq<char>,
    g: IpLocationRangeByIp,
) -> bool {
    let base = folder + "/gen/"@ + key;
    &&& has_file(files, base + "-ipv4.txt"@, joined_lines(g.ipv4@))
    &&& has_file(files, base + "-ipv6.txt"@, joined_lines(g.ipv6@))
    &&& has_file(files, base + ".txt"@, v4_then_v6_lines(g.ipv4@, g.ipv6@))
}

proof fn lemma_has_file_concat(a: Seq<(Seq<char>, Seq<char>)>, b: Seq<(Seq<char>, Seq<char>)>, path: Seq<char>, content: Seq<char>)
    ensures
        has_file(a, path, content) || has_file(b, path, content) ==> has_file(a + b, path, content),
{
    if has_file(a, path, content) {
        let j = choose|j: int| 0 <= j < a.len() && #[trigger] a[j] == (path, content);
        assert((a + b)[j] == a[j]);
    } else if has_file(b, path, content) {
        let j = choose|j: int| 0 <= j < b.len() && #[trigger] b[j] == (path, content);
        assert((a + b)[a.len() + j] == b[j]);
    }
}

proof fn lemma_group_text_files_concat(
    a: Seq<(Seq<char>, Seq<char>)>,
    b: Seq<(Seq<char>, Seq<char>)>,
    folder: Seq<char>,
    key: Seq<char>,
    g: IpLocationRangeByIp,
)
    ensures
        group_text_files_hold(a, folder, key, g) || group_text_files_hold(b, folder, key, g)
            ==> group_text_files_hold(a + b, folder, key, g),
{
    let base = folder + "/gen/"@ + key;
    lemma_has_file_concat(a, b, base + "-ipv4.txt"@, joined_lines(g.ipv4@));
    lemma_has_file_concat(a, b, base + "-ipv6.txt"@, joined_lines(g.ipv6@));
    lemma_has_file_concat(a, b, base + ".txt"@, v4_then_v6_lines(g.ipv4@, g.ipv6@));
}

/// The six files of a group include its three text lists.
proof fn lemma_group_files_text(folder: Seq<char>, key: Seq<char>, g: IpLocationRangeByIp, continent: bool)
    ensures
        group_text_files_hold(group_files(folder, key, g, continent), folder, key, g),
{
    let f = group_files(folder, key, g, continent);
    let v4 = g.ipv4@;
    let v6 = g.ipv6@;
    let all = v4 + v6;
    if v4.len() == 0 {
        assert(all =~= v6);
    } else if v6.len() == 0 {
        assert(all =~= v4);
    } else {
        lemma_joined_lines_concat(v4, v6);
    }
    assert(text_of(all) == v4_then_v6_lines(v4, v6));
    if continent {
        assert(f[0] == (folder + "/gen/"@ + key + ".txt"@, v4_then_v6_lines(v4, v6)));
        assert(f[1] == (folder + "/gen/"@ + key + "-ipv4.txt"@, joined_lines(v4)));
        assert(f[2] == (folder + "/gen/"@ + key + "-ipv6.txt"@, joined_lines(v6)));
    } else {
        assert(f[0] == (folder + "/gen/"@ + key + "-ipv4.txt"@, joined_lines(v4)));
        assert(f[1] == (folder + "/gen/"@ + key + "-ipv6.txt"@, joined_lines(v6)));
        assert(f[2] == (folder + "/gen/"@ + key + ".txt"@, v4_then_v6_lines(v4, v6)));
    }
}

/// The files of a list of groups include the text lists of each group.
proof fn lemma_groups_files_text(
    folder: Seq<char>,
    keys: Seq<Seq<char>>,
    groups: Map<Seq<char>, IpLocationRangeByIp>,
    continent: bool,
    i: int,
)
    requires
        0 <= i < keys.len(),
    ensures
        group_text_files_hold(groups_files(folder, keys, groups, continent), folder, keys[i], groups[keys[i]]),
    decreases keys.len(),
{
    let prev = groups_files(folder, keys.drop_last(), groups, continent);
    let last = group_files(folder, keys.last(), groups[keys.last()], continent);
    if i == keys.len() - 1 {
        lemma_group_files_text(folder, keys.last(), groups[keys.last()], continent);
        lemma_group_text_files_concat(prev, last, folder, keys[i], groups[keys[i]]);
    } else {
        assert(keys.drop_last()[i] == keys[i]);
        lemma_groups_files_text(folder, keys.drop_last(), groups, continent, i);
        lemma_group_text_files_concat(prev, last, folder, keys[i], groups[keys[i]]);
    }
}

/// Law of the saved lists: among the files that `save_files` gives are, for
/// every country and every continent, its IPv4 list, its IPv6 list, and its
/// merged list holding the IPv4 networks followed by the IPv6 networks.
pub proof fn law_saved_text_lists(
    folder: Seq<char>,
    country_keys: Seq<Seq<char>>,
    countries: Map<Seq<char>, IpLocationRangeByIp>,
    continent_keys: Seq<Seq<char>>,
    continents: Map<Seq<char>, IpLocationRangeByIp>,
)
    ensures
        ({
            let files = groups_files(folder, country_keys, countries, false) + groups_files(folder, continent_keys, continents, true);
            &&& forall|i: int| 0 <= i < country_keys.len() ==>
                group_text_files_hold(files, folder, #[trigger] country_keys[i], countries[country_keys[i]])
            &&& forall|i: int| 0 <= i < continent_keys.len() ==>
                group_text_files_hold(files, folder, #[trigger] continent_keys[i], continents[continent_keys[i]])
        }),
{
    let a = groups_files(folder, country_keys, countries, false);
    let b = groups_files(folder, continent_keys, continents, true);
    assert forall|i: int| 0 <= i < country_keys.len() implies
        group_text_files_hold(a + b, folder, #[trigger] country_keys[i], countries[country_keys[i]]) by {
        lemma_groups_files_text(folder, country_keys, countries, false, i);
        lemma_group_text_files_concat(a, b, folder, country_keys[i], countries[country_keys[i]]);
    }
    assert forall|i: int| 0 <= i < continent_keys.len() implies
        group_text_files_hold(a + b, folder, #[trigger] continent_keys[i], continents[continent_keys[i]]) by {
        lemma_groups_files_text(folder, continent_keys, continents, true, i);
        lemma_group_text_files_concat(a, b, folder, continent_keys[i], continents[continent_keys[i]]);
    }
}

fn text_file(path: String, data: &Vec<IpLocationRange>) -> (r: OutputFile)
    ensures
        r.path@ == path@,
        r.content@ == text_of(data@),
{
    let out = OutputFormat::Text.format(data.as_slice(), None, String::new());
    OutputFile { path, content: out.output }
}

fn nft_file(path: String, data: &Vec<IpLocationRange>, key: &str) -> (r: OutputFile)
    ensures
        r.path@ == path@,
        r.content@ == nft_of(data@, key@),
{
    let out = OutputFormat::Nftables.format(data.as_slice(), Some(key), String::new());
    OutputFile { path, content: out.output }
}

fn push_group_files(out: &mut Vec<OutputFile>, folder: &str, key: &str, g: &IpLocationRangeByIp, continent: bool)
    ensures
        file_views(final(out)@) == file_views(old(out)@) + group_files(folder@, key@, *g, continent),
{
    let base = String::from_str(folder).concat("/gen/").concat(key);
    let all = concat_ranges(&g.ipv4, &g.ipv6);
    let txt = base.clone().concat(".txt");
    let txt4 = base.clone().concat("-ipv4.txt");
    let txt6 = base.clone().concat("-ipv6.txt");
    let nft = base.clone().concat(".nft");
    let nft4 = base.clone().concat("-ipv4.nft");
    let nft6 = base.concat("-ipv6.nft");
    let ghost before = file_views(out@);
    if continent {
        out.push(text_file(txt, &all));
        out.push(text_file(txt4, &g.ipv4));
        out.push(text_file(txt6, &g.ipv6));
        out.push(nft_file(nft, &all, key));
        out.push(nft_file(nft4, &g.ipv4, key));
        out.push(nft_file(nft6, &g.ipv6, key));
    } else {
        out.push(text_file(txt4, &g.ipv4));
        out.push(text_file(txt6, &g.ipv6));
        out.push(text_file(txt, &all));
        out.push(nft_file(nft4, &g.ipv4, key));
        out.push(nft_file(nft6, &g.ipv6, key));
        out.push(nft_file(nft, &all, key));
    }
    proof {
        reveal_strlit("/gen/");
        reveal_strlit(".txt");
        reveal_strlit("-ipv4.txt");
        reveal_strlit("-ipv6.txt");
        reveal_strlit(".nft");
        reveal_strlit("-ipv4.nft");
        reveal_strlit("-ipv6.nft");
        assert(file_views(out@) =~= before + group_files(folder@, key@, *g, continent));
    }
}

fn push_groups_files(out: &mut Vec<OutputFile>, folder: &str, groups: &LocationRangeGroups, continent: bool)
    ensures
        file_views(final(out)@) == file_views(old(out)@) + groups_files(folder@, groups.key_order(), groups@, continent),
{
    let n = groups.len();
    let ghost keys = groups.key_order();
    let ghost start = file_views(out@);
    let mut i: usize = 0;
    proof {
        assert(keys.take(0) =~= Seq::<Seq<char>>::empty());
        assert(start + groups_files(folder@, keys.take(0), groups@, continent) =~= start);
    }
    while i < n
        invariant
            n == keys.len(),
            keys == groups.key_order(),
            i <= n,
            file_views(out@) == start + groups_files(folder@, keys.take(i as int), groups@, continent),
        decreases n - i,
    {
        let key = groups.key_at(i);
        let g = groups.group_at(i);
        push_group_files(out, folder, key.as_str(), g, continent);
        proof {
            assert(keys.take(i + 1).drop_last() =~= keys.take(i as int));
            assert(keys.take(i + 1).last() == keys[i as int]);
        }
        i = i + 1;
    }
    proof {
        assert(keys.take(n as int) =~= keys);
    }
}

impl IpLocationRanges {
    /// The files that hold the lists of every country and continent under
    /// `output_folder`: the country files, then the continent files.
    pub fn save_files(&self, output_folder: &str) -> (r: Vec<OutputFile>)
        ensures
            file_views(r@) == groups_files(output_folder@, self.by_country.key_order(), self.by_country@, false)
                + groups_files(output_folder@, self.by_continent.key_order(), self.by_continent@, true),
            forall|i: int| 0 <= i < self.by_country.key_order().len() ==> group_text_files_hold(
                file_views(r@),
                output_folder@,
                #[trigger] self.by_country.key_order()[i],
                self.by_country@[self.by_country.key_order()[i]],
            ),
            forall|i: int| 0 <= i < self.by_continent.key_order().len() ==> group_text_files_hold(
                file_views(r@),
                output_folder@,
                #[trigger] self.by_continent.key_order()[i],
                self.by_continent@[self.by_continent.key_order()[i]],
            ),
    {
        proof {
            law_saved_text_lists(
                output_folder@,
                self.by_country.key_order(),
                self.by_country@,
                self.by_continent.key_order(),
                self.by_continent@,
            );
        }
        let mut out: Vec<OutputFile> = Vec::new();
        proof {
            assert(file_views(out@) =~= Seq::<(Seq<char>, Seq<char>)>::empty());
        }
        push_groups_files(&mut out, output_folder, &self.by_country, false);
        push_groups_files(&mut out, output_folder, &self.by_continent, true);
        proof {
            assert(Seq::<(Seq<char>, Seq<char>)>::empty() + groups_files(output_folder@, self.by_country.key_order(), self.by_country@, false)
                =~= groups_files(output_folder@, self.by_country.key_order(), self.by_country@, false));
        }
        out
    }
}

} // verus!
