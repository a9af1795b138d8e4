use vstd::prelude::*;

use crate::iptools::iptrie::{
    all_of_family, build, deduplicate, lemma_dedup_covers_inputs, lemma_deduplicate_cover, lemma_prefix_trans,
    lemma_prefixes_comparable, net_bits, piece_of,
    remainder_of, remainders, seq_covers, spec_deduplicate, spec_remainder, stored_covers, BitIp, IPTrie,
};
use crate::iptools::network::{key_is_network, IpNet, Ipv4Net, Ipv6Net, ListNetwork, Splitable};
use crate::text::{joined, lemma_split_joined, spec_trim, split_on, split_whitespace, split_pieces, trim, views, words};
use crate::error::AppError;
use crate::status::{ComponentStatus, StatusCode};

verus! {

/// A network type that blocklists hold: it can be read from CIDR text.
pub trait BlockListNet: ListNetwork + Splitable {
    /// The network written in `s`, if any.
    spec fn spec_parse(s: Seq<char>) -> Option<Self>;

    fn parse_net(s: &str) -> (r: Option<Self>)
        ensures
            r == Self::spec_parse(s@),
    ;
}

impl BlockListNet for Ipv4Net {
    open spec fn spec_parse(s: Seq<char>) -> Option<Self> {
        Ipv4Net::spec_from_text(s)
    }

    fn parse_net(s: &str) -> (r: Option<Self>) {
        Ipv4Net::parse(s)
    }
}

impl BlockListNet for Ipv6Net {
    open spec fn spec_parse(s: Seq<char>) -> Option<Self> {
        Ipv6Net::spec_from_text(s)
    }

    fn parse_net(s: &str) -> (r: Option<Self>) {
        Ipv6Net::parse(s)
    }
}

impl BlockListNet for IpNet {
    open spec fn spec_parse(s: Seq<char>) -> Option<Self> {
        IpNet::spec_from_text(s)
    }

    fn parse_net(s: &str) -> (r: Option<Self>) {
        IpNet::parse(s)
    }
}

/// The blocklist: its IPv4 and its IPv6 networks.
pub struct BlocklistRanges<Ipv4, Ipv6> {
    pub ipv4: Vec<Ipv4>,
    pub ipv6: Vec<Ipv6>,
}

/// Some network of `s` of the family of `fam` covers the host whose bits are `h`.
pub open spec fn covers_host<T: ListNetwork>(s: Seq<T>, fam: BitIp, h: Seq<bool>) -> bool {
    exists|i: int| 0 <= i < s.len() && (#[trigger] s[i]).key().addr.same_family(fam) && net_bits(s[i]).is_prefix_of(h)
}

/// All networks of `s` are of one family.
pub open spec fn single_family<T: ListNetwork>(s: Seq<T>) -> bool {
    forall|i: int, j: int| 0 <= i < s.len() && 0 <= j < s.len() ==> (#[trigger] s[i]).key().addr.same_family((#[trigger] s[j]).key().addr)
}

/// No network of one family has a path (its prefix bits) that begins the path
/// of a network of the other family. The trie that deduplicates and subtracts
/// files networks by their bits alone, so it takes such a pair for networks
/// that lie within each other.
pub open spec fn cross_free<T: ListNetwork>(s: Seq<T>) -> bool {
    forall|i: int, j: int|
        0 <= i < s.len() && 0 <= j < s.len() && !(#[trigger] s[i]).key().addr.same_family((#[trigger] s[j]).key().addr)
            ==> !net_bits(s[i]).is_prefix_of(net_bits(s[j]))
}

/// `r` holds exactly the hosts that `blocked` holds and `allowed` does not,
/// in networks cut from those of `blocked`, none lying within another.
pub open spec fn blocked_minus_allowed<T: Splitable>(r: Seq<T>, blocked: Seq<T>, allowed: Seq<T>) -> bool {
    &&& forall|fam: BitIp, h: Seq<bool>|
        h.len() == fam.width() ==> (#[trigger] covers_host(r, fam, h) <==> covers_host(blocked, fam, h)
            && !covers_host(allowed, fam, h))
    &&& pairwise_disjoint_nets(r)
    &&& pieces_of_list(r, blocked)
}

/// Each network of `r` is cut from some network of `s`.
pub open spec fn pieces_of_list<T: Splitable>(r: Seq<T>, s: Seq<T>) -> bool {
    forall|i: int| 0 <= i < r.len() ==> exists|j: int| 0 <= j < s.len() && piece_of(#[trigger] r[i], #[trigger] s[j])
}

pub open spec fn pairwise_disjoint_nets<T: ListNetwork>(s: Seq<T>) -> bool {
    crate::iptools::iptrie::pairwise_disjoint(s)
}

/// The networks read from `ips`: the entries that parse and have no host bits set, in order.
pub open spec fn spec_validate<T: BlockListNet>(ips: Seq<Seq<char>>) -> Seq<T>
    decreases ips.len(),
{
    if ips.len() == 0 {
        Seq::empty()
    } else {
        let rest = spec_validate::<T>(ips.drop_last());
        match T::spec_parse(ips.last()) {
            Some(n) => if n.spec_is_net() {
                rest.push(n)
            } else {
                rest
            },
            None => rest,
        }
    }
}

/// Reads networks from text entries, keeping those that parse and are
/// networks (no host bits set); the others are skipped.
pub fn validate_subnets<T: BlockListNet>(ips: &[String]) -> (r: Vec<T>)
    ensures
        r@ == spec_validate::<T>(views(ips@)),
{
    let mut parsed: Vec<T> = Vec::new();
    let mut i: usize = 0;
    while i < ips.len()
        invariant
            i <= ips@.len(),
            parsed@ == spec_validate::<T>(views(ips@.take(i as int))),
        decreases ips@.len() - i,
    {
        proof {
            assert(views(ips@.take(i + 1)).drop_last() =~= views(ips@.take(i as int)));
            assert(views(ips@.take(i + 1)).last() == ips@[i as int]@);
        }
        match T::parse_net(ips[i].as_str()) {
            Some(n) => {
                if n.is_net() {
                    parsed.push(n);
                }
            },
            None => {},
        }
        i = i + 1;
    }
    proof {
        assert(ips@.take(ips@.len() as int) =~= ips@);
    }
    parsed
}

/// The entries of a list text: split on whitespace, or on `split_string`
/// when one is given, each entry trimmed.
pub open spec fn spec_parse_from_string(data: Seq<char>, split_string: Option<Seq<char>>) -> Seq<Seq<char>> {
    match split_string {
        None => words(data).map_values(|w: Seq<char>| spec_trim(w)),
        Some(sep) => split_pieces(data, sep).map_values(|w: Seq<char>| spec_trim(w)),
    }
}

/// Law of `parse_from_string`: entries that are already trimmed and do not
/// hold a one-character separator come back as they were from the text that
/// joins them with it.
pub proof fn law_parse_joined(xs: Seq<Seq<char>>, c: char)
    requires
        xs.len() > 0,
        forall|i: int| 0 <= i < xs.len() ==> !(#[trigger] xs[i]).contains(c) && spec_trim(xs[i]) == xs[i],
    ensures
        spec_parse_from_string(joined(xs, seq![c]), Some(seq![c])) == xs,
{
    lemma_split_joined(xs, c);
    assert(split_pieces(joined(xs, seq![c]), seq![c]).map_values(|w: Seq<char>| spec_trim(w)) =~= xs);
}

fn trim_all(v: Vec<String>) -> (r: Vec<String>)
    ensures
        views(r@) == views(v@).map_values(|w: Seq<char>| spec_trim(w)),
{
    let mut out: Vec<String> = Vec::new();
    let mut i: usize = 0;
    while i < v.len()
        invariant
            i <= v@.len(),
            views(out@) == views(v@.take(i as int)).map_values(|w: Seq<char>| spec_trim(w)),
        decreases v@.len() - i,
    {
        let t = trim(v[i].as_str());
        let ghost old_out = out@;
        out.push(t);
        proof {
            assert(views(out@) =~= views(old_out).push(t@));
            assert(views(v@.take(i + 1)).map_values(|w: Seq<char>| spec_trim(w)) =~= views(v@.take(i as int)).map_values(|w: Seq<char>| spec_trim(w)).push(spec_trim(v@[i as int]@)));
        }
        i = i + 1;
    }
    proof {
        assert(v@.take(v@.len() as int) =~= v@);
    }
    out
}

/// Splits list text into entries: on whitespace, or on `split_string` when one
/// is given; each entry is trimmed.
pub fn parse_from_string(data: &str, split_string: Option<&str>) -> (r: Vec<String>)
    ensures
        views(r@) == spec_parse_from_string(
            data@,
            match split_string {
                Some(s) => Some(s@),
                None => None,
            },
        ),
{
    match split_string {
        None => trim_all(split_whitespace(data)),
        Some(split_str) => trim_all(split_on(data, split_str)),
    }
}

/// The blocklist less the allowlist, as the networks come out: what remains
/// of each blocked network after removing the allowlisted ones (kept without
/// those lying within another), in maximal pieces in ascending order, then
/// without the pieces that lie within another.
pub open spec fn spec_subtract_list<T: Splitable>(blocked: Seq<T>, allowed: Seq<T>) -> Seq<T> {
    spec_deduplicate(remainders(blocked, spec_deduplicate(allowed).to_set()))
}

/// Subtracts the networks of `trie` from each network of `nets`, in order.
fn subtract_all<T: Splitable>(trie: &IPTrie<T>, nets: &Vec<T>) -> (r: Vec<T>)
    ensures
        forall|fam: BitIp, h: Seq<bool>|
            h.len() == fam.width() ==> (#[trigger] covers_host(r@, fam, h) <==> covers_host(nets@, fam, h)
                && !stored_covers(trie@, fam, h)),
        pieces_of_list(r@, nets@),
        (forall|i: int| 0 <= i < nets@.len() ==> all_of_family(trie@, (#[trigger] nets@[i]).key().addr))
            ==> r@ == remainders(nets@, trie@),
{
    let ghost fam_ok = forall|i: int| 0 <= i < nets@.len() ==> all_of_family(trie@, (#[trigger] nets@[i]).key().addr);
    let mut acc: Vec<T> = Vec::new();
    let mut i: usize = 0;
    while i < nets.len()
        invariant
            i <= nets@.len(),
            fam_ok == forall|i: int| 0 <= i < nets@.len() ==> all_of_family(trie@, (#[trigger] nets@[i]).key().addr),
            fam_ok ==> acc@ == remainders(nets@.take(i as int), trie@),
            forall|fam: BitIp, h: Seq<bool>|
                h.len() == fam.width() ==> (#[trigger] covers_host(acc@, fam, h) <==> covers_host(nets@.take(i as int), fam, h)
                    && !stored_covers(trie@, fam, h)),
            pieces_of_list(acc@, nets@),
        decreases nets@.len() - i,
    {
        let rest = match trie.subtract(&nets[i]) {
            Ok(rest) => rest,
            Err(_) => Vec::new(),
        };
        let ghost n = nets@[i as int];
        let ghost old_acc = acc@;
        proof {
            assert(remainder_of(rest@, n, trie@));
        }
        let ghost rv = rest@;
        let mut rest = rest;
        acc.append(&mut rest);
        proof {
            let new_acc = acc@;
            let pre = nets@.take(i as int);
            let pre1 = nets@.take(i + 1);
            assert(pre1 =~= pre.push(n));
            if fam_ok {
                assert(all_of_family(trie@, nets@[i as int].key().addr));
                assert(rv == spec_remainder(n, trie@));
                assert(pre1.drop_last() =~= pre);
                assert(new_acc =~= old_acc + rv);
                assert(remainders(pre1, trie@) == remainders(pre, trie@) + spec_remainder(n, trie@));
            }
            assert forall|k: int| 0 <= k < new_acc.len() implies exists|j: int| 0 <= j < nets@.len() && piece_of(#[trigger] new_acc[k], #[trigger] nets@[j]) by {
                if k >= old_acc.len() {
                    assert(new_acc[k] == rv[k - old_acc.len()]);
                    assert(piece_of(new_acc[k], nets@[i as int]));
                } else {
                    assert(new_acc[k] == old_acc[k]);
                }
            }
            assert forall|fam: BitIp, h: Seq<bool>| h.len() == fam.width() implies (#[trigger] covers_host(new_acc, fam, h) <==> covers_host(pre1, fam, h)
                && !stored_covers(trie@, fam, h)) by {
                // hosts covered by the new pieces
                let in_rest = exists|k: int| 0 <= k < rv.len() && (#[trigger] rv[k]).key().addr.same_family(fam) && net_bits(rv[k]).is_prefix_of(h);
                let by_n = n.key().addr.same_family(fam) && net_bits(n).is_prefix_of(h) && !stored_covers(trie@, fam, h);
                if in_rest {
                    let k = choose|k: int| 0 <= k < rv.len() && (#[trigger] rv[k]).key().addr.same_family(fam) && net_bits(rv[k]).is_prefix_of(h);
                    assert(piece_of(rv[k], n));
                    lemma_prefix_trans(net_bits(n), net_bits(rv[k]), h);
                    assert(seq_covers(rv, h));
                    assert(n.key().addr.width() == fam.width());
                }
                if by_n {
                    assert(n.key().addr.width() == fam.width());
                    assert(seq_covers(rv, h));
                    let k = choose|k: int| 0 <= k < rv.len() && net_bits(#[trigger] rv[k]).is_prefix_of(h);
                    assert(piece_of(rv[k], n));
                }
                assert(in_rest == by_n);
                if covers_host(new_acc, fam, h) {
                    let k = choose|k: int| 0 <= k < new_acc.len() && (#[trigger] new_acc[k]).key().addr.same_family(fam) && net_bits(new_acc[k]).is_prefix_of(h);
                    if k < old_acc.len() {
                        assert(new_acc[k] == old_acc[k]);
                        assert(covers_host(old_acc, fam, h));
                    } else {
                        assert(new_acc[k] == rv[k - old_acc.len()]);
                    }
                }
                if covers_host(old_acc, fam, h) {
                    let k = choose|k: int| 0 <= k < old_acc.len() && (#[trigger] old_acc[k]).key().addr.same_family(fam) && net_bits(old_acc[k]).is_prefix_of(h);
                    assert(new_acc[k] == old_acc[k]);
                }
                if in_rest {
                    let k = choose|k: int| 0 <= k < rv.len() && (#[trigger] rv[k]).key().addr.same_family(fam) && net_bits(rv[k]).is_prefix_of(h);
                    assert(new_acc[k + old_acc.len()] == rv[k]);
                }
                if covers_host(pre1, fam, h) {
                    let j = choose|j: int| 0 <= j < pre1.len() && (#[trigger] pre1[j]).key().addr.same_family(fam) && net_bits(pre1[j]).is_prefix_of(h);
                    if j < pre.len() {
                        assert(pre1[j] == pre[j]);
                    }
                }
                if covers_host(pre, fam, h) {
                    let j = choose|j: int| 0 <= j < pre.len() && (#[trigger] pre[j]).key().addr.same_family(fam) && net_bits(pre[j]).is_prefix_of(h);
                    assert(pre1[j] == pre[j]);
                }
                if by_n {
                    assert(pre1[i as int] == n);
                }
            }
        }
        i = i + 1;
    }
    proof {
        assert(nets@.take(nets@.len() as int) =~= nets@);
    }
    acc
}

/// Subtraction of the allowlist: a host stays blocked when a network of
/// `blocked` holds it and no network of `allowed` does.
fn subtract_list<T: Splitable>(blocked: Vec<T>, allowed: Vec<T>) -> (r: Vec<T>)
    ensures
        cross_free(blocked@) && cross_free(allowed@) ==> blocked_minus_allowed(r@, blocked@, allowed@),
        single_family(blocked@ + allowed@) ==> r@ == spec_subtract_list(blocked@, allowed@),
{
    let ghost a = allowed@;
    let trie = build(allowed);
    proof {
        if single_family(blocked@ + a) {
            lemma_deduplicate_cover(a);
            let both = blocked@ + a;
            assert forall|i: int| 0 <= i < blocked@.len() implies all_of_family(trie@, (#[trigger] blocked@[i]).key().addr) by {
                assert forall|v: T| #[trigger] trie@.contains(v) implies v.key().addr.same_family(blocked@[i].key().addr) by {
                    let d = spec_deduplicate(a);
                    let m = choose|m: int| 0 <= m < d.len() && d[m] == v;
                    assert(a.contains(d[m]));
                    let k = choose|k: int| 0 <= k < a.len() && a[k] == v;
                    assert(both[blocked@.len() + k] == v);
                    assert(both[i] == blocked@[i]);
                }
            }
        }
    }
    let pieces = subtract_all(&trie, &blocked);
    let ghost p = pieces@;
    let result = deduplicate(pieces);
    proof {
        if cross_free(blocked@) && cross_free(allowed@) {
            lemma_subtract_list(blocked@, allowed@, trie@, p, result@);
        }
    }
    result
}

proof fn lemma_subtract_list<T: Splitable>(blocked: Seq<T>, allowed: Seq<T>, stored: Set<T>, p: Seq<T>, r: Seq<T>)
    requires
        cross_free(blocked),
        cross_free(allowed),
        stored == spec_deduplicate(allowed).to_set(),
        forall|i: int| 0 <= i < allowed.len() ==> key_is_network((#[trigger] allowed[i]).key()),
        forall|fam: BitIp, h: Seq<bool>|
            h.len() == fam.width() ==> (#[trigger] covers_host(p, fam, h) <==> covers_host(blocked, fam, h)
                && !stored_covers(stored, fam, h)),
        pieces_of_list(p, blocked),
        r == spec_deduplicate(p),
    ensures
        blocked_minus_allowed(r, blocked, allowed),
{
    let da = spec_deduplicate(allowed);
    lemma_deduplicate_cover(allowed);
    lemma_dedup_covers_inputs(allowed);
    assert forall|i: int| 0 <= i < p.len() implies key_is_network((#[trigger] p[i]).key()) by {
        let j = choose|j: int| 0 <= j < blocked.len() && piece_of(#[trigger] p[i], #[trigger] blocked[j]);
    }
    lemma_deduplicate_cover(p);
    lemma_dedup_covers_inputs(p);
    // stored coverage is allowlist coverage
    assert forall|fam: BitIp, h: Seq<bool>| h.len() == fam.width() implies stored_covers(stored, fam, h) == covers_host(allowed, fam, h) by {
        if stored_covers(stored, fam, h) {
            let v = choose|v: T| #[trigger] stored.contains(v) && v.key().addr.same_family(fam) && net_bits(v).is_prefix_of(h);
            assert(da.contains(v));
            let i = choose|i: int| 0 <= i < da.len() && da[i] == v;
            assert(allowed.contains(da[i]));
            let k = choose|k: int| 0 <= k < allowed.len() && allowed[k] == v;
            assert(covers_host(allowed, fam, h));
        }
        if covers_host(allowed, fam, h) {
            let j = choose|j: int| 0 <= j < allowed.len() && (#[trigger] allowed[j]).key().addr.same_family(fam) && net_bits(allowed[j]).is_prefix_of(h);
            let i = choose|i: int| 0 <= i < da.len() && net_bits(#[trigger] da[i]).is_prefix_of(net_bits(#[trigger] allowed[j]));
            assert(allowed.contains(da[i]));
            let k = choose|k: int| 0 <= k < allowed.len() && allowed[k] == da[i];
            assert(allowed[k].key().addr.same_family(allowed[j].key().addr));
            lemma_prefix_trans(net_bits(da[i]), net_bits(allowed[j]), h);
            assert(stored.contains(da[i]));
        }
    }
    // a kept piece that covers a dropped one is of the same family
    assert forall|fam: BitIp, h: Seq<bool>| h.len() == fam.width() implies (#[trigger] covers_host(r, fam, h) == covers_host(p, fam, h)) by {
        if covers_host(r, fam, h) {
            let i = choose|i: int| 0 <= i < r.len() && (#[trigger] r[i]).key().addr.same_family(fam) && net_bits(r[i]).is_prefix_of(h);
            assert(p.contains(r[i]));
            let k = choose|k: int| 0 <= k < p.len() && p[k] == r[i];
        }
        if covers_host(p, fam, h) {
            let k = choose|k: int| 0 <= k < p.len() && (#[trigger] p[k]).key().addr.same_family(fam) && net_bits(p[k]).is_prefix_of(h);
            let i = choose|i: int| 0 <= i < r.len() && net_bits(#[trigger] r[i]).is_prefix_of(net_bits(#[trigger] p[k]));
            assert(p.contains(r[i]));
            let m = choose|m: int| 0 <= m < p.len() && p[m] == r[i];
            let jm = choose|j: int| 0 <= j < blocked.len() && piece_of(#[trigger] p[m], #[trigger] blocked[j]);
            let jk = choose|j: int| 0 <= j < blocked.len() && piece_of(#[trigger] p[k], #[trigger] blocked[j]);
            lemma_prefix_trans(net_bits(blocked[jm]), net_bits(p[m]), net_bits(p[k]));
            lemma_prefixes_comparable(net_bits(blocked[jm]), net_bits(blocked[jk]), net_bits(p[k]));
            assert(blocked[jm].key().addr.same_family(blocked[jk].key().addr));
            lemma_prefix_trans(net_bits(r[i]), net_bits(p[k]), h);
            assert(covers_host(r, fam, h));
        }
    }
    assert forall|i: int| 0 <= i < r.len() implies exists|j: int| 0 <= j < blocked.len() && piece_of(#[trigger] r[i], #[trigger] blocked[j]) by {
        assert(p.contains(r[i]));
        let k = choose|k: int| 0 <= k < p.len() && p[k] == r[i];
    }
}

impl<Ipv4: BlockListNet, Ipv6: BlockListNet> BlocklistRanges<Ipv4, Ipv6> {
    /// An empty blocklist.
    pub fn new() -> (r: Self)
        ensures
            r.ipv4@ == Seq::<Ipv4>::empty(),
            r.ipv6@ == Seq::<Ipv6>::empty(),
    {
        BlocklistRanges { ipv4: Vec::new(), ipv6: Vec::new() }
    }

    /// Drops the networks that lie within another network of the same list.
    pub fn deduplicate(self) -> (r: BlocklistRanges<Ipv4, Ipv6>)
        ensures
            r.ipv4@ == spec_deduplicate(self.ipv4@),
            r.ipv6@ == spec_deduplicate(self.ipv6@),
    {
        BlocklistRanges { ipv4: deduplicate(self.ipv4), ipv6: deduplicate(self.ipv6) }
    }

    /// Appends the networks of `other`.
    pub fn merge(&mut self, other: BlocklistRanges<Ipv4, Ipv6>)
        ensures
            final(self).ipv4@ == old(self).ipv4@ + other.ipv4@,
            final(self).ipv6@ == old(self).ipv6@ + other.ipv6@,
    {
        let mut other = other;
        self.ipv4.append(&mut other.ipv4);
        self.ipv6.append(&mut other.ipv6);
    }

    /// Removes the allowlisted hosts from the blocklist, per family, and drops
    /// networks that lie within another.
    pub fn subtract_allowlist(self, allowlist: BlocklistRanges<Ipv4, Ipv6>) -> (r: BlocklistRanges<Ipv4, Ipv6>)
        ensures
            cross_free(self.ipv4@) && cross_free(allowlist.ipv4@) ==> blocked_minus_allowed(r.ipv4@, self.ipv4@, allowlist.ipv4@),
            cross_free(self.ipv6@) && cross_free(allowlist.ipv6@) ==> blocked_minus_allowed(r.ipv6@, self.ipv6@, allowlist.ipv6@),
            single_family(self.ipv4@ + allowlist.ipv4@) ==> r.ipv4@ == spec_subtract_list(self.ipv4@, allowlist.ipv4@),
            single_family(self.ipv6@ + allowlist.ipv6@) ==> r.ipv6@ == spec_subtract_list(self.ipv6@, allowlist.ipv6@),
    {
        let ipv4 = subtract_list(self.ipv4, allowlist.ipv4);
        let ipv6 = subtract_list(self.ipv6, allowlist.ipv6);
        BlocklistRanges { ipv4, ipv6 }
    }
}

impl<Ipv4: BlockListNet, Ipv6: BlockListNet> Default for BlocklistRanges<Ipv4, Ipv6> {
    fn default() -> (r: Self)
        ensures
            r.ipv4@ == Seq::<Ipv4>::empty(),
            r.ipv6@ == Seq::<Ipv6>::empty(),
    {
        Self::new()
    }
}


/// IPv4 networks are all of one family, so none of them is taken for one of
/// the other family.
pub proof fn lemma_ipv4_single_family(s: Seq<Ipv4Net>)
    ensures
        single_family(s),
        cross_free(s),
{
}

/// IPv6 networks are all of one family, so none of them is taken for one of
/// the other family.
pub proof fn lemma_ipv6_single_family(s: Seq<Ipv6Net>)
    ensures
        single_family(s),
        cross_free(s),
{
}

/// How fetching one configured blocklist went.
pub enum UrlListOutcome<Ipv4, Ipv6> {
    /// The list was downloaded; `saved` is how writing its backup went.
    Downloaded { ranges: BlocklistRanges<Ipv4, Ipv6>, saved: Result<(), AppError> },
    /// The download failed with `error`; `backup` is what reading the backup gave.
    Failed { error: AppError, backup: Result<BlocklistRanges<Ipv4, Ipv6>, AppError> },
}

/// The IPv4 networks that an outcome contributes.
pub open spec fn outcome_v4<Ipv4, Ipv6>(o: UrlListOutcome<Ipv4, Ipv6>) -> Seq<Ipv4> {
    match o {
        UrlListOutcome::Downloaded { ranges, .. } => ranges.ipv4@,
        UrlListOutcome::Failed { backup: Ok(r), .. } => r.ipv4@,
        UrlListOutcome::Failed { backup: Err(_), .. } => Seq::empty(),
    }
}

/// The IPv6 networks that an outcome contributes.
pub open spec fn outcome_v6<Ipv4, Ipv6>(o: UrlListOutcome<Ipv4, Ipv6>) -> Seq<Ipv6> {
    match o {
        UrlListOutcome::Downloaded { ranges, .. } => ranges.ipv6@,
        UrlListOutcome::Failed { backup: Ok(r), .. } => r.ipv6@,
        UrlListOutcome::Failed { backup: Err(_), .. } => Seq::empty(),
    }
}

/// The IPv4 networks of the outcomes, in order.
pub open spec fn outcomes_v4<Ipv4, Ipv6>(s: Seq<UrlListOutcome<Ipv4, Ipv6>>) -> Seq<Ipv4>
    decreases s.len(),
{
    if s.len() == 0 {
        Seq::empty()
    } else {
        outcomes_v4(s.drop_last()) + outcome_v4(s.last())
    }
}

/// The IPv6 networks of the outcomes, in order.
pub open spec fn outcomes_v6<Ipv4, Ipv6>(s: Seq<UrlListOutcome<Ipv4, Ipv6>>) -> Seq<Ipv6>
    decreases s.len(),
{
    if s.len() == 0 {
        Seq::empty()
    } else {
        outcomes_v6(s.drop_last()) + outcome_v6(s.last())
    }
}

/// Some download failed.
pub open spec fn some_failed<Ipv4, Ipv6>(s: Seq<UrlListOutcome<Ipv4, Ipv6>>) -> bool {
    exists|i: int| 0 <= i < s.len() && #[trigger] s[i] is Failed
}

/// The last status report that the outcomes make, if any: a failed backup
/// write warns, a failed download is an error (after a warning when the
/// backup could not be read either).
pub open spec fn last_report<Ipv4, Ipv6>(s: Seq<UrlListOutcome<Ipv4, Ipv6>>) -> Option<(StatusCode, Seq<char>)>
    decreases s.len(),
{
    if s.len() == 0 {
        None
    } else {
        match s.last() {
            UrlListOutcome::Downloaded { saved: Err(e), .. } =>
                Some((StatusCode::Warning, "failed to save blocklist to disk: "@ + e.spec_message())),
            UrlListOutcome::Downloaded { saved: Ok(_), .. } => last_report(s.drop_last()),
            UrlListOutcome::Failed { error, .. } =>
                Some((StatusCode::Error, "failed to download blocklist from: "@ + error.spec_message())),
        }
    }
}

/// The IPv4 networks of a custom list that loaded.
pub open spec fn loaded_v4<Ipv4, Ipv6>(r: Result<BlocklistRanges<Ipv4, Ipv6>, AppError>) -> Seq<Ipv4> {
    match r {
        Ok(l) => l.ipv4@,
        Err(_) => Seq::empty(),
    }
}

/// The IPv6 networks of a custom list that loaded.
pub open spec fn loaded_v6<Ipv4, Ipv6>(r: Result<BlocklistRanges<Ipv4, Ipv6>, AppError>) -> Seq<Ipv6> {
    match r {
        Ok(l) => l.ipv6@,
        Err(_) => Seq::empty(),
    }
}

/// The state that the blocklist component reports after a refresh: the last
/// report made, or `None` when none was.
pub open spec fn blocklist_report<Ipv4, Ipv6>(
    downloads: Seq<UrlListOutcome<Ipv4, Ipv6>>,
    custom_blocklist: Result<BlocklistRanges<Ipv4, Ipv6>, AppError>,
    custom_allowlist: Result<BlocklistRanges<Ipv4, Ipv6>, AppError>,
) -> Option<(StatusCode, Seq<char>)> {
    match custom_allowlist {
        Err(e) => Some((StatusCode::Warning, "failed to load custom allowlist ranges: "@ + e.spec_message())),
        Ok(_) => match custom_blocklist {
            Err(e) => Some((StatusCode::Warning, "failed to load custom blocklist ranges: "@ + e.spec_message())),
            Ok(_) => if some_failed(downloads) {
                last_report(downloads)
            } else {
                Some((StatusCode::Okay, "blocklist fetched successfully"@))
            },
        },
    }
}

proof fn lemma_some_failed_step<Ipv4, Ipv6>(s: Seq<UrlListOutcome<Ipv4, Ipv6>>, i: int)
    requires
        0 <= i < s.len(),
    ensures
        some_failed(s.take(i + 1)) == (some_failed(s.take(i)) || s[i] is Failed),
{
    let t = s.take(i);
    let t1 = s.take(i + 1);
    if some_failed(t) {
        let k = choose|k: int| 0 <= k < t.len() && #[trigger] t[k] is Failed;
        assert(t1[k] == t[k]);
    }
    if s[i] is Failed {
        assert(t1[i] == s[i]);
    }
    if some_failed(t1) {
        let k = choose|k: int| 0 <= k < t1.len() && #[trigger] t1[k] is Failed;
        if k < i {
            assert(t[k] == t1[k]);
        }
    }
}

/// Reports a new state of the blocklist component.
fn report(status: &mut ComponentStatus, code: StatusCode, message: String)
    requires
        code != StatusCode::Disaster,
    ensures
        final(status).status.is(code, message@),
        final(status).update == old(status).update,
{
    match code {
        StatusCode::Okay => status.ok(message),
        StatusCode::Warning => status.warning(message),
        StatusCode::Error => status.error(message),
        StatusCode::Disaster => {},
    }
}

fn prefixed(prefix: &str, e: &AppError) -> (r: String)
    ensures
        r@ == prefix@ + e.spec_message(),
{
    String::from_str(prefix).concat(e.message().as_str())
}

impl<Ipv4: BlockListNet, Ipv6: BlockListNet> BlocklistRanges<Ipv4, Ipv6> {
    /// Puts together the blocklist from what fetching gave: the networks of
    /// each configured list (downloaded, else read from its backup), then
    /// those of the custom blocklist, less the hosts of the custom allowlist,
    /// without networks that lie within another. When the allowlist could not
    /// be loaded the blocklist is served without it. Each problem is reported
    /// in `status` as it is met; when nothing failed the component is healthy.
    pub fn merged_blocklist_ranges(
        downloads: Vec<UrlListOutcome<Ipv4, Ipv6>>,
        custom_blocklist: Result<BlocklistRanges<Ipv4, Ipv6>, AppError>,
        custom_allowlist: Result<BlocklistRanges<Ipv4, Ipv6>, AppError>,
        status: &mut ComponentStatus,
    ) -> (r: BlocklistRanges<Ipv4, Ipv6>)
        ensures
            ({
                let m4 = outcomes_v4(downloads@) + loaded_v4(custom_blocklist);
                let m6 = outcomes_v6(downloads@) + loaded_v6(custom_blocklist);
                match custom_allowlist {
                    Err(_) => r.ipv4@ == spec_deduplicate(m4) && r.ipv6@ == spec_deduplicate(m6),
                    Ok(a) => {
                        &&& cross_free(m4) && cross_free(a.ipv4@) ==> blocked_minus_allowed(r.ipv4@, m4, a.ipv4@)
                        &&& cross_free(m6) && cross_free(a.ipv6@) ==> blocked_minus_allowed(r.ipv6@, m6, a.ipv6@)
                        &&& single_family(m4 + a.ipv4@) ==> r.ipv4@ == spec_subtract_list(m4, a.ipv4@)
                        &&& single_family(m6 + a.ipv6@) ==> r.ipv6@ == spec_subtract_list(m6, a.ipv6@)
                    },
                }
            }),
            match blocklist_report(downloads@, custom_blocklist, custom_allowlist) {
                Some((code, msg)) => final(status).status.is(code, msg),
                None => final(status).status == old(status).status,
            },
            final(status).update == old(status).update,
    {
        proof {
            reveal_strlit("failed to save blocklist to disk: ");
            reveal_strlit("failed to load blocklist from disk: ");
            reveal_strlit("failed to download blocklist from: ");
            reveal_strlit("failed to load custom blocklist ranges: ");
            reveal_strlit("failed to load custom allowlist ranges: ");
            reveal_strlit("blocklist fetched successfully");
        }
        let ghost d = downloads@;
        let n0 = downloads.len();
        let mut merged: BlocklistRanges<Ipv4, Ipv6> = BlocklistRanges::new();
        let mut ok = true;
        let mut downloads = downloads;
        let mut rest: Vec<UrlListOutcome<Ipv4, Ipv6>> = Vec::new();
        // Take the outcomes in order: reverse once, then pop.
        while downloads.len() > 0
            invariant
                downloads@ + rest@.reverse() == d,
            decreases downloads@.len(),
        {
            let ghost before_rest = rest@;
            let ghost before_dl = downloads@;
            let o = downloads.pop();
            match o {
                Some(o) => {
                    rest.push(o);
                    proof {
                        assert(before_dl == downloads@.push(o));
                        assert(rest@.reverse() =~= seq![o] + before_rest.reverse());
                        assert(downloads@ + rest@.reverse() =~= before_dl + before_rest.reverse());
                    }
                },
                None => {},
            }
        }
        proof {
            assert(rest@.reverse() =~= d);
        }
        let ghost old_status = status.status;
        let mut i: usize = 0;
        while rest.len() > 0
            invariant
                rest@.reverse() == d.skip(i as int),
                i <= d.len(),
                d.len() == n0,
                merged.ipv4@ == outcomes_v4(d.take(i as int)),
                merged.ipv6@ == outcomes_v6(d.take(i as int)),
                ok == !some_failed(d.take(i as int)),
                match last_report(d.take(i as int)) {
                    Some((code, msg)) => status.status.is(code, msg),
                    None => status.status == old_status,
                },
                status.update == old(status).update,
            decreases rest@.len(),
        {
            let ghost before_rest = rest@;
            let ghost before_status = status.status;
            let o = rest.pop();
            proof {
                assert(d.skip(i as int).len() > 0);
                assert(d.take(i + 1).drop_last() =~= d.take(i as int));
            }
            match o {
                Some(o) => {
                    proof {
                        assert(before_rest == rest@.push(o));
                        assert(before_rest.reverse() =~= seq![o] + rest@.reverse());
                        assert(before_rest.reverse()[0] == o);
                        assert(d.skip(i as int)[0] == d[i as int]);
                        assert(o == d[i as int]);
                        assert(rest@.reverse() =~= before_rest.reverse().drop_first());
                        assert(d.skip(i as int).drop_first() =~= d.skip(i + 1));
                        assert(rest@.reverse() =~= d.skip(i + 1));
                        assert(d.take(i + 1).last() == o);
                        lemma_some_failed_step(d, i as int);
                    }
                    match o {
                        UrlListOutcome::Downloaded { ranges, saved } => {
                            if let Err(e) = saved {
                                status.warning(prefixed("failed to save blocklist to disk: ", &e));
                            }
                            merged.merge(ranges);
                        },
                        UrlListOutcome::Failed { error, backup } => {
                            ok = false;
                            match backup {
                                Ok(r) => merged.merge(r),
                                Err(e) => {
                                    status.warning(prefixed("failed to load blocklist from disk: ", &e));
                                },
                            }
                            status.error(prefixed("failed to download blocklist from: ", &error));
                        },
                    }
                },
                None => {},
            }
            i = i + 1;
        }
        proof {
            assert(d.skip(i as int).len() == 0);
            assert(d.take(i as int) =~= d);
        }
        match custom_blocklist {
            Ok(r) => merged.merge(r),
            Err(e) => {
                ok = false;
                status.warning(prefixed("failed to load custom blocklist ranges: ", &e));
            },
        }
        match custom_allowlist {
            Err(e) => {
                status.warning(prefixed("failed to load custom allowlist ranges: ", &e));
                merged.deduplicate()
            },
            Ok(allowlist) => {
                let result = merged.subtract_allowlist(allowlist);
                if ok {
                    status.ok(String::from_str("blocklist fetched successfully"));
                }
                result
            },
        }
    }
}


/// The entries of a downloaded list: its body trimmed, then split as
/// `parse_from_string` does.
pub fn fetched_entries(body: &str, split_string: Option<&str>) -> (r: Vec<String>)
    ensures
        views(r@) == spec_parse_from_string(spec_trim(body@), match split_string {
            Some(s) => Some(s@),
            None => None,
        }),
{
    let t = trim(body);
    parse_from_string(t.as_str(), split_string)
}

/// The networks of a custom list file: its entries, split as
/// `parse_from_string` does, that parse and are networks.
pub fn read_entries<T: BlockListNet>(content: &str, split_string: Option<&str>) -> (r: Vec<T>)
    ensures
        r@ == spec_validate::<T>(spec_parse_from_string(content@, match split_string {
            Some(s) => Some(s@),
            None => None,
        })),
{
    let entries = parse_from_string(content, split_string);
    validate_subnets(entries.as_slice())
}

impl<Ipv4: BlockListNet, Ipv6: BlockListNet> BlocklistRanges<Ipv4, Ipv6> {
    /// The blocklist of the entries fetched for each family; a family whose
    /// list is not configured (`None`) has no networks.
    pub fn from_entries(ipv4: Option<&Vec<String>>, ipv6: Option<&Vec<String>>) -> (r: Self)
        ensures
            r.ipv4@ == match ipv4 {
                Some(v) => spec_validate::<Ipv4>(views(v@)),
                None => Seq::<Ipv4>::empty(),
            },
            r.ipv6@ == match ipv6 {
                Some(v) => spec_validate::<Ipv6>(views(v@)),
                None => Seq::<Ipv6>::empty(),
            },
    {
        let v4 = match ipv4 {
            Some(v) => validate_subnets(v.as_slice()),
            None => Vec::new(),
        };
        let v6 = match ipv6 {
            Some(v) => validate_subnets(v.as_slice()),
            None => Vec::new(),
        };
        BlocklistRanges { ipv4: v4, ipv6: v6 }
    }
}

} // verus!
