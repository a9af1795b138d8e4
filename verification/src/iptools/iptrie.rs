use vstd::prelude::*;

use crate::error::AppError;
use crate::iptools::network::{key_is_network, half_key, lemma_half_key, lemma_key_from_bits, ListNetwork, Splitable};

verus! {

/// A generic IP address, IPv4 or IPv6, as its numeric value.
#[derive(Copy, Clone, Debug, PartialEq, Eq, Structural)]
pub enum BitIp {
    Ipv4(u32),
    Ipv6(u128),
}

/// Bit `i` of a 32-bit value, counted from the most significant bit.
pub open spec fn bit32(a: u32, i: u32) -> bool {
    (a >> ((31 - i) as u32)) & 1u32 == 1u32
}

/// Bit `i` of a 128-bit value, counted from the most significant bit.
pub open spec fn bit128(a: u128, i: u32) -> bool {
    (a >> ((127 - i) as u32)) & 1u128 == 1u128
}

impl BitIp {
    /// Number of bits of the address family: 32 or 128.
    pub open spec fn width(self) -> nat {
        match self {
            BitIp::Ipv4(_) => 32,
            BitIp::Ipv6(_) => 128,
        }
    }

    /// Bit `i` of the address, counted from the most significant bit.
    pub open spec fn bit_at(self, i: int) -> bool {
        match self {
            BitIp::Ipv4(a) => bit32(a, i as u32),
            BitIp::Ipv6(a) => bit128(a, i as u32),
        }
    }

    pub open spec fn same_family(self, other: BitIp) -> bool {
        (self is Ipv4) == (other is Ipv4)
    }

    /// Shifts the address right by `n` bits.
    pub fn r_shift(&self, n: u8) -> (r: Self)
        requires
            n < self.width(),
        ensures
            r == match *self {
                BitIp::Ipv4(ip) => BitIp::Ipv4(ip >> (n as u32)),
                BitIp::Ipv6(ip) => BitIp::Ipv6(ip >> (n as u32)),
            },
    {
        match self {
            BitIp::Ipv4(ip) => BitIp::Ipv4(*ip >> (n as u32)),
            BitIp::Ipv6(ip) => BitIp::Ipv6(*ip >> (n as u32)),
        }
    }

    /// The low byte of the address ANDed with `rhs`.
    pub fn b_and(self, rhs: u8) -> (r: u8)
        ensures
            r == match self {
                BitIp::Ipv4(ip) => (ip & (rhs as u32)) as u8,
                BitIp::Ipv6(ip) => (ip & (rhs as u128)) as u8,
            },
    {
        match self {
            BitIp::Ipv4(ip) => (ip & rhs as u32) as u8,
            BitIp::Ipv6(ip) => (ip & rhs as u128) as u8,
        }
    }

    /// The largest prefix length of the family: 32 for IPv4, 128 for IPv6.
    pub fn max_prefix(&self) -> (r: u8)
        ensures
            r == self.width(),
    {
        match self {
            BitIp::Ipv4(_) => 32,
            BitIp::Ipv6(_) => 128,
        }
    }

    /// Whether the address is an IPv4 one.
    pub fn is_ipv4(&self) -> (r: bool)
        ensures
            r == (*self is Ipv4),
    {
        matches!(self, BitIp::Ipv4(_))
    }

    /// Whether the address is an IPv6 one.
    pub fn is_ipv6(&self) -> (r: bool)
        ensures
            r == (*self is Ipv6),
    {
        matches!(self, BitIp::Ipv6(_))
    }
}

/// The key under which a network is filed in the trie: its network address
/// and its prefix length.
#[derive(Copy, Clone, Debug, PartialEq, Eq, Structural)]
pub struct TrieKey {
    pub addr: BitIp,
    pub network_prefix: u8,
}

impl TrieKey {
    /// The first `network_prefix` bits of the address: the path of the key in the trie.
    pub open spec fn bits(self) -> Seq<bool> {
        Seq::new(self.network_prefix as nat, |i: int| self.addr.bit_at(i))
    }

    /// All bits of the address.
    pub open spec fn full_bits(self) -> Seq<bool> {
        Seq::new(self.addr.width(), |i: int| self.addr.bit_at(i))
    }

    pub open spec fn wf(self) -> bool {
        self.network_prefix <= self.addr.width()
    }

    /// The key of the given address and prefix length.
    pub fn new(addr: BitIp, network_prefix: u8) -> (r: Self)
        ensures
            r.addr == addr,
            r.network_prefix == network_prefix,
    {
        Self { addr, network_prefix }
    }

    /// Returns the i-th bit (from the MSB) of the key address.
    pub fn bit(&self, i: u8) -> (r: u8)
        requires
            i < self.addr.width(),
        ensures
            r == (if self.addr.bit_at(i as int) { 1u8 } else { 0u8 }),
    {
        let n = self.addr.max_prefix() - 1 - i;
        let r = self.addr.r_shift(n).b_and(1);
        proof {
            match self.addr {
                BitIp::Ipv4(a) => {
                    let nn = n as u32;
                    assert(((a >> nn) & 1u32) as u8 == (if (a >> nn) & 1u32 == 1u32 { 1u8 } else { 0u8 })) by (bit_vector);
                    assert((31 - (i as u32)) as u32 == nn);
                }
                BitIp::Ipv6(a) => {
                    let nn = n as u32;
                    assert(((a >> nn) & 1u128) as u8 == (if (a >> nn) & 1u128 == 1u128 { 1u8 } else { 0u8 })) by (bit_vector);
                    assert((127 - (i as u32)) as u32 == nn);
                }
            }
        }
        r
    }
}


// ---------------------------------------------------------------------------
// Trie nodes
// ---------------------------------------------------------------------------

/// The path bits of a stored value.
pub open spec fn net_bits<T: ListNetwork>(v: T) -> Seq<bool> {
    v.key().bits()
}

/// A node of the prefix trie: an optional stored network and two children,
/// for the next bit being 0 and 1.
pub struct TrieNode<T: ListNetwork> {
    zero: Option<Box<TrieNode<T>>>,
    one: Option<Box<TrieNode<T>>>,
    value: Option<T>,
}

pub open spec fn opt_values<T: ListNetwork>(n: Option<Box<TrieNode<T>>>) -> Set<T>
    decreases n,
{
    match n {
        Some(b) => b.values(),
        None => Set::empty(),
    }
}

pub open spec fn opt_wf<T: ListNetwork>(n: Option<Box<TrieNode<T>>>, path: Seq<bool>) -> bool
    decreases n,
{
    match n {
        Some(b) => b.wf(path),
        None => true,
    }
}


/// `a` is a prefix of `b` and `b` of `c`, so `a` is one of `c`.
pub proof fn lemma_prefix_trans(a: Seq<bool>, b: Seq<bool>, c: Seq<bool>)
    requires
        a.is_prefix_of(b),
        b.is_prefix_of(c),
    ensures
        a.is_prefix_of(c),
{
    assert(c.subrange(0, a.len() as int) =~= b.subrange(0, a.len() as int));
}

/// Some stored network of the family of `fam` covers the host whose bits are `h`.
pub open spec fn stored_covers<T: ListNetwork>(s: Set<T>, fam: BitIp, h: Seq<bool>) -> bool {
    exists|v: T| #[trigger] s.contains(v) && v.key().addr.same_family(fam) && net_bits(v).is_prefix_of(h)
}

/// Some network of the list covers the host whose bits are `h`.
pub open spec fn seq_covers<T: ListNetwork>(s: Seq<T>, h: Seq<bool>) -> bool {
    exists|i: int| 0 <= i < s.len() && net_bits(#[trigger] s[i]).is_prefix_of(h)
}

/// No network of the list lies within another one of it.
pub open spec fn pairwise_disjoint<T: ListNetwork>(s: Seq<T>) -> bool {
    forall|i: int, j: int|
        0 <= i < s.len() && 0 <= j < s.len() && i != j ==> !net_bits(#[trigger] s[i]).is_prefix_of(net_bits(#[trigger] s[j]))
}

/// The stored networks are proper network keys and none lies within another.
pub open spec fn stored_ok<T: ListNetwork>(s: Set<T>) -> bool {
    &&& forall|v: T| #[trigger] s.contains(v) ==> key_is_network(v.key())
    &&& forall|v: T, w: T|
        #[trigger] s.contains(v) && #[trigger] s.contains(w) && net_bits(v).is_prefix_of(net_bits(w)) ==> v == w
}

/// `x` is the network `n` itself (when it has the path of `n`) or a subnet cut
/// from it, carrying the same data.
pub open spec fn piece_of<T: Splitable>(x: T, n: T) -> bool {
    &&& net_bits(n).is_prefix_of(net_bits(x))
    &&& x.key().addr.same_family(n.key().addr)
    &&& key_is_network(x.key())
    &&& x == (if net_bits(x) == net_bits(n) { n } else { n.rekey(x.key()) })
}

/// `rest` is what remains of `n` after removing the networks of `stored`
/// (same family only): pieces of `n`, not overlapping each other, covering
/// exactly the hosts of `n` that no stored network covers.
pub open spec fn remainder_of<T: Splitable>(rest: Seq<T>, n: T, stored: Set<T>) -> bool {
    &&& forall|i: int| 0 <= i < rest.len() ==> piece_of(#[trigger] rest[i], n)
    &&& pairwise_disjoint(rest)
    &&& forall|h: Seq<bool>|
        h.len() == n.key().addr.width() && #[trigger] net_bits(n).is_prefix_of(h) ==> (seq_covers(rest, h)
            <==> !stored_covers(stored, n.key().addr, h))
}

/// What remains of `n` after removing the networks of `stored`, in maximal
/// pieces and ascending order; `law_subtract_unique` shows there is only one
/// such list when the stored networks are all of `n`'s family.
pub open spec fn spec_remainder<T: Splitable>(n: T, stored: Set<T>) -> Seq<T> {
    choose|r: Seq<T>| remainder_of(r, n, stored) && pieces_maximal(r, n, stored) && ascending(r)
}

/// What remains of each network of `s` after removing `stored`, one after
/// the other.
pub open spec fn remainders<T: Splitable>(s: Seq<T>, stored: Set<T>) -> Seq<T>
    decreases s.len(),
{
    if s.len() == 0 {
        Seq::empty()
    } else {
        remainders(s.drop_last(), stored) + spec_remainder(s.last(), stored)
    }
}

/// A stored network of the family of `fam` lies within the network of path `q`.
pub open spec fn stored_within<T: ListNetwork>(stored: Set<T>, fam: BitIp, q: Seq<bool>) -> bool {
    exists|v: T| #[trigger] stored.contains(v) && v.key().addr.same_family(fam) && q.is_prefix_of(net_bits(v))
}

/// No piece of `rest` could be larger: the network one bit larger than a
/// piece cut from `n` holds a stored network of the family.
pub open spec fn pieces_maximal<T: ListNetwork>(rest: Seq<T>, n: T, stored: Set<T>) -> bool {
    forall|i: int| 0 <= i < rest.len() && net_bits(n).len() < net_bits(#[trigger] rest[i]).len()
        ==> stored_within(stored, n.key().addr, net_bits(rest[i]).drop_last())
}

/// The network of path `a` comes before that of path `b`: at the first bit
/// where they differ, `a` has 0 and `b` has 1.
pub open spec fn bits_before(a: Seq<bool>, b: Seq<bool>) -> bool {
    exists|k: int| 0 <= k < a.len() && k < b.len() && a.take(k) == b.take(k) && !a[k] && #[trigger] b[k]
}

/// The networks are in ascending address order.
pub open spec fn ascending<T: ListNetwork>(s: Seq<T>) -> bool {
    forall|i: int, j: int| 0 <= i < j < s.len() ==> bits_before(net_bits(#[trigger] s[i]), net_bits(#[trigger] s[j]))
}

/// All stored networks are of the family of `fam`.
pub open spec fn all_of_family<T: ListNetwork>(stored: Set<T>, fam: BitIp) -> bool {
    forall|v: T| #[trigger] stored.contains(v) ==> v.key().addr.same_family(fam)
}

/// A network that no stored network touches remains whole.
proof fn lemma_remains_whole<T: Splitable>(n: T, stored: Set<T>)
    requires
        key_is_network(n.key()),
        forall|h: Seq<bool>|
            h.len() == n.key().addr.width() && #[trigger] net_bits(n).is_prefix_of(h) ==> !stored_covers(stored, n.key().addr, h),
    ensures
        remainder_of(seq![n], n, stored),
{
    let r = seq![n];
    assert(net_bits(n).is_prefix_of(net_bits(n)));
    assert forall|h: Seq<bool>|
        h.len() == n.key().addr.width() && #[trigger] net_bits(n).is_prefix_of(h) implies (seq_covers(r, h)
            <==> !stored_covers(stored, n.key().addr, h)) by {
        assert(net_bits(r[0]).is_prefix_of(h));
    }
}

/// The remainder only depends on which hosts of `n` the stored networks cover.
proof fn lemma_remainder_same_cover<T: Splitable>(rest: Seq<T>, n: T, s1: Set<T>, s2: Set<T>)
    requires
        remainder_of(rest, n, s1),
        forall|h: Seq<bool>|
            h.len() == n.key().addr.width() && #[trigger] net_bits(n).is_prefix_of(h) ==> stored_covers(s1, n.key().addr, h)
                == stored_covers(s2, n.key().addr, h),
    ensures
        remainder_of(rest, n, s2),
{
}

/// Joining the remainders of both halves gives the remainder of the whole.
proof fn lemma_join_halves<T: Splitable>(n: T, a: T, b: T, ra: Seq<T>, rb: Seq<T>, sa: Set<T>, sb: Set<T>)
    requires
        key_is_network(n.key()),
        n.key().network_prefix < n.key().addr.width(),
        a.key() == half_key(n.key(), false),
        b.key() == half_key(n.key(), true),
        a == n.rekey(a.key()),
        b == n.rekey(b.key()),
        remainder_of(ra, a, sa),
        remainder_of(rb, b, sb),
        forall|v: T| #[trigger] sa.contains(v) ==> net_bits(v).len() > n.key().network_prefix && net_bits(v)[n.key().network_prefix as int] == false,
        forall|v: T| #[trigger] sb.contains(v) ==> net_bits(v).len() > n.key().network_prefix && net_bits(v)[n.key().network_prefix as int] == true,
    ensures
        remainder_of(ra + rb, n, sa + sb),
{
    let p = n.key().network_prefix as int;
    let r = ra + rb;
    lemma_half_key(n.key(), false);
    lemma_half_key(n.key(), true);
    let nb = net_bits(n);
    assert(net_bits(a) == nb.push(false));
    assert(net_bits(b) == nb.push(true));
    assert(nb.is_prefix_of(net_bits(a)));
    assert(nb.is_prefix_of(net_bits(b)));
    assert forall|i: int| 0 <= i < r.len() implies piece_of(#[trigger] r[i], n) by {
        if i < ra.len() {
            assert(r[i] == ra[i]);
            assert(piece_of(ra[i], a));
            lemma_prefix_trans(nb, net_bits(a), net_bits(ra[i]));
            n.lemma_rekey_twice(a.key(), ra[i].key());
        } else {
            assert(r[i] == rb[i - ra.len()]);
            assert(piece_of(rb[i - ra.len()], b));
            lemma_prefix_trans(nb, net_bits(b), net_bits(rb[i - ra.len()]));
            n.lemma_rekey_twice(b.key(), rb[i - ra.len()].key());
        }
    }
    // pieces of `a` have bit `p` clear, pieces of `b` have it set
    assert forall|i: int| 0 <= i < r.len() implies net_bits(#[trigger] r[i]).len() > p && net_bits(r[i])[p] == (i >= ra.len()) by {
        if i < ra.len() {
            assert(piece_of(ra[i], a));
            assert(net_bits(ra[i])[p] == net_bits(a)[p]);
        } else {
            assert(piece_of(rb[i - ra.len()], b));
            assert(net_bits(rb[i - ra.len()])[p] == net_bits(b)[p]);
        }
    }
    assert forall|i: int, j: int|
        0 <= i < r.len() && 0 <= j < r.len() && i != j implies !net_bits(#[trigger] r[i]).is_prefix_of(net_bits(#[trigger] r[j])) by {
        if i < ra.len() && j < ra.len() {
            assert(r[i] == ra[i] && r[j] == ra[j]);
        } else if i >= ra.len() && j >= ra.len() {
            assert(r[i] == rb[i - ra.len()] && r[j] == rb[j - ra.len()]);
        } else {
            if net_bits(r[i]).is_prefix_of(net_bits(r[j])) {
                assert(net_bits(r[i])[p] == net_bits(r[j])[p]);
            }
        }
    }
    assert forall|h: Seq<bool>|
        h.len() == n.key().addr.width() && #[trigger] nb.is_prefix_of(h) implies (seq_covers(r, h)
            <==> !stored_covers(sa + sb, n.key().addr, h)) by {
        let hb = h[p];
        let half = if hb { b } else { a };
        assert(net_bits(half) =~= nb.push(hb));
        assert(net_bits(half).is_prefix_of(h)) by {
            assert(h.subrange(0, p + 1) =~= nb.push(hb));
        }
        if hb {
            // only pieces of b and stored networks of sb can cover h
            if seq_covers(r, h) {
                let i = choose|i: int| 0 <= i < r.len() && net_bits(#[trigger] r[i]).is_prefix_of(h);
                assert(net_bits(r[i])[p] == h[p]);
                assert(i >= ra.len());
                assert(r[i] == rb[i - ra.len()]);
                assert(seq_covers(rb, h));
            }
            if seq_covers(rb, h) {
                let j = choose|j: int| 0 <= j < rb.len() && net_bits(#[trigger] rb[j]).is_prefix_of(h);
                assert(r[j + ra.len()] == rb[j]);
            }
            if stored_covers(sa + sb, n.key().addr, h) {
                let v = choose|v: T| #[trigger] (sa + sb).contains(v) && v.key().addr.same_family(n.key().addr) && net_bits(v).is_prefix_of(h);
                if sa.contains(v) {
                    assert(net_bits(v)[p] == h[p]);
                }
                assert(stored_covers(sb, b.key().addr, h));
            }
            if stored_covers(sb, b.key().addr, h) {
                let v = choose|v: T| #[trigger] sb.contains(v) && v.key().addr.same_family(b.key().addr) && net_bits(v).is_prefix_of(h);
                assert((sa + sb).contains(v));
            }
        } else {
            if seq_covers(r, h) {
                let i = choose|i: int| 0 <= i < r.len() && net_bits(#[trigger] r[i]).is_prefix_of(h);
                assert(net_bits(r[i])[p] == h[p]);
                assert(i < ra.len());
                assert(r[i] == ra[i]);
                assert(seq_covers(ra, h));
            }
            if seq_covers(ra, h) {
                let j = choose|j: int| 0 <= j < ra.len() && net_bits(#[trigger] ra[j]).is_prefix_of(h);
                assert(r[j] == ra[j]);
            }
            if stored_covers(sa + sb, n.key().addr, h) {
                let v = choose|v: T| #[trigger] (sa + sb).contains(v) && v.key().addr.same_family(n.key().addr) && net_bits(v).is_prefix_of(h);
                if sb.contains(v) {
                    assert(net_bits(v)[p] == h[p]);
                }
                assert(stored_covers(sa, a.key().addr, h));
            }
            if stored_covers(sa, a.key().addr, h) {
                let v = choose|v: T| #[trigger] sa.contains(v) && v.key().addr.same_family(a.key().addr) && net_bits(v).is_prefix_of(h);
                assert((sa + sb).contains(v));
            }
        }
    }
}

impl<T: ListNetwork> TrieNode<T> {
    /// The networks stored in the subtree.
    pub closed spec fn values(self) -> Set<T>
        decreases self,
    {
        let here = match self.value {
            Some(v) => Set::empty().insert(v),
            None => Set::empty(),
        };
        here + opt_values(self.zero) + opt_values(self.one)
    }

    /// The node sits at `path`: a stored network has exactly this path and no
    /// children below it, and each child sits one bit further.
    pub closed spec fn wf(self, path: Seq<bool>) -> bool
        decreases self,
    {
        &&& match self.value {
            Some(v) => {
                &&& net_bits(v) == path
                &&& key_is_network(v.key())
                &&& self.zero is None
                &&& self.one is None
            },
            None => true,
        }
        &&& opt_wf(self.zero, path.push(false))
        &&& opt_wf(self.one, path.push(true))
        &&& self.zero is Some ==> opt_values(self.zero) != Set::<T>::empty()
        &&& self.one is Some ==> opt_values(self.one) != Set::<T>::empty()
    }

    pub closed spec fn child(self, bit: bool) -> Option<Box<TrieNode<T>>> {
        if bit { self.one } else { self.zero }
    }

    fn new() -> (r: Self)
        ensures
            r.values() == Set::<T>::empty(),
            forall|path: Seq<bool>| r.wf(path),
    {
        let r = TrieNode { zero: None, one: None, value: None };
        assert(r.values() =~= Set::<T>::empty());
        r
    }

    /// Every network stored below a node at `path` extends `path`.
    proof fn lemma_values_prefix(self, path: Seq<bool>)
        requires
            self.wf(path),
        ensures
            forall|v: T| #[trigger] self.values().contains(v) ==> path.is_prefix_of(net_bits(v)) && key_is_network(v.key()),
        decreases self,
    {
        assert forall|v: T| #[trigger] self.values().contains(v) implies path.is_prefix_of(net_bits(v)) && key_is_network(v.key()) by {
            if opt_values(self.zero).contains(v) {
                let z = self.zero->0;
                z.lemma_values_prefix(path.push(false));
                assert(z.values().contains(v));
                assert(net_bits(v).subrange(0, path.len() as int) =~= path.push(false).subrange(0, path.len() as int));
            } else if opt_values(self.one).contains(v) {
                let o = self.one->0;
                o.lemma_values_prefix(path.push(true));
                assert(o.values().contains(v));
                assert(net_bits(v).subrange(0, path.len() as int) =~= path.push(true).subrange(0, path.len() as int));
            } else {
                assert(net_bits(v) =~= path);
            }
        }
    }

    /// Networks stored in child `b` of a node at `path` have bit `b` right after `path`.
    proof fn lemma_values_extend(self, path: Seq<bool>)
        requires
            self.wf(path),
        ensures
            forall|v: T| #[trigger] self.values().contains(v) ==> path.is_prefix_of(net_bits(v)) && key_is_network(v.key()),
            forall|b: bool, v: T| #[trigger] opt_values(self.child(b)).contains(v) ==> {
                &&& net_bits(v).len() > path.len()
                &&& net_bits(v)[path.len() as int] == b
                &&& path.push(b).is_prefix_of(net_bits(v))
                &&& self.values().contains(v)
            },
            self.value is Some ==> self.values() == Set::empty().insert(self.value->0),
    {
        self.lemma_values_prefix(path);
        assert forall|b: bool, v: T| #[trigger] opt_values(self.child(b)).contains(v) implies {
            &&& net_bits(v).len() > path.len()
            &&& net_bits(v)[path.len() as int] == b
            &&& path.push(b).is_prefix_of(net_bits(v))
            &&& self.values().contains(v)
        } by {
            let pb = path.push(b);
            let c = self.child(b)->0;
            c.lemma_values_prefix(pb);
            assert(c.values().contains(v));
            assert(net_bits(v)[path.len() as int] == pb[path.len() as int]);
        }
        if self.value is Some {
            assert(self.values() =~= Set::empty().insert(self.value->0));
        }
    }


    /// No stored network lies within another stored network.
    proof fn lemma_prefix_free(self, path: Seq<bool>)
        requires
            self.wf(path),
        ensures
            forall|v: T, w: T|
                #[trigger] self.values().contains(v) && #[trigger] self.values().contains(w) && net_bits(v).is_prefix_of(net_bits(w)) ==> v == w,
        decreases self,
    {
        self.lemma_values_extend(path);
        if let Some(z) = self.zero {
            z.lemma_prefix_free(path.push(false));
        }
        if let Some(o) = self.one {
            o.lemma_prefix_free(path.push(true));
        }
        assert forall|v: T, w: T|
            #[trigger] self.values().contains(v) && #[trigger] self.values().contains(w) && net_bits(v).is_prefix_of(net_bits(w)) implies v == w by {
            if self.value is None {
                let p = path.len() as int;
                assert(opt_values(self.child(false)).contains(v) || opt_values(self.child(true)).contains(v));
                assert(opt_values(self.child(false)).contains(w) || opt_values(self.child(true)).contains(w));
                let bv = net_bits(v)[p];
                let bw = net_bits(w)[p];
                assert(opt_values(self.child(bv)).contains(v));
                assert(opt_values(self.child(bw)).contains(w));
                assert(net_bits(w)[p] == net_bits(v)[p]);
                let c = self.child(bv)->0;
                assert(c.values().contains(v) && c.values().contains(w));
            }
        }
    }

    /// Stores `network` on its path below this node, at depth `depth`.
    /// Returns `false`, changing nothing, when a stored network already covers
    /// it (its path is a prefix of the network's path, equal paths included);
    /// otherwise stores it and drops the stored networks that it covers.
    fn insert_at(&mut self, network: &T, key: &TrieKey, depth: u8) -> (r: bool)
        requires
            old(self).wf(key.bits().take(depth as int)),
            depth <= key.network_prefix,
            *key == network.key(),
            key_is_network(*key),
        ensures
            final(self).wf(key.bits().take(depth as int)),
            r == !exists|v: T| #[trigger] old(self).values().contains(v) && net_bits(v).is_prefix_of(key.bits()),
            r ==> final(self).values() == old(self).values().filter(|v: T| !key.bits().is_prefix_of(net_bits(v))).insert(*network),
            !r ==> final(self).values() == old(self).values(),
        decreases key.network_prefix - depth,
    {
        let ghost path = key.bits().take(depth as int);
        proof {
            old(self).lemma_values_extend(path);
        }
        if self.value.is_some() {
            proof {
                let v = self.value->0;
                assert(old(self).values().contains(v));
                assert(net_bits(v) == path);
                assert(net_bits(v).is_prefix_of(key.bits()));
            }
            return false;
        }
        if depth == key.network_prefix {
            proof {
                assert(path =~= key.bits());
                assert forall|v: T| #[trigger] old(self).values().contains(v) && net_bits(v).is_prefix_of(key.bits()) implies false by {
                    assert(path.is_prefix_of(net_bits(v)));
                    assert(net_bits(v) =~= path);
                    assert(opt_values(old(self).child(false)).contains(v) || opt_values(old(self).child(true)).contains(v));
                }
                assert forall|v: T| #[trigger] old(self).values().contains(v) implies key.bits().is_prefix_of(net_bits(v)) by {
                    assert(path.is_prefix_of(net_bits(v)));
                }
            }
            self.value = Some(network.duplicate());
            self.zero = None;
            self.one = None;
            proof {
                assert(self.values() =~= old(self).values().filter(|v: T| !key.bits().is_prefix_of(net_bits(v))).insert(*network));
            }
            return true;
        }
        let bit = key.bit(depth);
        let ghost b = bit == 1;
        proof {
            assert(key.bits()[depth as int] == b);
            assert(key.bits().take(depth + 1) =~= path.push(b));
        }
        let ghost other = old(self).child(!b);
        let mut child = if bit == 0 {
            match self.zero.take() {
                Some(c) => c,
                None => Box::new(TrieNode::new()),
            }
        } else {
            match self.one.take() {
                Some(c) => c,
                None => Box::new(TrieNode::new()),
            }
        };
        let ghost old_child = *child;
        proof {
            assert(old_child.values() == opt_values(old(self).child(b)));
        }
        let r = child.insert_at(network, key, depth + 1);
        if bit == 0 {
            self.zero = Some(child);
        } else {
            self.one = Some(child);
        }
        proof {
            assert(self.child(!b) == other);
            assert forall|v: T| #[trigger] opt_values(other).contains(v) implies !net_bits(v).is_prefix_of(key.bits()) && !key.bits().is_prefix_of(net_bits(v)) by {
                assert(opt_values(old(self).child(!b)).contains(v));
                assert(net_bits(v)[depth as int] == !b);
            }
            assert(old(self).values() =~= opt_values(old(self).child(false)) + opt_values(old(self).child(true)));
            assert(self.values() =~= opt_values(self.child(false)) + opt_values(self.child(true)));
            if r {
                assert(self.values() =~= old(self).values().filter(|v: T| !key.bits().is_prefix_of(net_bits(v))).insert(*network));
                assert(child.values().contains(*network));
            } else {
                assert(self.values() =~= old(self).values());
                if old(self).child(b) is None {
                    assert(old_child.values() =~= Set::<T>::empty());
                }
            }
            assert(opt_values(self.child(b)) != Set::<T>::empty()) by {
                if r {
                    assert(opt_values(self.child(b)).contains(*network));
                } else {
                    assert(opt_values(old(self).child(b)) != Set::<T>::empty());
                }
            }
            assert((exists|v: T| #[trigger] old(self).values().contains(v) && net_bits(v).is_prefix_of(key.bits()))
                == (exists|v: T| #[trigger] old_child.values().contains(v) && net_bits(v).is_prefix_of(key.bits())));
        }
        r
    }

    /// The stored network on the path of the host `address`, if it is of the
    /// address's family.
    fn lookup_at(&self, address: &TrieKey, depth: u8) -> (r: Option<&T>)
        requires
            self.wf(address.full_bits().take(depth as int)),
            depth <= address.addr.width(),
        ensures
            r matches Some(v) ==> {
                &&& self.values().contains(*v)
                &&& net_bits(*v).is_prefix_of(address.full_bits())
                &&& v.key().addr.same_family(address.addr)
                &&& forall|w: T| #[trigger] self.values().contains(w) && net_bits(w).is_prefix_of(address.full_bits()) ==> w == *v
            },
            r is None ==> forall|w: T| #[trigger] self.values().contains(w) && net_bits(w).is_prefix_of(address.full_bits())
                ==> !w.key().addr.same_family(address.addr),
        decreases address.addr.width() - depth,
    {
        let ghost full = address.full_bits();
        let ghost path = full.take(depth as int);
        proof {
            self.lemma_values_extend(path);
        }
        if let Some(value) = &self.value {
            proof {
                assert(net_bits(*value) == path);
                assert(path.is_prefix_of(full));
            }
            return if value.is_ipv4() == address.addr.is_ipv4() {
                Some(value)
            } else {
                None
            };
        }
        if depth == address.addr.max_prefix() {
            proof {
                assert forall|w: T| #[trigger] self.values().contains(w) implies !net_bits(w).is_prefix_of(full) by {
                    assert(opt_values(self.child(false)).contains(w) || opt_values(self.child(true)).contains(w));
                }
            }
            return None;
        }
        let bit = address.bit(depth);
        let ghost b = bit == 1;
        proof {
            assert(full[depth as int] == b);
            assert(full.take(depth + 1) =~= path.push(b));
            assert forall|w: T| #[trigger] self.values().contains(w) && net_bits(w).is_prefix_of(full) implies opt_values(self.child(b)).contains(w) by {
                if opt_values(self.child(!b)).contains(w) {
                    assert(net_bits(w)[depth as int] == full[depth as int]);
                }
                assert(opt_values(self.child(false)).contains(w) || opt_values(self.child(true)).contains(w));
            }
        }
        let child = if bit == 0 { &self.zero } else { &self.one };
        match child {
            Some(c) => {
                let r = c.lookup_at(address, depth + 1);
                proof {
                    assert(opt_values(self.child(b)) == c.values());
                }
                r
            },
            None => None,
        }
    }

    /// Splitting at a node with children only cuts pieces whose parents hold a
    /// stored network: the halves hold one between them, and the pieces cut
    /// further hold one below their parents by the halves' own maximality.
    proof fn lemma_split_maximal(self, n: T, a: T, b: T, ra: Seq<T>, rb: Seq<T>, kb: Seq<bool>)
        where T: Splitable,
        requires
            self.wf(kb),
            self.value is None,
            self.zero is Some || self.one is Some,
            kb == net_bits(n),
            key_is_network(n.key()),
            n.key().network_prefix < n.key().addr.width(),
            a.key() == half_key(n.key(), false),
            b.key() == half_key(n.key(), true),
            all_of_family(self.values(), n.key().addr),
            forall|i: int| 0 <= i < ra.len() ==> piece_of(#[trigger] ra[i], a),
            forall|i: int| 0 <= i < rb.len() ==> piece_of(#[trigger] rb[i], b),
            all_of_family(opt_values(self.child(false)), a.key().addr) ==> pieces_maximal(ra, a, opt_values(self.child(false))),
            all_of_family(opt_values(self.child(true)), b.key().addr) ==> pieces_maximal(rb, b, opt_values(self.child(true))),
        ensures
            pieces_maximal(ra + rb, n, self.values()),
    {
        lemma_half_key(n.key(), false);
        lemma_half_key(n.key(), true);
        self.lemma_values_extend(kb);
        assert(self.values() =~= opt_values(self.child(false)) + opt_values(self.child(true)));
        assert(all_of_family(opt_values(self.child(false)), a.key().addr));
        assert(all_of_family(opt_values(self.child(true)), b.key().addr));
        let c = if self.zero is Some { false } else { true };
        assert(opt_values(self.child(c)) != Set::<T>::empty());
        if !(exists|v: T| #[trigger] opt_values(self.child(c)).contains(v)) {
            assert(opt_values(self.child(c)) =~= Set::<T>::empty());
        }
        let w = choose|v: T| #[trigger] opt_values(self.child(c)).contains(v);
        assert(self.values().contains(w));
        assert(kb.is_prefix_of(net_bits(w)));
        assert(stored_within(self.values(), n.key().addr, kb));
        let r = ra + rb;
        assert forall|i: int| 0 <= i < r.len() && net_bits(n).len() < net_bits(#[trigger] r[i]).len()
            implies stored_within(self.values(), n.key().addr, net_bits(r[i]).drop_last()) by {
            let (h, x, hb) = if i < ra.len() { (a, ra[i], false) } else { (b, rb[i - ra.len()], true) };
            assert(r[i] == x);
            assert(piece_of(x, h));
            assert(net_bits(h) == kb.push(hb));
            if net_bits(x).len() == net_bits(h).len() {
                assert(net_bits(x) =~= net_bits(h));
                assert(net_bits(x).drop_last() =~= kb);
            } else {
                let k = if i < ra.len() { i } else { i - ra.len() };
                if hb {
                    assert(rb[k] == x);
                    assert(stored_within(opt_values(self.child(true)), b.key().addr, net_bits(x).drop_last()));
                    let v = choose|v: T| #[trigger] opt_values(self.child(true)).contains(v) && v.key().addr.same_family(b.key().addr)
                        && net_bits(x).drop_last().is_prefix_of(net_bits(v));
                    assert(self.values().contains(v));
                } else {
                    assert(ra[k] == x);
                    assert(stored_within(opt_values(self.child(false)), a.key().addr, net_bits(x).drop_last()));
                    let v = choose|v: T| #[trigger] opt_values(self.child(false)).contains(v) && v.key().addr.same_family(a.key().addr)
                        && net_bits(x).drop_last().is_prefix_of(net_bits(v));
                    assert(self.values().contains(v));
                }
            }
        }
    }

    /// Appends to `acc` what remains of `network` after removing the networks
    /// stored below this node (see `remainder_of`), splitting `network` only
    /// where a stored network lies strictly inside it.
    fn subtract_at(&self, network: &T, key: &TrieKey, depth: u8, acc: &mut Vec<T>)
        where T: Splitable,
        requires
            self.wf(key.bits().take(depth as int)),
            depth <= key.network_prefix,
            *key == network.key(),
            key_is_network(*key),
        ensures
            final(acc)@.len() >= old(acc)@.len(),
            final(acc)@.take(old(acc)@.len() as int) == old(acc)@,
            remainder_of(final(acc)@.skip(old(acc)@.len() as int), *network, self.values()),
            all_of_family(self.values(), key.addr) ==> pieces_maximal(final(acc)@.skip(old(acc)@.len() as int), *network, self.values()),
            ascending(final(acc)@.skip(old(acc)@.len() as int)),
        decreases 128 - depth,
    {
        let ghost path = key.bits().take(depth as int);
        let ghost start = acc@;
        let ghost kb = key.bits();
        proof {
            self.lemma_values_extend(path);
            assert(kb.len() == key.network_prefix);
        }
        if let Some(stored) = &self.value {
            if stored.is_ipv4() == network.is_ipv4() {
                proof {
                    assert(acc@.skip(start.len() as int) =~= Seq::<T>::empty());
                    assert(acc@.take(start.len() as int) =~= start);
                    assert forall|h: Seq<bool>| h.len() == key.addr.width() && #[trigger] kb.is_prefix_of(h)
                        implies stored_covers(self.values(), key.addr, h) by {
                        assert(net_bits(*stored) == path);
                        assert(path.is_prefix_of(kb));
                        lemma_prefix_trans(path, kb, h);
                        assert(self.values().contains(*stored));
                    }
                }
                return;
            }
        }
        // A stored network here is of the other family and has no children.
        proof {
            assert(self.value is Some ==> !self.value->0.key().addr.same_family(key.addr));
        }
        if depth == key.addr.max_prefix() {
            proof {
                assert forall|h: Seq<bool>| h.len() == key.addr.width() && #[trigger] kb.is_prefix_of(h)
                    implies !stored_covers(self.values(), key.addr, h) by {
                    if stored_covers(self.values(), key.addr, h) {
                        let v = choose|v: T| #[trigger] self.values().contains(v) && v.key().addr.same_family(key.addr) && net_bits(v).is_prefix_of(h);
                        if self.value is None {
                            assert(opt_values(self.child(false)).contains(v) || opt_values(self.child(true)).contains(v));
                        }
                    }
                }
                lemma_remains_whole(*network, self.values());
            }
            acc.push(network.duplicate());
            proof {
                assert(acc@.skip(start.len() as int) =~= seq![*network]);
                assert(acc@.take(start.len() as int) =~= start);
            }
            return;
        }
        if depth == key.network_prefix {
            if self.zero.is_none() && self.one.is_none() {
                proof {
                    assert forall|h: Seq<bool>| h.len() == key.addr.width() && #[trigger] kb.is_prefix_of(h)
                        implies !stored_covers(self.values(), key.addr, h) by {
                        if stored_covers(self.values(), key.addr, h) {
                            let v = choose|v: T| #[trigger] self.values().contains(v) && v.key().addr.same_family(key.addr) && net_bits(v).is_prefix_of(h);
                            assert(self.values() =~= Set::empty().insert(self.value->0));
                        }
                    }
                    lemma_remains_whole(*network, self.values());
                }
                acc.push(network.duplicate());
                proof {
                    assert(acc@.skip(start.len() as int) =~= seq![*network]);
                    assert(acc@.take(start.len() as int) =~= start);
                }
                return;
            }
            let (a, b) = match network.split() {
                Ok(halves) => halves,
                Err(_) => {
                    proof {
                        assert(false);
                    }
                    return;
                },
            };
            proof {
                assert(path =~= kb);
                lemma_half_key(*key, false);
                lemma_half_key(*key, true);
                assert(self.value is None);
                assert(self.values() =~= opt_values(self.child(false)) + opt_values(self.child(true)));
            }
            let ghost mid = acc@;
            self.subtract_half(&a, false, acc);
            let ghost after_a = acc@;
            self.subtract_half(&b, true, acc);
            proof {
                let ra = after_a.skip(mid.len() as int);
                let rb = acc@.skip(after_a.len() as int);
                assert(acc@.skip(start.len() as int) =~= ra + rb);
                assert(acc@.take(start.len() as int) =~= start);
                assert forall|v: T| #[trigger] opt_values(self.child(false)).contains(v) implies net_bits(v).len() > key.network_prefix && net_bits(v)[key.network_prefix as int] == false by {
                }
                assert forall|v: T| #[trigger] opt_values(self.child(true)).contains(v) implies net_bits(v).len() > key.network_prefix && net_bits(v)[key.network_prefix as int] == true by {
                }
                lemma_join_halves(*network, a, b, ra, rb, opt_values(self.child(false)), opt_values(self.child(true)));
                if all_of_family(self.values(), key.addr) {
                    self.lemma_split_maximal(*network, a, b, ra, rb, kb);
                }
                lemma_join_ascending(*network, a, b, ra, rb, kb);
            }
            return;
        }
        let bit = key.bit(depth);
        let ghost bb = bit == 1;
        proof {
            assert(kb[depth as int] == bb);
            assert(kb.take(depth + 1) =~= path.push(bb));
            assert forall|h: Seq<bool>| h.len() == key.addr.width() && #[trigger] kb.is_prefix_of(h)
                implies stored_covers(self.values(), key.addr, h) == stored_covers(opt_values(self.child(bb)), key.addr, h) by {
                assert(h[depth as int] == kb[depth as int]);
                if stored_covers(self.values(), key.addr, h) {
                    let v = choose|v: T| #[trigger] self.values().contains(v) && v.key().addr.same_family(key.addr) && net_bits(v).is_prefix_of(h);
                    if opt_values(self.child(!bb)).contains(v) {
                        assert(net_bits(v)[depth as int] == h[depth as int]);
                    }
                    assert(opt_values(self.child(false)).contains(v) || opt_values(self.child(true)).contains(v));
                    assert(opt_values(self.child(bb)).contains(v));
                }
                if stored_covers(opt_values(self.child(bb)), key.addr, h) {
                    let v = choose|v: T| #[trigger] opt_values(self.child(bb)).contains(v) && v.key().addr.same_family(key.addr) && net_bits(v).is_prefix_of(h);
                    assert(self.values().contains(v));
                }
            }
        }
        let child = if bit == 0 { &self.zero } else { &self.one };
        match child {
            Some(c) => {
                c.subtract_at(network, key, depth + 1, acc);
                proof {
                    lemma_remainder_same_cover(acc@.skip(start.len() as int), *network, c.values(), self.values());
                }
            },
            None => {
                proof {
                    lemma_remains_whole(*network, self.values());
                }
                acc.push(network.duplicate());
                proof {
                    assert(acc@.skip(start.len() as int) =~= seq![*network]);
                    assert(acc@.take(start.len() as int) =~= start);
                }
            },
        }
    }

    /// Subtracts the networks of child `high` from `half`, one half of a
    /// network whose path ends at this node.
    fn subtract_half(&self, half: &T, high: bool, acc: &mut Vec<T>)
        where T: Splitable,
        requires
            self.value is None,
            opt_wf(self.child(high), net_bits(*half)),
            key_is_network(half.key()),
            net_bits(*half).len() >= 1,
            net_bits(*half).len() <= 128,
        ensures
            final(acc)@.len() >= old(acc)@.len(),
            final(acc)@.take(old(acc)@.len() as int) == old(acc)@,
            remainder_of(final(acc)@.skip(old(acc)@.len() as int), *half, opt_values(self.child(high))),
            all_of_family(opt_values(self.child(high)), half.key().addr) ==> pieces_maximal(
                final(acc)@.skip(old(acc)@.len() as int),
                *half,
                opt_values(self.child(high)),
            ),
            ascending(final(acc)@.skip(old(acc)@.len() as int)),
        decreases 128 - net_bits(*half).len() + 1, 1int,
    {
        let ghost start = acc@;
        let hk = half.trie_key();
        let d = half.network_prefix();
        let child = if high { &self.one } else { &self.zero };
        match child {
            Some(c) => {
                proof {
                    assert(hk.bits().take(d as int) =~= hk.bits());
                }
                c.subtract_at(half, &hk, d, acc);
            },
            None => {
                proof {
                    lemma_remains_whole(*half, Set::<T>::empty());
                }
                acc.push(half.duplicate());
                proof {
                    assert(acc@.skip(start.len() as int) =~= seq![*half]);
                    assert(acc@.take(start.len() as int) =~= start);
                }
            },
        }
    }
}


// ---------------------------------------------------------------------------
// The trie
// ---------------------------------------------------------------------------

/// A prefix trie for IP networks that supports insertion, host-address lookup
/// and subtraction.
pub struct IPTrie<T: ListNetwork> {
    root: TrieNode<T>,
}

impl<T: ListNetwork> View for IPTrie<T> {
    type V = Set<T>;

    /// The networks stored in the trie.
    closed spec fn view(&self) -> Set<T> {
        self.root.values()
    }
}

impl<T: ListNetwork> IPTrie<T> {
    #[verifier::type_invariant]
    closed spec fn inv(self) -> bool {
        self.root.wf(Seq::empty())
    }

    proof fn lemma_stored(self)
        requires
            self.inv(),
        ensures
            stored_ok(self@),
    {
        self.root.lemma_values_prefix(Seq::empty());
        self.root.lemma_prefix_free(Seq::empty());
    }

    /// Creates an empty trie.
    pub fn new() -> (r: Self)
        ensures
            r@ == Set::<T>::empty(),
            stored_ok(r@),
    {
        IPTrie { root: TrieNode::new() }
    }

    /// Inserts a network into the trie.
    ///
    /// Returns `true` if the network was inserted, or `false` if it was already
    /// covered by an existing broader network or is an exact duplicate. An
    /// inserted network replaces the stored networks that it covers.
    pub fn insert(&mut self, network: &T) -> (r: bool)
        ensures
            r == !exists|v: T| #[trigger] old(self)@.contains(v) && net_bits(v).is_prefix_of(net_bits(*network)),
            r ==> final(self)@ == old(self)@.filter(|v: T| !net_bits(*network).is_prefix_of(net_bits(v))).insert(*network),
            !r ==> final(self)@ == old(self)@,
            stored_ok(final(self)@),
    {
        proof {
            use_type_invariant(&*self);
        }
        let key = network.trie_key();
        let mut root = TrieNode::new();
        std::mem::swap(&mut root, &mut self.root);
        proof {
            assert(key.bits().take(0) =~= Seq::<bool>::empty());
            assert(root.values() == old(self)@);
            assert(key.bits() == net_bits(*network));
        }
        let r = root.insert_at(network, &key, 0);
        self.root = root;
        proof {
            use_type_invariant(&*self);
            self.lemma_stored();
        }
        r
    }

    /// Looks up the network that contains the given host address.
    ///
    /// The address is interpreted as a single host (/32 for IPv4, /128 for IPv6).
    /// Returns the stored network of the address's family whose path the
    /// address follows, or `None` if no such network is stored.
    pub fn lookup(&self, address: TrieKey) -> (r: Option<&T>)
        ensures
            r matches Some(v) ==> {
                &&& self@.contains(*v)
                &&& net_bits(*v).is_prefix_of(address.full_bits())
                &&& v.key().addr.same_family(address.addr)
            },
            r is None ==> !stored_covers(self@, address.addr, address.full_bits()),
            stored_ok(self@),
    {
        proof {
            use_type_invariant(self);
            self.lemma_stored();
            assert(address.full_bits().take(0) =~= Seq::<bool>::empty());
        }
        self.root.lookup_at(&address, 0)
    }

    /// Computes `network − B`: returns the subnets of `network` that are not
    /// covered by any network of its family stored in this trie. The remainder
    /// is produced by splitting `network` only where needed: when the trie
    /// holds networks of that family only, the network one bit larger than a
    /// piece always holds a stored network. The pieces come in ascending
    /// address order.
    pub fn subtract(&self, network: &T) -> (r: Result<Vec<T>, AppError>)
        where T: Splitable,
        ensures
            r is Ok,
            r matches Ok(rest) ==> remainder_of(rest@, *network, self@),
            r matches Ok(rest) ==> (all_of_family(self@, network.key().addr) ==> pieces_maximal(rest@, *network, self@)),
            r matches Ok(rest) ==> ascending(rest@),
            r matches Ok(rest) ==> (all_of_family(self@, network.key().addr) ==> rest@ == spec_remainder(*network, self@)),
            stored_ok(self@),
    {
        proof {
            use_type_invariant(self);
            self.lemma_stored();
        }
        let key = network.trie_key();
        let mut acc = Vec::new();
        proof {
            assert(key.bits().take(0) =~= Seq::<bool>::empty());
        }
        self.root.subtract_at(network, &key, 0, &mut acc);
        proof {
            assert(acc@.skip(0) =~= acc@);
            if all_of_family(self@, network.key().addr) {
                let r = acc@;
                assert(remainder_of(r, *network, self@) && pieces_maximal(r, *network, self@) && ascending(r));
                let c = spec_remainder(*network, self@);
                law_subtract_unique(r, c, *network, self@);
            }
        }
        Ok(acc)
    }
}

/// Two prefixes of one sequence: the shorter is a prefix of the longer.
/// Two prefixes of one sequence: one is a prefix of the other.
pub proof fn lemma_prefixes_comparable(a: Seq<bool>, b: Seq<bool>, h: Seq<bool>)
    requires
        a.is_prefix_of(h),
        b.is_prefix_of(h),
    ensures
        a.is_prefix_of(b) || b.is_prefix_of(a),
{
    if a.len() <= b.len() {
        assert(b.subrange(0, a.len() as int) =~= h.subrange(0, a.len() as int));
    } else {
        assert(a.subrange(0, b.len() as int) =~= h.subrange(0, b.len() as int));
    }
}

/// The pieces of the lower half come before those of the upper half.
proof fn lemma_join_ascending<T: Splitable>(n: T, a: T, b: T, ra: Seq<T>, rb: Seq<T>, kb: Seq<bool>)
    requires
        kb == net_bits(n),
        key_is_network(n.key()),
        n.key().network_prefix < n.key().addr.width(),
        a.key() == half_key(n.key(), false),
        b.key() == half_key(n.key(), true),
        forall|i: int| 0 <= i < ra.len() ==> piece_of(#[trigger] ra[i], a),
        forall|i: int| 0 <= i < rb.len() ==> piece_of(#[trigger] rb[i], b),
        ascending(ra),
        ascending(rb),
    ensures
        ascending(ra + rb),
{
    lemma_half_key(n.key(), false);
    lemma_half_key(n.key(), true);
    let r = ra + rb;
    let p = kb.len() as int;
    assert forall|i: int, j: int| 0 <= i < j < r.len() implies bits_before(net_bits(#[trigger] r[i]), net_bits(#[trigger] r[j])) by {
        if j < ra.len() {
            assert(r[i] == ra[i] && r[j] == ra[j]);
        } else if i >= ra.len() {
            assert(r[i] == rb[i - ra.len()] && r[j] == rb[j - ra.len()]);
        } else {
            let x = ra[i];
            let y = rb[j - ra.len()];
            assert(r[i] == x && r[j] == y);
            assert(piece_of(x, a) && piece_of(y, b));
            let bx = net_bits(x);
            let by = net_bits(y);
            assert(net_bits(a) == kb.push(false));
            assert(net_bits(b) == kb.push(true));
            assert(bx[p] == kb.push(false)[p]);
            assert(by[p] == kb.push(true)[p]);
            assert(bx.take(p) =~= kb);
            assert(by.take(p) =~= kb);
            assert(bits_before(bx, by));
        }
    }
}

/// The paths of the networks, in order.
pub open spec fn paths<T: ListNetwork>(s: Seq<T>) -> Seq<Seq<bool>> {
    s.map_values(|x: T| net_bits(x))
}

/// `b` followed by zeros up to `width` bits: a host of the network of path `b`.
pub open spec fn first_host(b: Seq<bool>, width: nat) -> Seq<bool> {
    b + Seq::new((width - b.len()) as nat, |i: int| false)
}

proof fn lemma_first_host(b: Seq<bool>, width: nat)
    requires
        b.len() <= width,
    ensures
        first_host(b, width).len() == width,
        b.is_prefix_of(first_host(b, width)),
{
    assert(first_host(b, width).subrange(0, b.len() as int) =~= b);
}

proof fn lemma_bits_before_irreflexive(a: Seq<bool>)
    ensures
        !bits_before(a, a),
{
}

proof fn lemma_bits_before_asymmetric(a: Seq<bool>, b: Seq<bool>)
    ensures
        !(bits_before(a, b) && bits_before(b, a)),
{
    if bits_before(a, b) && bits_before(b, a) {
        let k1 = choose|k: int| 0 <= k < a.len() && k < b.len() && a.take(k) == b.take(k) && !a[k] && #[trigger] b[k];
        let k2 = choose|k: int| 0 <= k < b.len() && k < a.len() && b.take(k) == a.take(k) && !b[k] && #[trigger] a[k];
        if k1 < k2 {
            assert(a.take(k2)[k1] == b.take(k2)[k1]);
        } else if k2 < k1 {
            assert(a.take(k1)[k2] == b.take(k1)[k2]);
        }
    }
}

/// The paths are in ascending order.
pub open spec fn ascending_paths(p: Seq<Seq<bool>>) -> bool {
    forall|i: int, j: int| 0 <= i < j < p.len() ==> bits_before(#[trigger] p[i], #[trigger] p[j])
}

/// Two ascending sequences of paths with the same elements are equal.
proof fn lemma_ascending_unique(p1: Seq<Seq<bool>>, p2: Seq<Seq<bool>>)
    requires
        ascending_paths(p1),
        ascending_paths(p2),
        forall|i: int| 0 <= i < p1.len() ==> p2.contains(#[trigger] p1[i]),
        forall|i: int| 0 <= i < p2.len() ==> p1.contains(#[trigger] p2[i]),
    ensures
        p1 == p2,
    decreases p1.len() + p2.len(),
{
    if p1.len() == 0 && p2.len() == 0 {
        assert(p1 =~= p2);
    } else if p1.len() == 0 {
        assert(p1.contains(p2[0]));
    } else if p2.len() == 0 {
        assert(p2.contains(p1[0]));
    } else {
        assert(p2.contains(p1[0]));
        assert(p1.contains(p2[0]));
        let m = choose|m: int| 0 <= m < p2.len() && p2[m] == p1[0];
        let k = choose|k: int| 0 <= k < p1.len() && p1[k] == p2[0];
        if k > 0 && m > 0 {
            assert(bits_before(p1[0], p1[k]));
            assert(bits_before(p2[0], p2[m]));
            lemma_bits_before_asymmetric(p1[0], p2[0]);
        }
        assert(p1[0] == p2[0]);
        let t1 = p1.drop_first();
        let t2 = p2.drop_first();
        assert forall|i: int| 0 <= i < t1.len() implies t2.contains(#[trigger] t1[i]) by {
            assert(t1[i] == p1[i + 1]);
            assert(p2.contains(p1[i + 1]));
            let j = choose|j: int| 0 <= j < p2.len() && p2[j] == p1[i + 1];
            assert(bits_before(p1[0], p1[i + 1]));
            lemma_bits_before_irreflexive(p1[0]);
            assert(j != 0);
            assert(t2[j - 1] == t1[i]);
        }
        assert forall|i: int| 0 <= i < t2.len() implies t1.contains(#[trigger] t2[i]) by {
            assert(t2[i] == p2[i + 1]);
            assert(p1.contains(p2[i + 1]));
            let j = choose|j: int| 0 <= j < p1.len() && p1[j] == p2[i + 1];
            assert(bits_before(p2[0], p2[i + 1]));
            lemma_bits_before_irreflexive(p2[0]);
            assert(j != 0);
            assert(t1[j - 1] == t2[i]);
        }
        assert forall|i: int, j: int| 0 <= i < j < t1.len() implies bits_before(#[trigger] t1[i], #[trigger] t1[j]) by {
            assert(t1[i] == p1[i + 1] && t1[j] == p1[j + 1]);
        }
        assert forall|i: int, j: int| 0 <= i < j < t2.len() implies bits_before(#[trigger] t2[i], #[trigger] t2[j]) by {
            assert(t2[i] == p2[i + 1] && t2[j] == p2[j + 1]);
        }
        lemma_ascending_unique(t1, t2);
        assert(p1 =~= seq![p1[0]] + t1);
        assert(p2 =~= seq![p2[0]] + t2);
    }
}

/// A piece of one remainder is a piece of any other: no piece of a maximal
/// remainder lies strictly inside or around a piece of another.
proof fn lemma_piece_shared<T: Splitable>(r1: Seq<T>, r2: Seq<T>, n: T, stored: Set<T>, i: int)
    requires
        0 <= i < r1.len(),
        key_is_network(n.key()),
        forall|v: T| #[trigger] stored.contains(v) ==> key_is_network(v.key()),
        all_of_family(stored, n.key().addr),
        remainder_of(r1, n, stored),
        remainder_of(r2, n, stored),
        pieces_maximal(r1, n, stored),
        pieces_maximal(r2, n, stored),
    ensures
        paths(r2).contains(net_bits(r1[i])),
{
    let w = n.key().addr.width();
    let x = r1[i];
    assert(piece_of(x, n));
    let bx = net_bits(x);
    assert(x.key().wf());
    let h = first_host(bx, w);
    lemma_first_host(bx, w);
    lemma_prefix_trans(net_bits(n), bx, h);
    assert(seq_covers(r1, h));
    assert(seq_covers(r2, h));
    let j = choose|j: int| 0 <= j < r2.len() && net_bits(#[trigger] r2[j]).is_prefix_of(h);
    let y = r2[j];
    assert(piece_of(y, n));
    let by = net_bits(y);
    lemma_prefixes_comparable(bx, by, h);
    if by.len() < bx.len() {
        // The parent of x holds a stored network; a host of it is in y.
        let q = bx.drop_last();
        assert(net_bits(n).len() <= by.len());
        assert(stored_within(stored, n.key().addr, q));
        let v = choose|v: T| #[trigger] stored.contains(v) && v.key().addr.same_family(n.key().addr) && q.is_prefix_of(net_bits(v));
        assert(v.key().wf());
        let hv = first_host(net_bits(v), w);
        lemma_first_host(net_bits(v), w);
        assert(by.is_prefix_of(q)) by {
            assert(q.subrange(0, by.len() as int) =~= bx.subrange(0, by.len() as int));
        }
        lemma_prefix_trans(by, q, net_bits(v));
        lemma_prefix_trans(by, net_bits(v), hv);
        lemma_prefix_trans(net_bits(n), by, hv);
        assert(stored_covers(stored, n.key().addr, hv));
        assert(seq_covers(r2, hv));
        assert(false);
    } else if bx.len() < by.len() {
        let q = by.drop_last();
        assert(net_bits(n).len() <= bx.len());
        assert(pieces_maximal(r2, n, stored));
        assert(stored_within(stored, n.key().addr, q));
        let v = choose|v: T| #[trigger] stored.contains(v) && v.key().addr.same_family(n.key().addr) && q.is_prefix_of(net_bits(v));
        assert(v.key().wf());
        let hv = first_host(net_bits(v), w);
        lemma_first_host(net_bits(v), w);
        assert(bx.is_prefix_of(q)) by {
            assert(q.subrange(0, bx.len() as int) =~= by.subrange(0, bx.len() as int));
        }
        lemma_prefix_trans(bx, q, net_bits(v));
        lemma_prefix_trans(bx, net_bits(v), hv);
        lemma_prefix_trans(net_bits(n), bx, hv);
        assert(stored_covers(stored, n.key().addr, hv));
        assert(seq_covers(r1, hv));
        assert(false);
    }
    assert(bx =~= by);
    assert(paths(r2)[j] == bx);
}

/// Law: subtraction is determined by what it promises. Two remainders of `n`
/// that are made of maximal pieces in ascending order, from a set of stored
/// networks of `n`'s family, are the same list.
pub proof fn law_subtract_unique<T: Splitable>(r1: Seq<T>, r2: Seq<T>, n: T, stored: Set<T>)
    requires
        key_is_network(n.key()),
        stored_ok(stored),
        all_of_family(stored, n.key().addr),
        remainder_of(r1, n, stored),
        remainder_of(r2, n, stored),
        pieces_maximal(r1, n, stored),
        pieces_maximal(r2, n, stored),
        ascending(r1),
        ascending(r2),
    ensures
        paths(r1) == paths(r2),
        r1 == r2,
{
    let p1 = paths(r1);
    let p2 = paths(r2);
    assert forall|i: int| 0 <= i < p1.len() implies p2.contains(#[trigger] p1[i]) by {
        lemma_piece_shared(r1, r2, n, stored, i);
    }
    assert forall|i: int| 0 <= i < p2.len() implies p1.contains(#[trigger] p2[i]) by {
        lemma_piece_shared(r2, r1, n, stored, i);
    }
    assert forall|i: int, j: int| 0 <= i < j < p1.len() implies bits_before(#[trigger] p1[i], #[trigger] p1[j]) by {
        assert(bits_before(net_bits(r1[i]), net_bits(r1[j])));
    }
    assert forall|i: int, j: int| 0 <= i < j < p2.len() implies bits_before(#[trigger] p2[i], #[trigger] p2[j]) by {
        assert(bits_before(net_bits(r2[i]), net_bits(r2[j])));
    }
    lemma_ascending_unique(p1, p2);
    assert(r1.len() == p1.len() && r2.len() == p2.len());
    assert forall|i: int| 0 <= i < r1.len() implies r1[i] == r2[i] by {
        assert(p1[i] == net_bits(r1[i]) && p2[i] == net_bits(r2[i]));
        assert(piece_of(r1[i], n) && piece_of(r2[i], n));
        lemma_key_from_bits(r1[i].key(), r2[i].key());
    }
    assert(r1 =~= r2);
}

/// Law: a lookup gives back what an insert stored. After `n` was inserted
/// (the trie then holds `after`), a host of `n` is covered, and `n` is the
/// only stored network that covers it; so `lookup` answers `n` for it.
pub proof fn law_lookup_after_insert<T: ListNetwork>(before: Set<T>, n: T, host: TrieKey)
    requires
        stored_ok(before.filter(|v: T| !net_bits(n).is_prefix_of(net_bits(v))).insert(n)),
        net_bits(n).is_prefix_of(host.full_bits()),
        n.key().addr.same_family(host.addr),
    ensures
        ({
            let after = before.filter(|v: T| !net_bits(n).is_prefix_of(net_bits(v))).insert(n);
            &&& stored_covers(after, host.addr, host.full_bits())
            &&& forall|v: T| #[trigger] after.contains(v) && net_bits(v).is_prefix_of(host.full_bits()) ==> v == n
        }),
{
    let after = before.filter(|v: T| !net_bits(n).is_prefix_of(net_bits(v))).insert(n);
    assert(after.contains(n));
    assert forall|v: T| #[trigger] after.contains(v) && net_bits(v).is_prefix_of(host.full_bits()) implies v == n by {
        lemma_prefixes_comparable(net_bits(v), net_bits(n), host.full_bits());
    }
}

impl<T: ListNetwork> Default for IPTrie<T> {
    fn default() -> (r: Self)
        ensures
            r@ == Set::<T>::empty(),
            stored_ok(r@),
    {
        Self::new()
    }
}


// ---------------------------------------------------------------------------
// Ordering by prefix length, deduplication, building
// ---------------------------------------------------------------------------

/// The elements of `s` with prefix length `p`, in their order in `s`.
pub open spec fn layer<T: ListNetwork>(s: Seq<T>, p: nat) -> Seq<T>
    decreases s.len(),
{
    if s.len() == 0 {
        Seq::empty()
    } else {
        let rest = layer(s.drop_last(), p);
        if s.last().key().network_prefix == p {
            rest.push(s.last())
        } else {
            rest
        }
    }
}

/// The elements of `s` with prefix length below `n`: shortest prefixes
/// first, and in their order in `s` among equal prefix lengths.
pub open spec fn sorted_upto<T: ListNetwork>(s: Seq<T>, n: nat) -> Seq<T>
    decreases n,
{
    if n == 0 {
        Seq::empty()
    } else {
        sorted_upto(s, (n - 1) as nat) + layer(s, (n - 1) as nat)
    }
}

/// `s` sorted by prefix length, stably: the order of a stable sort by key.
pub open spec fn sorted_by_prefix<T: ListNetwork>(s: Seq<T>) -> Seq<T> {
    sorted_upto(s, 129)
}

/// Some earlier element of `s` covers element `i` (its path is a prefix of it).
pub open spec fn covered_before<T: ListNetwork>(s: Seq<T>, i: int) -> bool {
    exists|j: int| 0 <= j < i && net_bits(#[trigger] s[j]).is_prefix_of(net_bits(s[i]))
}

/// The elements of `s` that no earlier element covers, in order.
pub open spec fn first_cover<T: ListNetwork>(s: Seq<T>) -> Seq<T>
    decreases s.len(),
{
    if s.len() == 0 {
        Seq::empty()
    } else {
        let d = first_cover(s.drop_last());
        if covered_before(s, s.len() - 1) {
            d
        } else {
            d.push(s.last())
        }
    }
}

/// The result of `deduplicate`: after ordering by prefix length, the networks
/// that no network before them covers.
pub open spec fn spec_deduplicate<T: ListNetwork>(s: Seq<T>) -> Seq<T> {
    first_cover(sorted_by_prefix(s))
}

proof fn lemma_layer_props<T: ListNetwork>(s: Seq<T>, p: nat)
    ensures
        forall|i: int| 0 <= i < layer(s, p).len() ==> (#[trigger] layer(s, p)[i]).key().network_prefix == p,
        forall|i: int| 0 <= i < layer(s, p).len() ==> s.contains(#[trigger] layer(s, p)[i]),
        forall|k: int| 0 <= k < s.len() && (#[trigger] s[k]).key().network_prefix == p ==> layer(s, p).contains(s[k]),
    decreases s.len(),
{
    if s.len() > 0 {
        let t = s.drop_last();
        lemma_layer_props(t, p);
        assert forall|i: int| 0 <= i < layer(s, p).len() implies s.contains(#[trigger] layer(s, p)[i]) by {
            if i < layer(t, p).len() {
                let x = layer(t, p)[i];
                assert(layer(s, p)[i] == x);
                let k = choose|k: int| 0 <= k < t.len() && t[k] == x;
                assert(s[k] == x);
            } else {
                assert(s[s.len() - 1] == s.last());
            }
        }
        assert forall|k: int| 0 <= k < s.len() && (#[trigger] s[k]).key().network_prefix == p implies layer(s, p).contains(s[k]) by {
            if k < s.len() - 1 {
                assert(t[k] == s[k]);
                assert(layer(t, p).contains(s[k]));
                let i = choose|i: int| 0 <= i < layer(t, p).len() && layer(t, p)[i] == s[k];
                assert(layer(s, p)[i] == s[k]);
            } else {
                assert(layer(s, p)[layer(s, p).len() - 1] == s[k]);
            }
        }
    }
}

/// The sorted sequence is ordered by prefix length, holds only elements of
/// `s`, and holds every element of `s` whose prefix length is below `n`.
proof fn lemma_sorted_upto<T: ListNetwork>(s: Seq<T>, n: nat)
    ensures
        forall|i: int, j: int|
            0 <= i <= j < sorted_upto(s, n).len() ==> (#[trigger] sorted_upto(s, n)[i]).key().network_prefix
                <= (#[trigger] sorted_upto(s, n)[j]).key().network_prefix,
        forall|i: int| 0 <= i < sorted_upto(s, n).len() ==> (#[trigger] sorted_upto(s, n)[i]).key().network_prefix < n,
        forall|i: int| 0 <= i < sorted_upto(s, n).len() ==> s.contains(#[trigger] sorted_upto(s, n)[i]),
        forall|k: int| 0 <= k < s.len() && (#[trigger] s[k]).key().network_prefix < n ==> sorted_upto(s, n).contains(s[k]),
    decreases n,
{
    if n > 0 {
        let m = (n - 1) as nat;
        lemma_sorted_upto(s, m);
        lemma_layer_props(s, m);
        let a = sorted_upto(s, m);
        let l = layer(s, m);
        let all = sorted_upto(s, n);
        assert(all == a + l);
        assert forall|i: int| 0 <= i < all.len() implies s.contains(#[trigger] all[i]) && all[i].key().network_prefix < n by {
            if i < a.len() {
                assert(all[i] == a[i]);
            } else {
                assert(all[i] == l[i - a.len()]);
            }
        }
        assert forall|i: int, j: int|
            0 <= i <= j < all.len() implies (#[trigger] all[i]).key().network_prefix <= (#[trigger] all[j]).key().network_prefix by {
            if j < a.len() {
                assert(all[i] == a[i] && all[j] == a[j]);
            } else if i >= a.len() {
                assert(all[i] == l[i - a.len()] && all[j] == l[j - a.len()]);
            } else {
                assert(all[i] == a[i] && all[j] == l[j - a.len()]);
            }
        }
        assert forall|k: int| 0 <= k < s.len() && (#[trigger] s[k]).key().network_prefix < n implies all.contains(s[k]) by {
            if s[k].key().network_prefix < m {
                let i = choose|i: int| 0 <= i < a.len() && a[i] == s[k];
                assert(all[i] == s[k]);
            } else {
                assert(l.contains(s[k]));
                let i = choose|i: int| 0 <= i < l.len() && l[i] == s[k];
                assert(all[i + a.len()] == s[k]);
            }
        }
    }
}

/// Orders networks by prefix length, keeping the order of equal prefix lengths.
fn sort_by_prefix<T: ListNetwork>(ips: &Vec<T>) -> (r: Vec<T>)
    ensures
        r@ == sorted_by_prefix(ips@),
        forall|i: int| 0 <= i < ips@.len() ==> key_is_network((#[trigger] ips@[i]).key()),
{
    let mut out: Vec<T> = Vec::new();
    let mut p: u8 = 0;
    while p <= 128
        invariant
            p <= 129,
            out@ == sorted_upto(ips@, p as nat),
            p > 0 ==> forall|i: int| 0 <= i < ips@.len() ==> key_is_network((#[trigger] ips@[i]).key()),
        decreases 129 - p,
    {
        let mut i: usize = 0;
        while i < ips.len()
            invariant
                i <= ips@.len(),
                p <= 128,
                out@ == sorted_upto(ips@, p as nat) + layer(ips@.take(i as int), p as nat),
                forall|j: int| 0 <= j < i ==> key_is_network((#[trigger] ips@[j]).key()),
            decreases ips@.len() - i,
        {
            let q = ips[i].network_prefix();
            proof {
                assert(ips@.take(i + 1).drop_last() =~= ips@.take(i as int));
                assert(ips@.take(i + 1).last() == ips@[i as int]);
            }
            if q == p {
                out.push(ips[i].duplicate());
            }
            i = i + 1;
        }
        proof {
            assert(ips@.take(ips@.len() as int) =~= ips@);
        }
        p = p + 1;
    }
    out
}


/// The kept elements come from `s`, and every element of `s` is covered by a kept one.
proof fn lemma_first_cover<T: ListNetwork>(s: Seq<T>)
    ensures
        forall|i: int| 0 <= i < first_cover(s).len() ==> s.contains(#[trigger] first_cover(s)[i]),
        forall|k: int|
            0 <= k < s.len() ==> exists|i: int|
                0 <= i < first_cover(s).len() && net_bits(#[trigger] first_cover(s)[i]).is_prefix_of(net_bits(#[trigger] s[k])),
    decreases s.len(),
{
    if s.len() > 0 {
        let t = s.drop_last();
        let fc = first_cover(s);
        let ft = first_cover(t);
        lemma_first_cover(t);
        assert forall|i: int| 0 <= i < fc.len() implies s.contains(#[trigger] fc[i]) by {
            if i < ft.len() {
                assert(fc[i] == ft[i]);
                let k = choose|k: int| 0 <= k < t.len() && t[k] == ft[i];
                assert(s[k] == t[k]);
            } else {
                assert(fc[i] == s[s.len() - 1]);
            }
        }
        assert forall|k: int| 0 <= k < s.len() implies exists|i: int|
            0 <= i < fc.len() && net_bits(#[trigger] fc[i]).is_prefix_of(net_bits(#[trigger] s[k])) by {
            if k < s.len() - 1 {
                assert(s[k] == t[k]);
                let i = choose|i: int| 0 <= i < ft.len() && net_bits(#[trigger] ft[i]).is_prefix_of(net_bits(t[k]));
                assert(fc[i] == ft[i]);
            } else if covered_before(s, k) {
                let j = choose|j: int| 0 <= j < k && net_bits(#[trigger] s[j]).is_prefix_of(net_bits(s[k]));
                assert(s[j] == t[j]);
                let i = choose|i: int| 0 <= i < ft.len() && net_bits(#[trigger] ft[i]).is_prefix_of(net_bits(t[j]));
                assert(fc[i] == ft[i]);
                lemma_prefix_trans(net_bits(ft[i]), net_bits(s[j]), net_bits(s[k]));
            } else {
                assert(fc[ft.len() as int] == s[k]);
                assert(net_bits(s[k]).is_prefix_of(net_bits(s[k])));
            }
        }
    }
}

/// Some network of `st` covers `x`.
spec fn covered_by_set<T: ListNetwork>(st: Set<T>, x: T) -> bool {
    exists|v: T| #[trigger] st.contains(v) && net_bits(v).is_prefix_of(net_bits(x))
}

/// What holds after inserting the first `i` networks of the sorted list `s`.
#[verifier::opaque]
spec fn fill_inv<T: ListNetwork>(s: Seq<T>, i: int, stored: Set<T>, kept: Seq<T>) -> bool {
    &&& 0 <= i <= s.len()
    &&& kept == first_cover(s.take(i))
    &&& stored == kept.to_set()
    &&& forall|j: int| 0 <= j < i ==> #[trigger] covered_by_set(stored, s[j])
    &&& forall|v: T| #[trigger] stored.contains(v) ==> exists|j: int| 0 <= j < i && s[j] == v
}

#[verifier::opaque]
spec fn prefix_sorted<T: ListNetwork>(s: Seq<T>) -> bool {
    forall|a: int, b: int| 0 <= a <= b < s.len() ==> (#[trigger] s[a]).key().network_prefix <= (#[trigger] s[b]).key().network_prefix
}

proof fn lemma_fill_decision<T: ListNetwork>(s: Seq<T>, i: int, old_stored: Set<T>, inserted: bool)
    requires
        0 <= i < s.len(),
        forall|j: int| 0 <= j < i ==> #[trigger] covered_by_set(old_stored, s[j]),
        forall|v: T| #[trigger] old_stored.contains(v) ==> exists|j: int| 0 <= j < i && s[j] == v,
        inserted == !exists|v: T| #[trigger] old_stored.contains(v) && net_bits(v).is_prefix_of(net_bits(s[i])),
    ensures
        inserted == !covered_before(s, i),
        inserted == !covered_before(s.take(i + 1), i),
{
    let x = s[i];
    let t1 = s.take(i + 1);
    if covered_before(t1, i) {
        let j = choose|j: int| 0 <= j < i && net_bits(#[trigger] t1[j]).is_prefix_of(net_bits(t1[i]));
        assert(t1[j] == s[j]);
        assert(covered_before(s, i));
    }
    if covered_before(s, i) {
        let j = choose|j: int| 0 <= j < i && net_bits(#[trigger] s[j]).is_prefix_of(net_bits(s[i]));
        assert(t1[j] == s[j]);
        assert(covered_before(t1, i));
        assert(covered_by_set(old_stored, s[j]));
        let v = choose|v: T| #[trigger] old_stored.contains(v) && net_bits(v).is_prefix_of(net_bits(s[j]));
        lemma_prefix_trans(net_bits(v), net_bits(s[j]), net_bits(x));
    }
    if !inserted {
        let v = choose|v: T| #[trigger] old_stored.contains(v) && net_bits(v).is_prefix_of(net_bits(x));
        let j = choose|j: int| 0 <= j < i && s[j] == v;
        assert(covered_before(s, i));
    }
}

proof fn lemma_fill_no_drop<T: ListNetwork>(s: Seq<T>, i: int, old_stored: Set<T>)
    requires
        prefix_sorted(s),
        0 <= i < s.len(),
        forall|v: T| #[trigger] old_stored.contains(v) ==> exists|j: int| 0 <= j < i && s[j] == v,
        !exists|v: T| #[trigger] old_stored.contains(v) && net_bits(v).is_prefix_of(net_bits(s[i])),
    ensures
        old_stored.filter(|v: T| !net_bits(s[i]).is_prefix_of(net_bits(v))) == old_stored,
{
    reveal(prefix_sorted);
    let x = s[i];
    assert forall|v: T| #[trigger] old_stored.contains(v) implies !net_bits(x).is_prefix_of(net_bits(v)) by {
        let j = choose|j: int| 0 <= j < i && s[j] == v;
        assert(s[j].key().network_prefix <= s[i].key().network_prefix);
        if net_bits(x).is_prefix_of(net_bits(v)) {
            assert(net_bits(x) =~= net_bits(v));
            assert(net_bits(v).is_prefix_of(net_bits(x)));
        }
    }
    assert(old_stored.filter(|v: T| !net_bits(x).is_prefix_of(net_bits(v))) =~= old_stored);
}

proof fn lemma_fill_step<T: ListNetwork>(
    s: Seq<T>,
    i: int,
    old_stored: Set<T>,
    new_stored: Set<T>,
    inserted: bool,
    old_kept: Seq<T>,
    new_kept: Seq<T>,
)
    requires
        prefix_sorted(s),
        0 <= i < s.len(),
        fill_inv(s, i, old_stored, old_kept),
        inserted == !exists|v: T| #[trigger] old_stored.contains(v) && net_bits(v).is_prefix_of(net_bits(s[i])),
        inserted ==> new_stored == old_stored.filter(|v: T| !net_bits(s[i]).is_prefix_of(net_bits(v))).insert(s[i]),
        !inserted ==> new_stored == old_stored,
        new_kept == (if inserted { old_kept.push(s[i]) } else { old_kept }),
    ensures
        fill_inv(s, i + 1, new_stored, new_kept),
{
    reveal(fill_inv);
    let x = s[i];
    lemma_fill_decision(s, i, old_stored, inserted);
    let t1 = s.take(i + 1);
    assert(t1.drop_last() =~= s.take(i));
    assert(t1.last() == x);
    assert(new_kept == first_cover(t1));
    if inserted {
        lemma_fill_no_drop(s, i, old_stored);
        old_kept.lemma_push_to_set_commute(x);
    }
    assert(new_stored == new_kept.to_set());
    assert forall|j: int| 0 <= j < i + 1 implies #[trigger] covered_by_set(new_stored, s[j]) by {
        if j < i {
            assert(covered_by_set(old_stored, s[j]));
            let v = choose|v: T| #[trigger] old_stored.contains(v) && net_bits(v).is_prefix_of(net_bits(s[j]));
            assert(new_stored.contains(v));
        } else if inserted {
            assert(new_stored.contains(x));
            assert(net_bits(x).is_prefix_of(net_bits(x)));
        } else {
            let v = choose|v: T| #[trigger] old_stored.contains(v) && net_bits(v).is_prefix_of(net_bits(x));
        }
    }
    assert forall|v: T| #[trigger] new_stored.contains(v) implies exists|j: int| 0 <= j < i + 1 && s[j] == v by {
        if old_stored.contains(v) {
            let j = choose|j: int| 0 <= j < i && s[j] == v;
        } else {
            assert(v == x);
        }
    }
}

/// Inserts the networks of `ips`, shortest prefixes first, into a fresh trie;
/// returns the trie and the networks that were inserted, in order.
pub(crate) fn fill_trie<T: ListNetwork>(ips: &Vec<T>) -> (r: (IPTrie<T>, Vec<T>))
    ensures
        r.1@ == spec_deduplicate(ips@),
        r.0@ == r.1@.to_set(),
        stored_ok(r.0@),
        forall|i: int| 0 <= i < ips@.len() ==> key_is_network((#[trigger] ips@[i]).key()),
{
    let networks = sort_by_prefix(ips);
    let ghost s = networks@;
    proof {
        lemma_sorted_upto(ips@, 129);
        reveal(prefix_sorted);
        assert(s.take(0) =~= Seq::<T>::empty());
    }
    let mut trie: IPTrie<T> = IPTrie::new();
    let mut kept: Vec<T> = Vec::new();
    let mut i: usize = 0;
    proof {
        reveal(fill_inv);
        assert(kept@.to_set() =~= Set::<T>::empty());
    }
    while i < networks.len()
        invariant
            s == networks@,
            s == sorted_by_prefix(ips@),
            prefix_sorted(s),
            fill_inv(s, i as int, trie@, kept@),
            stored_ok(trie@),
        decreases s.len() - i,
    {
        let ghost old_trie = trie@;
        let ghost old_kept = kept@;
        let inserted = trie.insert(&networks[i]);
        if inserted {
            kept.push(networks[i].duplicate());
        }
        proof {
            lemma_fill_step(s, i as int, old_trie, trie@, inserted, old_kept, kept@);
        }
        i = i + 1;
    }
    proof {
        reveal(fill_inv);
        assert(s.take(s.len() as int) =~= s);
    }
    (trie, kept)
}

/// Deduplicates a collection of IP prefixes by using a prefix trie to organize
/// them, so that redundant, more specific subnets are removed: for example,
/// `192.168.0.0/16` absorbs `192.168.1.0/24`. Only networks are deduplicated,
/// not ranges.
pub fn deduplicate<T: ListNetwork>(ips: Vec<T>) -> (r: Vec<T>)
    ensures
        r@ == spec_deduplicate(ips@),
        forall|i: int| 0 <= i < ips@.len() ==> key_is_network((#[trigger] ips@[i]).key()),
{
    let (_, kept) = fill_trie(&ips);
    kept
}

/// Builds a trie from networks, inserting the broadest first. The trie holds
/// exactly the networks that `deduplicate` keeps.
pub fn build<T: ListNetwork>(ips: Vec<T>) -> (r: IPTrie<T>)
    ensures
        r@ == spec_deduplicate(ips@).to_set(),
        forall|i: int| 0 <= i < ips@.len() ==> key_is_network((#[trigger] ips@[i]).key()),
        stored_ok(r@),
{
    let (trie, _) = fill_trie(&ips);
    trie
}


/// In a list ordered by prefix length, the networks that no earlier one covers
/// do not lie within each other.
proof fn lemma_first_cover_disjoint<T: ListNetwork>(s: Seq<T>)
    requires
        prefix_sorted(s),
    ensures
        pairwise_disjoint(first_cover(s)),
    decreases s.len(),
{
    if s.len() > 0 {
        let t = s.drop_last();
        assert(prefix_sorted(t)) by {
            reveal(prefix_sorted);
        }
        lemma_first_cover_disjoint(t);
        lemma_first_cover(t);
        let ft = first_cover(t);
        let fc = first_cover(s);
        if !covered_before(s, s.len() - 1) {
            let x = s.last();
            assert forall|i: int| 0 <= i < ft.len() implies !net_bits(#[trigger] ft[i]).is_prefix_of(net_bits(x))
                && !net_bits(x).is_prefix_of(net_bits(ft[i])) by {
                let k = choose|k: int| 0 <= k < t.len() && t[k] == ft[i];
                assert(s[k] == t[k]);
                if net_bits(ft[i]).is_prefix_of(net_bits(x)) {
                    assert(covered_before(s, s.len() - 1));
                }
                if net_bits(x).is_prefix_of(net_bits(ft[i])) {
                    reveal(prefix_sorted);
                    assert(s[k].key().network_prefix <= s[s.len() - 1].key().network_prefix);
                    assert(net_bits(x) =~= net_bits(ft[i]));
                    assert(covered_before(s, s.len() - 1));
                }
            }
            assert forall|i: int, j: int|
                0 <= i < fc.len() && 0 <= j < fc.len() && i != j implies !net_bits(#[trigger] fc[i]).is_prefix_of(net_bits(#[trigger] fc[j])) by {
                if i < ft.len() && j < ft.len() {
                    assert(fc[i] == ft[i] && fc[j] == ft[j]);
                } else if i < ft.len() {
                    assert(fc[i] == ft[i] && fc[j] == x);
                } else {
                    assert(fc[j] == ft[j] && fc[i] == x);
                }
            }
        }
    }
}

/// Adding a network at the end of a list adds it to its own layer only.
proof fn lemma_layer_push<T: ListNetwork>(t: Seq<T>, x: T, p: nat)
    ensures
        layer(t.push(x), p) == (if x.key().network_prefix == p { layer(t, p).push(x) } else { layer(t, p) }),
{
    assert(t.push(x).drop_last() =~= t);
}

/// A layer that no network of the list has is empty.
proof fn lemma_layer_absent<T: ListNetwork>(t: Seq<T>, p: nat)
    requires
        forall|i: int| 0 <= i < t.len() ==> (#[trigger] t[i]).key().network_prefix != p,
    ensures
        layer(t, p) == Seq::<T>::empty(),
    decreases t.len(),
{
    if t.len() > 0 {
        let u = t.drop_last();
        assert forall|i: int| 0 <= i < u.len() implies (#[trigger] u[i]).key().network_prefix != p by {
            assert(u[i] == t[i]);
        }
        lemma_layer_absent(u, p);
        assert(t[t.len() - 1] == t.last());
    }
}

/// Sorting a list that ends in a network of the longest prefix so far puts
/// that network last.
proof fn lemma_sorted_upto_push<T: ListNetwork>(t: Seq<T>, x: T, n: nat)
    requires
        forall|i: int| 0 <= i < t.len() ==> (#[trigger] t[i]).key().network_prefix <= x.key().network_prefix,
    ensures
        sorted_upto(t.push(x), n) == (if n <= x.key().network_prefix { sorted_upto(t, n) } else { sorted_upto(t, n).push(x) }),
    decreases n,
{
    if n > 0 {
        let m = (n - 1) as nat;
        lemma_sorted_upto_push(t, x, m);
        lemma_layer_push(t, x, m);
        if m > x.key().network_prefix {
            lemma_layer_absent(t, m);
            assert(sorted_upto(t, n) =~= sorted_upto(t, m));
            assert(sorted_upto(t.push(x), n) =~= sorted_upto(t, m).push(x));
        } else if m == x.key().network_prefix {
            assert(sorted_upto(t.push(x), n) =~= sorted_upto(t, n).push(x));
        }
    }
}

/// Sorting a list already ordered by prefix length leaves it as it is.
proof fn lemma_sorted_identity<T: ListNetwork>(s: Seq<T>)
    requires
        prefix_sorted(s),
        forall|i: int| 0 <= i < s.len() ==> (#[trigger] s[i]).key().network_prefix < 129,
    ensures
        sorted_by_prefix(s) == s,
    decreases s.len(),
{
    if s.len() == 0 {
        lemma_sorted_upto(s, 129);
        let ss = sorted_by_prefix(s);
        if ss.len() > 0 {
            assert(s.contains(ss[0]));
        }
        assert(ss =~= s);
    } else {
        let t = s.drop_last();
        let x = s.last();
        assert(prefix_sorted(t)) by {
            reveal(prefix_sorted);
            assert forall|a: int, b: int| 0 <= a <= b < t.len() implies
                (#[trigger] t[a]).key().network_prefix <= (#[trigger] t[b]).key().network_prefix by {
                assert(t[a] == s[a] && t[b] == s[b]);
            }
        }
        assert forall|i: int| 0 <= i < t.len() implies (#[trigger] t[i]).key().network_prefix < 129 by {
            assert(t[i] == s[i]);
        }
        lemma_sorted_identity(t);
        assert forall|i: int| 0 <= i < t.len() implies (#[trigger] t[i]).key().network_prefix <= x.key().network_prefix by {
            reveal(prefix_sorted);
            assert(t[i] == s[i]);
            assert(s[s.len() - 1] == x);
        }
        assert(s =~= t.push(x));
        assert(x == s[s.len() - 1]);
        lemma_sorted_upto_push(t, x, 129);
    }
}

/// Keeping the uncovered networks of a list ordered by prefix length keeps it
/// ordered by prefix length.
proof fn lemma_first_cover_sorted<T: ListNetwork>(s: Seq<T>)
    requires
        prefix_sorted(s),
    ensures
        prefix_sorted(first_cover(s)),
    decreases s.len(),
{
    reveal(prefix_sorted);
    if s.len() > 0 {
        let t = s.drop_last();
        assert forall|a: int, b: int| 0 <= a <= b < t.len() implies
            (#[trigger] t[a]).key().network_prefix <= (#[trigger] t[b]).key().network_prefix by {
            assert(t[a] == s[a] && t[b] == s[b]);
        }
        lemma_first_cover_sorted(t);
        lemma_first_cover(t);
        let ft = first_cover(t);
        let fc = first_cover(s);
        if !covered_before(s, s.len() - 1) {
            assert forall|a: int, b: int| 0 <= a <= b < fc.len() implies
                (#[trigger] fc[a]).key().network_prefix <= (#[trigger] fc[b]).key().network_prefix by {
                if b < ft.len() {
                    assert(fc[a] == ft[a] && fc[b] == ft[b]);
                } else {
                    assert(fc[b] == s[s.len() - 1]);
                    if a < ft.len() {
                        assert(fc[a] == ft[a]);
                        let k = choose|k: int| 0 <= k < t.len() && t[k] == ft[a];
                        assert(s[k] == t[k]);
                    }
                }
            }
        }
    }
}

/// In a list where no network lies within another, no network is covered by
/// an earlier one: all are kept.
proof fn lemma_first_cover_disjoint_all<T: ListNetwork>(s: Seq<T>)
    requires
        pairwise_disjoint(s),
    ensures
        first_cover(s) == s,
    decreases s.len(),
{
    if s.len() > 0 {
        let t = s.drop_last();
        assert(pairwise_disjoint(t)) by {
            assert forall|i: int, j: int|
                0 <= i < t.len() && 0 <= j < t.len() && i != j implies !net_bits(#[trigger] t[i]).is_prefix_of(net_bits(#[trigger] t[j])) by {
                assert(t[i] == s[i] && t[j] == s[j]);
            }
        }
        lemma_first_cover_disjoint_all(t);
        assert(!covered_before(s, s.len() - 1));
        assert(s =~= t.push(s.last()));
    }
}

/// Every network of the input lies within a network that `deduplicate` keeps.
pub proof fn lemma_dedup_covers_inputs<T: ListNetwork>(s: Seq<T>)
    requires
        forall|i: int| 0 <= i < s.len() ==> key_is_network((#[trigger] s[i]).key()),
    ensures
        forall|k: int| 0 <= k < s.len() ==> exists|i: int|
            0 <= i < spec_deduplicate(s).len() && net_bits(#[trigger] spec_deduplicate(s)[i]).is_prefix_of(net_bits(#[trigger] s[k])),
{
    let ss = sorted_by_prefix(s);
    let d = spec_deduplicate(s);
    lemma_sorted_upto(s, 129);
    lemma_first_cover(ss);
    assert forall|k: int| 0 <= k < s.len() implies exists|i: int|
        0 <= i < d.len() && net_bits(#[trigger] d[i]).is_prefix_of(net_bits(#[trigger] s[k])) by {
        assert(s[k].key().network_prefix < 129);
        assert(ss.contains(s[k]));
        let k2 = choose|k2: int| 0 <= k2 < ss.len() && ss[k2] == s[k];
        let i = choose|i: int| 0 <= i < d.len() && net_bits(#[trigger] d[i]).is_prefix_of(net_bits(ss[k2]));
    }
}

/// Deduplicating what `deduplicate` kept keeps it all, in the same order.
proof fn lemma_dedup_idempotent<T: ListNetwork>(s: Seq<T>)
    requires
        forall|i: int| 0 <= i < s.len() ==> key_is_network((#[trigger] s[i]).key()),
    ensures
        spec_deduplicate(spec_deduplicate(s)) == spec_deduplicate(s),
{
    let ss = sorted_by_prefix(s);
    let d = spec_deduplicate(s);
    lemma_sorted_upto(s, 129);
    lemma_first_cover(ss);
    assert(prefix_sorted(ss)) by {
        reveal(prefix_sorted);
    }
    lemma_first_cover_disjoint(ss);
    lemma_first_cover_sorted(ss);
    assert forall|i: int| 0 <= i < d.len() implies (#[trigger] d[i]).key().network_prefix < 129 by {
        assert(ss.contains(d[i]));
        let k2 = choose|k2: int| 0 <= k2 < ss.len() && ss[k2] == d[i];
    }
    lemma_sorted_identity(d);
    lemma_first_cover_disjoint_all(d);
}

/// What `deduplicate` keeps: networks of the input, covering the same hosts,
/// none within another.
pub proof fn lemma_deduplicate_cover<T: ListNetwork>(s: Seq<T>)
    requires
        forall|i: int| 0 <= i < s.len() ==> key_is_network((#[trigger] s[i]).key()),
    ensures
        forall|i: int| 0 <= i < spec_deduplicate(s).len() ==> s.contains(#[trigger] spec_deduplicate(s)[i]),
        forall|h: Seq<bool>| #[trigger] seq_covers(spec_deduplicate(s), h) == seq_covers(s, h),
        pairwise_disjoint(spec_deduplicate(s)),
{
    let ss = sorted_by_prefix(s);
    let d = spec_deduplicate(s);
    lemma_sorted_upto(s, 129);
    lemma_first_cover(ss);
    assert(prefix_sorted(ss)) by {
        reveal(prefix_sorted);
    }
    lemma_first_cover_disjoint(ss);
    assert forall|i: int| 0 <= i < d.len() implies s.contains(#[trigger] d[i]) by {
        let k = choose|k: int| 0 <= k < ss.len() && ss[k] == d[i];
    }
    assert forall|h: Seq<bool>| #[trigger] seq_covers(d, h) == seq_covers(s, h) by {
        if seq_covers(s, h) {
            let k = choose|k: int| 0 <= k < s.len() && net_bits(#[trigger] s[k]).is_prefix_of(h);
            assert(s[k].key().network_prefix < 129);
            assert(ss.contains(s[k]));
            let k2 = choose|k2: int| 0 <= k2 < ss.len() && ss[k2] == s[k];
            let i = choose|i: int| 0 <= i < d.len() && net_bits(#[trigger] d[i]).is_prefix_of(net_bits(ss[k2]));
            lemma_prefix_trans(net_bits(d[i]), net_bits(s[k]), h);
        }
        if seq_covers(d, h) {
            let i = choose|i: int| 0 <= i < d.len() && net_bits(#[trigger] d[i]).is_prefix_of(h);
            let k = choose|k: int| 0 <= k < s.len() && s[k] == d[i];
        }
    }
}

/// Law of `deduplicate`: every kept network comes from the input, the kept
/// networks cover exactly the hosts that the input covers, no kept network
/// lies within another one, every network of the input lies within a kept
/// one, and deduplicating again changes nothing.
pub proof fn law_deduplicate<T: ListNetwork>(s: Seq<T>)
    requires
        forall|i: int| 0 <= i < s.len() ==> key_is_network((#[trigger] s[i]).key()),
    ensures
        forall|i: int| 0 <= i < spec_deduplicate(s).len() ==> s.contains(#[trigger] spec_deduplicate(s)[i]),
        forall|h: Seq<bool>| #[trigger] seq_covers(spec_deduplicate(s), h) == seq_covers(s, h),
        pairwise_disjoint(spec_deduplicate(s)),
        forall|k: int| 0 <= k < s.len() ==> exists|i: int|
            0 <= i < spec_deduplicate(s).len() && net_bits(#[trigger] spec_deduplicate(s)[i]).is_prefix_of(net_bits(#[trigger] s[k])),
        spec_deduplicate(spec_deduplicate(s)) == spec_deduplicate(s),
{
    lemma_deduplicate_cover(s);
    lemma_dedup_covers_inputs(s);
    lemma_dedup_idempotent(s);
}

/// Law of subtracting from a trie built from a list: when the list holds
/// networks of the family of `n` only, what `subtract` leaves of `n` covers
/// exactly the hosts of that family that `n` covers and no network of the
/// list covers.
pub proof fn law_subtract_from_list<T: Splitable>(bs: Seq<T>, n: T, rest: Seq<T>)
    requires
        forall|i: int| 0 <= i < bs.len() ==> key_is_network((#[trigger] bs[i]).key()),
        forall|i: int| 0 <= i < bs.len() ==> (#[trigger] bs[i]).key().addr.same_family(n.key().addr),
        remainder_of(rest, n, spec_deduplicate(bs).to_set()),
    ensures
        forall|h: Seq<bool>| h.len() == n.key().addr.width() ==>
            (#[trigger] seq_covers(rest, h) <==> (net_bits(n).is_prefix_of(h) && !seq_covers(bs, h))),
{
    let d = spec_deduplicate(bs);
    let st = d.to_set();
    lemma_deduplicate_cover(bs);
    assert forall|h: Seq<bool>| h.len() == n.key().addr.width() implies
        (#[trigger] seq_covers(rest, h) <==> (net_bits(n).is_prefix_of(h) && !seq_covers(bs, h))) by {
        if seq_covers(rest, h) {
            let i = choose|i: int| 0 <= i < rest.len() && net_bits(#[trigger] rest[i]).is_prefix_of(h);
            assert(piece_of(rest[i], n));
            lemma_prefix_trans(net_bits(n), net_bits(rest[i]), h);
        }
        if net_bits(n).is_prefix_of(h) {
            assert(seq_covers(d, h) == seq_covers(bs, h));
            if stored_covers(st, n.key().addr, h) {
                let v = choose|v: T| #[trigger] st.contains(v) && v.key().addr.same_family(n.key().addr) && net_bits(v).is_prefix_of(h);
                let i = choose|i: int| 0 <= i < d.len() && d[i] == v;
                assert(net_bits(d[i]).is_prefix_of(h));
            }
            if seq_covers(d, h) {
                let i = choose|i: int| 0 <= i < d.len() && net_bits(#[trigger] d[i]).is_prefix_of(h);
                assert(bs.contains(d[i]));
                let k = choose|k: int| 0 <= k < bs.len() && bs[k] == d[i];
                assert(st.contains(d[i]));
                assert(d[i].key().addr.same_family(n.key().addr));
            }
        }
    }
}

} // verus!
