use vstd::prelude::*;

use crate::error::AppError;
use crate::iptools::iptrie::{bit128, bit32, BitIp, TrieKey};
use crate::text::{dec_text, decimal, digit_char};
use vstd::arithmetic::power2::{lemma2_to64, lemma_pow2_pos, pow2};

verus! {

// ---------------------------------------------------------------------------
// Masks and bit facts
// ---------------------------------------------------------------------------

/// The netmask of a 32-bit network with prefix length `p`.
pub open spec fn mask32(p: u32) -> u32 {
    if p == 0 {
        0u32
    } else {
        0xffff_ffffu32 << ((32 - p) as u32)
    }
}

/// The netmask of a 128-bit network with prefix length `p`.
pub open spec fn mask128(p: u32) -> u128 {
    if p == 0 {
        0u128
    } else {
        0xffff_ffff_ffff_ffff_ffff_ffff_ffff_ffffu128 << ((128 - p) as u32)
    }
}

/// The address with bit `p` (from the most significant bit) set.
pub open spec fn set_bit(a: BitIp, p: u8) -> BitIp {
    match a {
        BitIp::Ipv4(x) => BitIp::Ipv4(x | (1u32 << ((31 - p) as u32))),
        BitIp::Ipv6(x) => BitIp::Ipv6(x | (1u128 << ((127 - p) as u32))),
    }
}

/// The address with all bits from position `p` on cleared.
pub open spec fn masked(a: BitIp, p: u8) -> BitIp {
    match a {
        BitIp::Ipv4(x) => BitIp::Ipv4(x & mask32(p as u32)),
        BitIp::Ipv6(x) => BitIp::Ipv6(x & mask128(p as u32)),
    }
}

/// A key whose address has no bits set after the prefix (a network address).
pub open spec fn key_is_network(k: TrieKey) -> bool {
    k.wf() && masked(k.addr, k.network_prefix) == k.addr
}

/// The key of one half of the network of key `k`: the lower half for `high == false`,
/// the upper half for `high == true`.
pub open spec fn half_key(k: TrieKey, high: bool) -> TrieKey {
    TrieKey {
        addr: if high { set_bit(k.addr, k.network_prefix) } else { k.addr },
        network_prefix: (k.network_prefix + 1) as u8,
    }
}

proof fn lemma_mask32_bit(x: u32, p: u32, i: u32)
    requires
        p <= 32,
        i < 32,
    ensures
        bit32(x & mask32(p), i) == (i < p && bit32(x, i)),
{
    assert(bit32(x & mask32(p), i) == (i < p && bit32(x, i))) by (bit_vector)
        requires
            p <= 32,
            i < 32,
    ;
}

proof fn lemma_mask128_bit(x: u128, p: u32, i: u32)
    requires
        p <= 128,
        i < 128,
    ensures
        bit128(x & mask128(p), i) == (i < p && bit128(x, i)),
{
    assert(bit128(x & mask128(p), i) == (i < p && bit128(x, i))) by (bit_vector)
        requires
            p <= 128,
            i < 128,
    ;
}

proof fn lemma_set_bit32(x: u32, p: u32, i: u32)
    requires
        p < 32,
        i < 32,
        x & mask32(p) == x,
    ensures
        bit32(x | (1u32 << ((31 - p) as u32)), i) == (if i == p { true } else { bit32(x, i) }),
        (x | (1u32 << ((31 - p) as u32))) & mask32((p + 1) as u32) == x | (1u32 << ((31 - p) as u32)),
        x & mask32((p + 1) as u32) == x,
{
    assert(bit32(x | (1u32 << ((31 - p) as u32)), i) == (if i == p { true } else { bit32(x, i) }))
        by (bit_vector)
        requires
            p < 32,
            i < 32,
            x & mask32(p) == x,
    ;
    assert((x | (1u32 << ((31 - p) as u32))) & mask32((p + 1) as u32) == x | (1u32 << ((31 - p) as u32))
        && x & mask32((p + 1) as u32) == x) by (bit_vector)
        requires
            p < 32,
            x & mask32(p) == x,
    ;
}

proof fn lemma_set_bit128(x: u128, p: u32, i: u32)
    requires
        p < 128,
        i < 128,
        x & mask128(p) == x,
    ensures
        bit128(x | (1u128 << ((127 - p) as u32)), i) == (if i == p { true } else { bit128(x, i) }),
        (x | (1u128 << ((127 - p) as u32))) & mask128((p + 1) as u32) == x | (1u128 << ((127 - p) as u32)),
        x & mask128((p + 1) as u32) == x,
{
    assert(bit128(x | (1u128 << ((127 - p) as u32)), i) == (if i == p { true } else { bit128(x, i) }))
        by (bit_vector)
        requires
            p < 128,
            i < 128,
            x & mask128(p) == x,
    ;
    assert((x | (1u128 << ((127 - p) as u32))) & mask128((p + 1) as u32) == x | (1u128 << ((127 - p) as u32))
        && x & mask128((p + 1) as u32) == x) by (bit_vector)
        requires
            p < 128,
            x & mask128(p) == x,
    ;
}

proof fn lemma_mask_idem32(x: u32, p: u32)
    requires
        p <= 32,
    ensures
        (x & mask32(p)) & mask32(p) == x & mask32(p),
{
    assert((x & mask32(p)) & mask32(p) == x & mask32(p)) by (bit_vector);
}

proof fn lemma_mask_idem128(x: u128, p: u32)
    requires
        p <= 128,
    ensures
        (x & mask128(p)) & mask128(p) == x & mask128(p),
{
    assert((x & mask128(p)) & mask128(p) == x & mask128(p)) by (bit_vector);
}

/// Masking an address at its prefix keeps the prefix bits: the path of a key
/// does not depend on the host bits.
pub proof fn lemma_masked_bits(k: TrieKey)
    requires
        k.wf(),
    ensures
        (TrieKey { addr: masked(k.addr, k.network_prefix), network_prefix: k.network_prefix }).bits()
            == k.bits(),
        key_is_network(TrieKey { addr: masked(k.addr, k.network_prefix), network_prefix: k.network_prefix }),
{
    let m = TrieKey { addr: masked(k.addr, k.network_prefix), network_prefix: k.network_prefix };
    assert forall|i: int| 0 <= i < k.network_prefix implies m.addr.bit_at(i) == k.addr.bit_at(i) by {
        match k.addr {
            BitIp::Ipv4(x) => lemma_mask32_bit(x, k.network_prefix as u32, i as u32),
            BitIp::Ipv6(x) => lemma_mask128_bit(x, k.network_prefix as u32, i as u32),
        }
    }
    assert(m.bits() =~= k.bits());
    match k.addr {
        BitIp::Ipv4(x) => lemma_mask_idem32(x, k.network_prefix as u32),
        BitIp::Ipv6(x) => lemma_mask_idem128(x, k.network_prefix as u32),
    }
}

/// The halves of a network: each extends the path of the network by one bit.
pub proof fn lemma_half_key(k: TrieKey, high: bool)
    requires
        key_is_network(k),
        k.network_prefix < k.addr.width(),
    ensures
        half_key(k, high).bits() == k.bits().push(high),
        key_is_network(half_key(k, high)),
        half_key(k, high).addr.same_family(k.addr),
        forall|i: int| 0 <= i < k.network_prefix ==> #[trigger] half_key(k, high).addr.bit_at(i) == k.addr.bit_at(i),
{
    let h = half_key(k, high);
    let p = k.network_prefix;
    assert forall|i: int| 0 <= i < h.addr.width() implies #[trigger] h.addr.bit_at(i) == (if i == p { high } else { k.addr.bit_at(i) }) by {
        match k.addr {
            BitIp::Ipv4(x) => {
                lemma_set_bit32(x, p as u32, i as u32);
                lemma_mask32_bit(x, p as u32, i as u32);
            }
            BitIp::Ipv6(x) => {
                lemma_set_bit128(x, p as u32, i as u32);
                lemma_mask128_bit(x, p as u32, i as u32);
            }
        }
    }
    assert(h.bits() =~= k.bits().push(high));
    match k.addr {
        BitIp::Ipv4(x) => lemma_set_bit32(x, p as u32, 0),
        BitIp::Ipv6(x) => lemma_set_bit128(x, p as u32, 0),
    }
}


proof fn lemma_agree_step32(x: u32, y: u32, i: u32)
    requires
        i < 32,
        i == 0 || (x >> ((32 - i) as u32)) == (y >> ((32 - i) as u32)),
        bit32(x, i) == bit32(y, i),
    ensures
        (x >> ((31 - i) as u32)) == (y >> ((31 - i) as u32)),
{
    assert((x >> ((31 - i) as u32)) == (y >> ((31 - i) as u32))) by (bit_vector)
        requires
            i < 32,
            i == 0 || (x >> ((32 - i) as u32)) == (y >> ((32 - i) as u32)),
            ((x >> ((31 - i) as u32)) & 1u32 == 1u32) == ((y >> ((31 - i) as u32)) & 1u32 == 1u32),
    ;
}

proof fn lemma_agree_step128(x: u128, y: u128, i: u32)
    requires
        i < 128,
        i == 0 || (x >> ((128 - i) as u32)) == (y >> ((128 - i) as u32)),
        bit128(x, i) == bit128(y, i),
    ensures
        (x >> ((127 - i) as u32)) == (y >> ((127 - i) as u32)),
{
    assert((x >> ((127 - i) as u32)) == (y >> ((127 - i) as u32))) by (bit_vector)
        requires
            i < 128,
            i == 0 || (x >> ((128 - i) as u32)) == (y >> ((128 - i) as u32)),
            ((x >> ((127 - i) as u32)) & 1u128 == 1u128) == ((y >> ((127 - i) as u32)) & 1u128 == 1u128),
    ;
}

proof fn lemma_agree_upto32(x: u32, y: u32, i: u32)
    requires
        i <= 32,
        forall|j: u32| j < 32 ==> #[trigger] bit32(x, j) == bit32(y, j),
    ensures
        i == 0 || (x >> ((32 - i) as u32)) == (y >> ((32 - i) as u32)),
    decreases i,
{
    if i > 0 {
        lemma_agree_upto32(x, y, (i - 1) as u32);
        lemma_agree_step32(x, y, (i - 1) as u32);
    }
}

/// Two 32-bit values with the same bits are equal.
proof fn lemma_bits_equal32(x: u32, y: u32)
    requires
        forall|i: u32| i < 32 ==> #[trigger] bit32(x, i) == bit32(y, i),
    ensures
        x == y,
{
    lemma_agree_upto32(x, y, 32);
    assert(x >> 0u32 == x && y >> 0u32 == y) by (bit_vector);
}

proof fn lemma_agree_upto128(x: u128, y: u128, i: u32)
    requires
        i <= 128,
        forall|j: u32| j < 128 ==> #[trigger] bit128(x, j) == bit128(y, j),
    ensures
        i == 0 || (x >> ((128 - i) as u32)) == (y >> ((128 - i) as u32)),
    decreases i,
{
    if i > 0 {
        lemma_agree_upto128(x, y, (i - 1) as u32);
        lemma_agree_step128(x, y, (i - 1) as u32);
    }
}

/// Two 128-bit values with the same bits are equal.
proof fn lemma_bits_equal128(x: u128, y: u128)
    requires
        forall|i: u32| i < 128 ==> #[trigger] bit128(x, i) == bit128(y, i),
    ensures
        x == y,
{
    lemma_agree_upto128(x, y, 128);
    assert(x >> 0u32 == x && y >> 0u32 == y) by (bit_vector);
}

/// A network key is determined by its family and its path.
pub proof fn lemma_key_from_bits(k1: TrieKey, k2: TrieKey)
    requires
        key_is_network(k1),
        key_is_network(k2),
        k1.addr.same_family(k2.addr),
        k1.bits() == k2.bits(),
    ensures
        k1 == k2,
{
    let p = k1.network_prefix;
    let b1 = k1.bits();
    let b2 = k2.bits();
    assert(b1.len() == k1.network_prefix as nat);
    assert(b2.len() == k2.network_prefix as nat);
    assert(k2.network_prefix == p);
    assert forall|i: int| 0 <= i < p implies k1.addr.bit_at(i) == k2.addr.bit_at(i) by {
        assert(b1[i] == k1.addr.bit_at(i));
        assert(b2[i] == k2.addr.bit_at(i));
    }
    match (k1.addr, k2.addr) {
        (BitIp::Ipv4(x), BitIp::Ipv4(y)) => {
            assert forall|i: u32| i < 32 implies #[trigger] bit32(x, i) == bit32(y, i) by {
                lemma_mask32_bit(x, p as u32, i);
                lemma_mask32_bit(y, p as u32, i);
                if (i as int) < (p as int) {
                    assert(k1.addr.bit_at(i as int) == k2.addr.bit_at(i as int));
                }
            }
            lemma_bits_equal32(x, y);
        },
        (BitIp::Ipv6(x), BitIp::Ipv6(y)) => {
            assert forall|i: u32| i < 128 implies #[trigger] bit128(x, i) == bit128(y, i) by {
                lemma_mask128_bit(x, p as u32, i);
                lemma_mask128_bit(y, p as u32, i);
                if (i as int) < (p as int) {
                    assert(k1.addr.bit_at(i as int) == k2.addr.bit_at(i as int));
                }
            }
            lemma_bits_equal128(x, y);
        },
        _ => {},
    }
}

// ---------------------------------------------------------------------------
// Text of addresses and networks
// ---------------------------------------------------------------------------

/// Dotted-decimal notation of an IPv4 address.
pub open spec fn ipv4_text(a: u32) -> Seq<char> {
    dec_text((a / 0x100_0000) as nat) + "."@ + dec_text(((a / 0x1_0000) % 256) as nat) + "."@
        + dec_text(((a / 0x100) % 256) as nat) + "."@ + dec_text((a % 256) as nat)
}

/// CIDR notation of an IPv4 network: the address as given, a slash, the prefix length.
pub open spec fn ipv4_net_text(a: u32, p: u8) -> Seq<char> {
    ipv4_text(a) + "/"@ + dec_text(p as nat)
}

/// CIDR notation of an IPv6 network: the address as std's `Ipv6Addr` writes
/// it, a slash, the prefix length.
pub open spec fn ipv6_net_text(addr: u128, prefix_len: u8) -> Seq<char> {
    ipv6_text(addr) + "/"@ + dec_text(prefix_len as nat)
}

/// Formats an IPv4 network with `ipnet::Ipv4Net`'s `Display`, which writes the
/// address in dotted-decimal notation, a slash and the prefix length.
#[verifier::external_body]
fn ipv4_net_to_string(addr: u32, prefix_len: u8) -> (r: String)
    requires
        prefix_len <= 32,
    ensures
        r@ == ipv4_net_text(addr, prefix_len),
{
    ipnet::Ipv4Net::new_assert(addr.into(), prefix_len).to_string()
}

/// Formats an IPv6 network with `ipnet::Ipv6Net`'s `Display`, which writes the
/// address with std's `Ipv6Addr` `Display`, a slash and the prefix length.
#[verifier::external_body]
fn ipv6_net_to_string(addr: u128, prefix_len: u8) -> (r: String)
    requires
        prefix_len <= 128,
    ensures
        r@ == ipv6_net_text(addr, prefix_len),
{
    ipnet::Ipv6Net::new_assert(addr.into(), prefix_len).to_string()
}

/// The text that std's `Ipv6Addr` `Display` writes for an IPv6 address.
pub uninterp spec fn ipv6_text(addr: u128) -> Seq<char>;

/// Formats an IPv6 address with std's `Ipv6Addr` `Display` (the RFC 5952
/// notation). The text is named, not stated.
#[verifier::external_body]
fn ipv6_to_string(addr: u128) -> (r: String)
    ensures
        r@ == ipv6_text(addr),
{
    core::net::Ipv6Addr::from(addr).to_string()
}

/// Dotted-decimal notation of an IPv4 address, as std's `Ipv4Addr` writes it.
fn ipv4_to_string(a: u32) -> (r: String)
    ensures
        r@ == ipv4_text(a),
{
    proof {
        reveal_strlit(".");
    }
    let b0 = decimal((a / 0x100_0000) as u64);
    let b1 = decimal(((a / 0x1_0000) % 256) as u64);
    let b2 = decimal(((a / 0x100) % 256) as u64);
    let b3 = decimal((a % 256) as u64);
    b0.concat(".").concat(b1.as_str()).concat(".").concat(b2.as_str()).concat(".").concat(b3.as_str())
}

// ---------------------------------------------------------------------------
// Parsing networks
// ---------------------------------------------------------------------------

pub open spec fn is_digit(c: char) -> bool {
    '0' <= c && c <= '9'
}

/// The value of a string of decimal digits.
pub open spec fn digits_value(s: Seq<char>) -> nat
    decreases s.len(),
{
    if s.len() == 0 {
        0
    } else {
        digits_value(s.drop_last()) * 10 + ((s.last() as int - '0' as int) as nat)
    }
}

/// A field of 1 to `max_digits` decimal digits whose value is below `upto`.
pub open spec fn dec_field(s: Seq<char>, max_digits: nat, upto: nat) -> bool {
    &&& 1 <= s.len() <= max_digits
    &&& forall|i: int| 0 <= i < s.len() ==> is_digit(#[trigger] s[i])
    &&& digits_value(s) < upto
}

/// `s` is `a.b.c.d/p` with four octets of at most three digits below 256 and
/// a prefix length of at most two digits below 33.
pub open spec fn ipv4_net_fields(
    s: Seq<char>,
    a: Seq<char>,
    b: Seq<char>,
    c: Seq<char>,
    d: Seq<char>,
    p: Seq<char>,
) -> bool {
    &&& s == a + "."@ + b + "."@ + c + "."@ + d + "/"@ + p
    &&& dec_field(a, 3, 256)
    &&& dec_field(b, 3, 256)
    &&& dec_field(c, 3, 256)
    &&& dec_field(d, 3, 256)
    &&& dec_field(p, 2, 33)
}

/// The IPv4 network (address, prefix length) written in `s`, if `s` is one.
pub open spec fn spec_parse_ipv4_net(s: Seq<char>) -> Option<(u32, u8)> {
    if exists|a: Seq<char>, b: Seq<char>, c: Seq<char>, d: Seq<char>, p: Seq<char>|
        ipv4_net_fields(s, a, b, c, d, p) {
        let (a, b, c, d, p) = choose|
            a: Seq<char>,
            b: Seq<char>,
            c: Seq<char>,
            d: Seq<char>,
            p: Seq<char>,
        |
            ipv4_net_fields(s, a, b, c, d, p);
        Some(
            (
                (digits_value(a) * 0x100_0000 + digits_value(b) * 0x1_0000 + digits_value(c) * 0x100
                    + digits_value(d)) as u32,
                digits_value(p) as u8,
            ),
        )
    } else {
        None
    }
}

/// The decimal text of `n` is made of digits and reads back as `n`.
proof fn lemma_dec_text(n: nat)
    ensures
        dec_text(n).len() >= 1,
        forall|i: int| 0 <= i < dec_text(n).len() ==> is_digit(#[trigger] dec_text(n)[i]),
        digits_value(dec_text(n)) == n,
        n < 100 ==> dec_text(n).len() <= 2,
        n < 1000 ==> dec_text(n).len() <= 3,
    decreases n,
{
    let t = dec_text(n);
    if n < 10 {
        assert(t == seq![digit_char(n)]);
        assert(t.drop_last() =~= Seq::<char>::empty());
        assert(t.last() == digit_char(n));
        assert(digits_value(t.drop_last()) == 0);
        assert(digit_char(n) as int - '0' as int == n) by {
            if n == 0 {} else if n == 1 {} else if n == 2 {} else if n == 3 {} else if n == 4 {}
            else if n == 5 {} else if n == 6 {} else if n == 7 {} else if n == 8 {} else {}
        }
    } else {
        lemma_dec_text(n / 10);
        let d = (n % 10) as nat;
        assert(t == dec_text(n / 10).push(digit_char(d)));
        assert(t.drop_last() =~= dec_text(n / 10));
        assert(digit_char(d) as int - '0' as int == d) by {
            if d == 0 {} else if d == 1 {} else if d == 2 {} else if d == 3 {} else if d == 4 {}
            else if d == 5 {} else if d == 6 {} else if d == 7 {} else if d == 8 {} else {}
        }
        assert forall|i: int| 0 <= i < t.len() implies is_digit(#[trigger] t[i]) by {
            if i < t.len() - 1 {
                assert(t[i] == dec_text(n / 10)[i]);
            } else {
                assert(t[i] == digit_char(d));
                assert(is_digit(digit_char(d))) by {
                    if d == 0 {} else if d == 1 {} else if d == 2 {} else if d == 3 {} else if d == 4 {}
                    else if d == 5 {} else if d == 6 {} else if d == 7 {} else if d == 8 {} else {}
                }
            }
        }
        assert(t.last() == digit_char(d));
        assert(digits_value(t) == digits_value(t.drop_last()) * 10 + ((t.last() as int - '0' as int) as nat));
        assert(n == (n / 10) * 10 + d);
    }
}

/// A field of digits before a separator that is no digit is where the
/// separator first occurs: two such splits of one text agree.
proof fn lemma_split_unique(x: Seq<char>, r: Seq<char>, x2: Seq<char>, r2: Seq<char>, sep: char)
    requires
        !is_digit(sep),
        forall|i: int| 0 <= i < x.len() ==> is_digit(#[trigger] x[i]),
        forall|i: int| 0 <= i < x2.len() ==> is_digit(#[trigger] x2[i]),
        x + seq![sep] + r == x2 + seq![sep] + r2,
    ensures
        x == x2,
        r == r2,
{
    let s = x + seq![sep] + r;
    if x.len() < x2.len() {
        assert(s[x.len() as int] == sep);
        assert((x2 + seq![sep] + r2)[x.len() as int] == x2[x.len() as int]);
    } else if x2.len() < x.len() {
        assert((x2 + seq![sep] + r2)[x2.len() as int] == sep);
        assert(s[x2.len() as int] == x[x2.len() as int]);
    }
    assert(x =~= s.subrange(0, x.len() as int));
    assert(x2 =~= (x2 + seq![sep] + r2).subrange(0, x2.len() as int));
    assert(r =~= s.skip(x.len() + 1int));
    assert(r2 =~= (x2 + seq![sep] + r2).skip(x2.len() + 1int));
}

/// The text of five fields and their separators, nested from the right.
proof fn lemma_reassoc(a: Seq<char>, b: Seq<char>, c: Seq<char>, d: Seq<char>, p: Seq<char>)
    ensures
        a + "."@ + b + "."@ + c + "."@ + d + "/"@ + p
            == a + seq!['.'] + (b + seq!['.'] + (c + seq!['.'] + (d + seq!['/'] + p))),
{
    reveal_strlit(".");
    reveal_strlit("/");
    assert(a + "."@ + b + "."@ + c + "."@ + d + "/"@ + p
        =~= a + seq!['.'] + (b + seq!['.'] + (c + seq!['.'] + (d + seq!['/'] + p))));
}

/// The fields of an IPv4 network text are the same however they are found.
proof fn lemma_fields_unique(
    s: Seq<char>,
    a: Seq<char>, b: Seq<char>, c: Seq<char>, d: Seq<char>, p: Seq<char>,
    a2: Seq<char>, b2: Seq<char>, c2: Seq<char>, d2: Seq<char>, p2: Seq<char>,
)
    requires
        ipv4_net_fields(s, a, b, c, d, p),
        ipv4_net_fields(s, a2, b2, c2, d2, p2),
    ensures
        a == a2 && b == b2 && c == c2 && d == d2 && p == p2,
{
    lemma_reassoc(a, b, c, d, p);
    lemma_reassoc(a2, b2, c2, d2, p2);
    let r3 = d + seq!['/'] + p;
    let q3 = d2 + seq!['/'] + p2;
    let r2 = c + seq!['.'] + r3;
    let q2 = c2 + seq!['.'] + q3;
    let r1 = b + seq!['.'] + r2;
    let q1 = b2 + seq!['.'] + q2;
    lemma_split_unique(a, r1, a2, q1, '.');
    lemma_split_unique(b, r2, b2, q2, '.');
    lemma_split_unique(c, r3, c2, q3, '.');
    lemma_split_unique(d, p, d2, p2, '/');
}

/// Law: the CIDR text of an IPv4 network reads back as the same network.
pub proof fn law_ipv4_text_roundtrip(a: u32, p: u8)
    requires
        p <= 32,
    ensures
        spec_parse_ipv4_net(ipv4_net_text(a, p)) == Some((a, p)),
{
    let o0 = (a / 0x100_0000) as nat;
    let o1 = ((a / 0x1_0000) % 256) as nat;
    let o2 = ((a / 0x100) % 256) as nat;
    let o3 = (a % 256) as nat;
    lemma_dec_text(o0);
    lemma_dec_text(o1);
    lemma_dec_text(o2);
    lemma_dec_text(o3);
    lemma_dec_text(p as nat);
    let (ta, tb, tc, td, tp) = (dec_text(o0), dec_text(o1), dec_text(o2), dec_text(o3), dec_text(p as nat));
    let s = ipv4_net_text(a, p);
    assert(o0 < 256) by {
        assert(a / 0x100_0000 < 256);
    }
    assert(s =~= ta + "."@ + tb + "."@ + tc + "."@ + td + "/"@ + tp);
    assert(ipv4_net_fields(s, ta, tb, tc, td, tp));
    let (a2, b2, c2, d2, p2) = choose|a2: Seq<char>, b2: Seq<char>, c2: Seq<char>, d2: Seq<char>, p2: Seq<char>|
        ipv4_net_fields(s, a2, b2, c2, d2, p2);
    lemma_fields_unique(s, ta, tb, tc, td, tp, a2, b2, c2, d2, p2);
    assert(o0 * 0x100_0000 + o1 * 0x1_0000 + o2 * 0x100 + o3 == a) by (nonlinear_arith)
        requires
            o0 == a / 0x100_0000,
            o1 == (a / 0x1_0000) % 256,
            o2 == (a / 0x100) % 256,
            o3 == a % 256,
    ;
}

/// The IPv6 network (address, prefix length) that `ipnet` reads from `s`, if any.
pub uninterp spec fn spec_parse_ipv6_net(s: Seq<char>) -> Option<(u128, u8)>;

/// Parses an IPv4 network with `ipnet::Ipv4Net`'s `FromStr`: four dotted decimal
/// octets of at most three digits each, a slash and a prefix length of at most two
/// digits, up to 32, with nothing before or after.
#[verifier::external_body]
fn parse_ipv4_net(s: &str) -> (r: Option<(u32, u8)>)
    ensures
        r == spec_parse_ipv4_net(s@),
{
    match s.parse::<ipnet::Ipv4Net>() {
        Ok(n) => Some((u32::from(n.addr()), n.prefix_len())),
        Err(_) => None,
    }
}

/// Parses an IPv6 network with `ipnet::Ipv6Net`'s `FromStr`. The result is named,
/// not stated; the source shows that the prefix length read is at most 128.
#[verifier::external_body]
fn parse_ipv6_net(s: &str) -> (r: Option<(u128, u8)>)
    ensures
        r == spec_parse_ipv6_net(s@),
        r matches Some((_, p)) ==> p <= 128,
{
    match s.parse::<ipnet::Ipv6Net>() {
        Ok(n) => Some((u128::from(n.addr()), n.prefix_len())),
        Err(_) => None,
    }
}

// ---------------------------------------------------------------------------
// Addresses and networks
// ---------------------------------------------------------------------------

/// A single IP address.
#[derive(Copy, Clone, Debug, PartialEq, Eq, Structural)]
pub enum IpAddr {
    V4(u32),
    V6(u128),
}

impl IpAddr {
    /// The key of the address taken as a single host (/32 or /128).
    pub open spec fn host_key(self) -> TrieKey {
        match self {
            IpAddr::V4(a) => TrieKey { addr: BitIp::Ipv4(a), network_prefix: 32 },
            IpAddr::V6(a) => TrieKey { addr: BitIp::Ipv6(a), network_prefix: 128 },
        }
    }

    /// Whether the address is an IPv4 one.
    pub fn is_ipv4(&self) -> (r: bool)
        ensures
            r == (*self is V4),
    {
        matches!(self, IpAddr::V4(_))
    }

    /// Whether the address is an IPv6 one.
    pub fn is_ipv6(&self) -> (r: bool)
        ensures
            r == (*self is V6),
    {
        matches!(self, IpAddr::V6(_))
    }
}

impl TrieKey {
    /// The key of a host address: its full address and the family's largest prefix.
    pub fn from_addr(addr: IpAddr) -> (r: TrieKey)
        ensures
            r == addr.host_key(),
    {
        match addr {
            IpAddr::V4(a) => TrieKey::new(BitIp::Ipv4(a), 32),
            IpAddr::V6(a) => TrieKey::new(BitIp::Ipv6(a), 128),
        }
    }
}

/// Error for a prefix length larger than the family allows.
#[derive(Copy, Clone, Debug, PartialEq, Eq, Structural)]
pub struct PrefixLenError;

/// An IPv4 network: an address and a prefix length of at most 32.
#[derive(Copy, Clone, Debug, PartialEq, Eq, Structural)]
pub struct Ipv4Net {
    addr: u32,
    prefix_len: u8,
}

/// An IPv6 network: an address and a prefix length of at most 128.
#[derive(Copy, Clone, Debug, PartialEq, Eq, Structural)]
pub struct Ipv6Net {
    addr: u128,
    prefix_len: u8,
}

/// An IPv4 or IPv6 network.
#[derive(Copy, Clone, Debug, PartialEq, Eq, Structural)]
pub enum IpNet {
    V4(Ipv4Net),
    V6(Ipv6Net),
}

impl Ipv4Net {
    #[verifier::type_invariant]
    spec fn inv(self) -> bool {
        self.prefix_len <= 32
    }

    pub closed spec fn spec_addr(self) -> u32 {
        self.addr
    }

    pub closed spec fn spec_prefix_len(self) -> u8 {
        self.prefix_len
    }

    /// The network address: the address with the host bits cleared.
    pub open spec fn spec_network(self) -> u32 {
        self.spec_addr() & mask32(self.spec_prefix_len() as u32)
    }

    /// The network of the given address and prefix length; a prefix length above 32 is refused.
    pub fn new(addr: u32, prefix_len: u8) -> (r: Result<Ipv4Net, PrefixLenError>)
        ensures
            r is Ok <==> prefix_len <= 32,
            r matches Ok(n) ==> n.spec_addr() == addr && n.spec_prefix_len() == prefix_len,
    {
        if prefix_len > 32 {
            return Err(PrefixLenError);
        }
        Ok(Ipv4Net { addr, prefix_len })
    }

    /// The address the network was written with.
    pub fn addr(&self) -> (r: u32)
        ensures
            r == self.spec_addr(),
    {
        self.addr
    }

    /// The prefix length.
    pub fn prefix_len(&self) -> (r: u8)
        ensures
            r == self.spec_prefix_len(),
            r <= 32,
    {
        proof {
            use_type_invariant(self);
        }
        self.prefix_len
    }

    /// The network address: the address with its host bits cleared.
    pub fn network(&self) -> (r: u32)
        ensures
            r == self.spec_network(),
    {
        proof {
            use_type_invariant(self);
        }
        if self.prefix_len == 0 {
            let a = self.addr;
            assert(a & 0u32 == 0u32) by (bit_vector);
            0
        } else {
            self.addr & (0xffff_ffffu32 << (32 - self.prefix_len as u32))
        }
    }

    /// The network written in `s`, if `s` is IPv4 CIDR text.
    pub closed spec fn spec_from_text(s: Seq<char>) -> Option<Ipv4Net> {
        match spec_parse_ipv4_net(s) {
            Some((a, p)) => if p <= 32 {
                Some(Ipv4Net { addr: a, prefix_len: p })
            } else {
                None
            },
            None => None,
        }
    }

    /// Parses CIDR text such as `192.168.0.0/24`.
    pub fn parse(s: &str) -> (r: Option<Ipv4Net>)
        ensures
            r == Self::spec_from_text(s@),
            r matches Some(n) ==> spec_parse_ipv4_net(s@) == Some((n.spec_addr(), n.spec_prefix_len())),
            r is None ==> spec_parse_ipv4_net(s@) is None,
    {
        match parse_ipv4_net(s) {
            Some((a, p)) => {
                if p > 32 {
                    None
                } else {
                    Some(Ipv4Net { addr: a, prefix_len: p })
                }
            },
            None => None,
        }
    }
}

impl Ipv6Net {
    #[verifier::type_invariant]
    spec fn inv(self) -> bool {
        self.prefix_len <= 128
    }

    pub closed spec fn spec_addr(self) -> u128 {
        self.addr
    }

    pub closed spec fn spec_prefix_len(self) -> u8 {
        self.prefix_len
    }

    pub open spec fn spec_network(self) -> u128 {
        self.spec_addr() & mask128(self.spec_prefix_len() as u32)
    }

    /// The network of the given address and prefix length; a prefix length above 128 is refused.
    pub fn new(addr: u128, prefix_len: u8) -> (r: Result<Ipv6Net, PrefixLenError>)
        ensures
            r is Ok <==> prefix_len <= 128,
            r matches Ok(n) ==> n.spec_addr() == addr && n.spec_prefix_len() == prefix_len,
    {
        if prefix_len > 128 {
            return Err(PrefixLenError);
        }
        Ok(Ipv6Net { addr, prefix_len })
    }

    /// The address the network was written with.
    pub fn addr(&self) -> (r: u128)
        ensures
            r == self.spec_addr(),
    {
        self.addr
    }

    /// The prefix length.
    pub fn prefix_len(&self) -> (r: u8)
        ensures
            r == self.spec_prefix_len(),
            r <= 128,
    {
        proof {
            use_type_invariant(self);
        }
        self.prefix_len
    }

    /// The network address: the address with its host bits cleared.
    pub fn network(&self) -> (r: u128)
        ensures
            r == self.spec_network(),
    {
        proof {
            use_type_invariant(self);
        }
        if self.prefix_len == 0 {
            let a = self.addr;
            assert(a & 0u128 == 0u128) by (bit_vector);
            0
        } else {
            self.addr & (0xffff_ffff_ffff_ffff_ffff_ffff_ffff_ffffu128 << (128 - self.prefix_len as u32))
        }
    }

    /// The network written in `s`, if `s` is IPv6 CIDR text.
    pub closed spec fn spec_from_text(s: Seq<char>) -> Option<Ipv6Net> {
        match spec_parse_ipv6_net(s) {
            Some((a, p)) => if p <= 128 {
                Some(Ipv6Net { addr: a, prefix_len: p })
            } else {
                None
            },
            None => None,
        }
    }

    /// Parses CIDR text such as `2001:db8::/32`.
    pub fn parse(s: &str) -> (r: Option<Ipv6Net>)
        ensures
            r == Self::spec_from_text(s@),
            r matches Some(n) ==> spec_parse_ipv6_net(s@) == Some((n.spec_addr(), n.spec_prefix_len())),
            r is None ==> spec_parse_ipv6_net(s@) is None,
    {
        match parse_ipv6_net(s) {
            Some((a, p)) => Some(Ipv6Net { addr: a, prefix_len: p }),
            None => None,
        }
    }
}

impl IpNet {
    /// The network written in `s`: IPv4 CIDR text, else IPv6 CIDR text.
    pub open spec fn spec_from_text(s: Seq<char>) -> Option<IpNet> {
        match Ipv4Net::spec_from_text(s) {
            Some(n) => Some(IpNet::V4(n)),
            None => match Ipv6Net::spec_from_text(s) {
                Some(n) => Some(IpNet::V6(n)),
                None => None,
            },
        }
    }

    /// Parses CIDR text of either family: IPv4 is tried first, then IPv6.
    pub fn parse(s: &str) -> (r: Option<IpNet>)
        ensures
            r == Self::spec_from_text(s@),
            r matches Some(IpNet::V4(n)) ==> spec_parse_ipv4_net(s@) == Some((n.spec_addr(), n.spec_prefix_len())),
            r matches Some(IpNet::V6(n)) ==> spec_parse_ipv4_net(s@) is None
                && spec_parse_ipv6_net(s@) == Some((n.spec_addr(), n.spec_prefix_len())),
            r is None ==> spec_parse_ipv4_net(s@) is None && spec_parse_ipv6_net(s@) is None,
    {
        match Ipv4Net::parse(s) {
            Some(n) => Some(IpNet::V4(n)),
            None => match Ipv6Net::parse(s) {
                Some(n) => Some(IpNet::V6(n)),
                None => None,
            },
        }
    }
}


// ---------------------------------------------------------------------------
// The network abstraction used by the trie and the lists
// ---------------------------------------------------------------------------

/// A value that stands for an IPv4 or IPv6 network.
pub trait ListNetwork: Sized {
    /// The trie key of the network: its network address and prefix length.
    spec fn key(&self) -> TrieKey;

    /// The address that the network was written with.
    spec fn spec_address(&self) -> IpAddr;

    /// Whether the address is the network address (no host bits set).
    spec fn spec_is_net(&self) -> bool;

    /// The CIDR text of the network.
    spec fn spec_text(&self) -> Seq<char>;

    fn address(&self) -> (r: IpAddr)
        ensures
            r == self.spec_address(),
    ;

    fn network_prefix(&self) -> (r: u8)
        ensures
            r == self.key().network_prefix,
            key_is_network(self.key()),
    ;

    fn trie_key(&self) -> (r: TrieKey)
        ensures
            r == self.key(),
            key_is_network(r),
    ;

    fn network_string(&self) -> (r: String)
        ensures
            r@ == self.spec_text(),
    ;

    fn is_net(&self) -> (r: bool)
        ensures
            r == self.spec_is_net(),
    ;

    fn is_ipv4(&self) -> (r: bool)
        ensures
            r == (self.key().addr is Ipv4),
    ;

    fn is_ipv6(&self) -> (r: bool)
        ensures
            r == (self.key().addr is Ipv6),
    ;

    /// A copy of the value.
    fn duplicate(&self) -> (r: Self)
        ensures
            r == *self,
    ;
}

/// A network that can be cut into its two halves.
pub trait Splitable: ListNetwork {
    /// The same value standing for the network of key `k` instead.
    spec fn rekey(&self, k: TrieKey) -> Self;

    /// Splits the network into its lower and upper half. Fails for a single host.
    fn split(&self) -> (r: Result<(Self, Self), AppError>)
        ensures
            r is Ok <==> self.key().network_prefix < self.key().addr.width(),
            r matches Ok((a, b)) ==> {
                &&& a.key() == half_key(self.key(), false)
                &&& b.key() == half_key(self.key(), true)
                &&& a == self.rekey(a.key())
                &&& b == self.rekey(b.key())
            },
    ;

    /// Rekeying twice is rekeying once to the last key.
    proof fn lemma_rekey_twice(&self, k1: TrieKey, k2: TrieKey)
        ensures
            self.rekey(k1).rekey(k2) == self.rekey(k2),
    ;
}

fn no_subnets() -> (r: AppError)
    ensures
        r is AddressManipulationError,
{
    AppError::AddressManipulationError(String::from_str("invalid IP prefix length"))
}

impl ListNetwork for IpAddr {
    open spec fn key(&self) -> TrieKey {
        self.host_key()
    }

    open spec fn spec_address(&self) -> IpAddr {
        *self
    }

    open spec fn spec_is_net(&self) -> bool {
        true
    }

    open spec fn spec_text(&self) -> Seq<char> {
        match self {
            IpAddr::V4(a) => ipv4_text(*a),
            IpAddr::V6(a) => ipv6_text(*a),
        }
    }

    fn address(&self) -> (r: IpAddr) {
        *self
    }

    fn network_prefix(&self) -> (r: u8) {
        proof {
            self.lemma_host_key_is_network();
        }
        match self {
            IpAddr::V4(_) => 32,
            IpAddr::V6(_) => 128,
        }
    }

    fn trie_key(&self) -> (r: TrieKey) {
        proof {
            self.lemma_host_key_is_network();
        }
        TrieKey::from_addr(*self)
    }

    fn network_string(&self) -> (r: String) {
        match self {
            IpAddr::V4(a) => ipv4_to_string(*a),
            IpAddr::V6(a) => ipv6_to_string(*a),
        }
    }

    fn is_net(&self) -> (r: bool) {
        true
    }

    fn is_ipv4(&self) -> (r: bool) {
        matches!(self, IpAddr::V4(_))
    }

    fn is_ipv6(&self) -> (r: bool) {
        matches!(self, IpAddr::V6(_))
    }

    fn duplicate(&self) -> (r: Self) {
        *self
    }
}

impl IpAddr {
    /// A host key is the key of a network: all its bits are prefix bits.
    pub proof fn lemma_host_key_is_network(self)
        ensures
            key_is_network(self.host_key()),
    {
        match self {
            IpAddr::V4(x) => {
                assert(x & (0xffff_ffffu32 << 0u32) == x) by (bit_vector);
            },
            IpAddr::V6(x) => {
                assert(x & (0xffff_ffff_ffff_ffff_ffff_ffff_ffff_ffffu128 << 0u32) == x) by (bit_vector);
            },
        }
    }
}

impl ListNetwork for Ipv4Net {
    open spec fn key(&self) -> TrieKey {
        TrieKey { addr: BitIp::Ipv4(self.spec_network()), network_prefix: self.spec_prefix_len() }
    }

    open spec fn spec_address(&self) -> IpAddr {
        IpAddr::V4(self.spec_addr())
    }

    open spec fn spec_is_net(&self) -> bool {
        self.spec_network() == self.spec_addr()
    }

    open spec fn spec_text(&self) -> Seq<char> {
        ipv4_net_text(self.spec_addr(), self.spec_prefix_len())
    }

    fn address(&self) -> (r: IpAddr) {
        IpAddr::V4(self.addr())
    }

    fn network_prefix(&self) -> (r: u8) {
        let p = self.prefix_len();
        proof {
            let k = TrieKey { addr: BitIp::Ipv4(self.spec_addr()), network_prefix: p };
            lemma_masked_bits(k);
        }
        p
    }

    fn trie_key(&self) -> (r: TrieKey) {
        let p = self.network_prefix();
        TrieKey::new(BitIp::Ipv4(self.network()), p)
    }

    fn network_string(&self) -> (r: String) {
        ipv4_net_to_string(self.addr(), self.prefix_len())
    }

    fn is_net(&self) -> (r: bool) {
        self.network() == self.addr()
    }

    fn is_ipv4(&self) -> (r: bool) {
        true
    }

    fn is_ipv6(&self) -> (r: bool) {
        false
    }

    fn duplicate(&self) -> (r: Self) {
        *self
    }
}

impl Splitable for Ipv4Net {
    closed spec fn rekey(&self, k: TrieKey) -> Self {
        match k.addr {
            BitIp::Ipv4(a) => Ipv4Net { addr: a, prefix_len: k.network_prefix },
            BitIp::Ipv6(a) => Ipv4Net { addr: a as u32, prefix_len: k.network_prefix },
        }
    }

    fn split(&self) -> (r: Result<(Self, Self), AppError>) {
        let p = self.network_prefix();
        if p >= 32 {
            return Err(no_subnets());
        }
        let net = self.network();
        let a = Ipv4Net { addr: net, prefix_len: p + 1 };
        let b = Ipv4Net { addr: net | (1u32 << (31 - p as u32)), prefix_len: p + 1 };
        proof {
            lemma_half_key(self.key(), false);
            lemma_half_key(self.key(), true);
        }
        Ok((a, b))
    }

    proof fn lemma_rekey_twice(&self, k1: TrieKey, k2: TrieKey) {
    }
}

impl ListNetwork for Ipv6Net {
    open spec fn key(&self) -> TrieKey {
        TrieKey { addr: BitIp::Ipv6(self.spec_network()), network_prefix: self.spec_prefix_len() }
    }

    open spec fn spec_address(&self) -> IpAddr {
        IpAddr::V6(self.spec_addr())
    }

    open spec fn spec_is_net(&self) -> bool {
        self.spec_network() == self.spec_addr()
    }

    open spec fn spec_text(&self) -> Seq<char> {
        ipv6_net_text(self.spec_addr(), self.spec_prefix_len())
    }

    fn address(&self) -> (r: IpAddr) {
        IpAddr::V6(self.addr())
    }

    fn network_prefix(&self) -> (r: u8) {
        let p = self.prefix_len();
        proof {
            let k = TrieKey { addr: BitIp::Ipv6(self.spec_addr()), network_prefix: p };
            lemma_masked_bits(k);
        }
        p
    }

    fn trie_key(&self) -> (r: TrieKey) {
        let p = self.network_prefix();
        TrieKey::new(BitIp::Ipv6(self.network()), p)
    }

    fn network_string(&self) -> (r: String) {
        ipv6_net_to_string(self.addr(), self.prefix_len())
    }

    fn is_net(&self) -> (r: bool) {
        self.network() == self.addr()
    }

    fn is_ipv4(&self) -> (r: bool) {
        false
    }

    fn is_ipv6(&self) -> (r: bool) {
        true
    }

    fn duplicate(&self) -> (r: Self) {
        *self
    }
}

impl Splitable for Ipv6Net {
    closed spec fn rekey(&self, k: TrieKey) -> Self {
        match k.addr {
            BitIp::Ipv4(a) => Ipv6Net { addr: a as u128, prefix_len: k.network_prefix },
            BitIp::Ipv6(a) => Ipv6Net { addr: a, prefix_len: k.network_prefix },
        }
    }

    fn split(&self) -> (r: Result<(Self, Self), AppError>) {
        let p = self.network_prefix();
        if p >= 128 {
            return Err(no_subnets());
        }
        let net = self.network();
        let a = Ipv6Net { addr: net, prefix_len: p + 1 };
        let b = Ipv6Net { addr: net | (1u128 << (127 - p as u32)), prefix_len: p + 1 };
        proof {
            lemma_half_key(self.key(), false);
            lemma_half_key(self.key(), true);
        }
        Ok((a, b))
    }

    proof fn lemma_rekey_twice(&self, k1: TrieKey, k2: TrieKey) {
    }
}

impl ListNetwork for IpNet {
    open spec fn key(&self) -> TrieKey {
        match self {
            IpNet::V4(n) => n.key(),
            IpNet::V6(n) => n.key(),
        }
    }

    open spec fn spec_address(&self) -> IpAddr {
        match self {
            IpNet::V4(n) => n.spec_address(),
            IpNet::V6(n) => n.spec_address(),
        }
    }

    open spec fn spec_is_net(&self) -> bool {
        match self {
            IpNet::V4(n) => n.spec_is_net(),
            IpNet::V6(n) => n.spec_is_net(),
        }
    }

    open spec fn spec_text(&self) -> Seq<char> {
        match self {
            IpNet::V4(n) => n.spec_text(),
            IpNet::V6(n) => n.spec_text(),
        }
    }

    fn address(&self) -> (r: IpAddr) {
        match self {
            IpNet::V4(n) => n.address(),
            IpNet::V6(n) => n.address(),
        }
    }

    fn network_prefix(&self) -> (r: u8) {
        match self {
            IpNet::V4(n) => n.network_prefix(),
            IpNet::V6(n) => n.network_prefix(),
        }
    }

    fn trie_key(&self) -> (r: TrieKey) {
        match self {
            IpNet::V4(n) => n.trie_key(),
            IpNet::V6(n) => n.trie_key(),
        }
    }

    fn network_string(&self) -> (r: String) {
        match self {
            IpNet::V4(n) => n.network_string(),
            IpNet::V6(n) => n.network_string(),
        }
    }

    fn is_net(&self) -> (r: bool) {
        match self {
            IpNet::V4(n) => n.is_net(),
            IpNet::V6(n) => n.is_net(),
        }
    }

    fn is_ipv4(&self) -> (r: bool) {
        match self {
            IpNet::V4(_) => true,
            IpNet::V6(_) => false,
        }
    }

    fn is_ipv6(&self) -> (r: bool) {
        match self {
            IpNet::V4(_) => false,
            IpNet::V6(_) => true,
        }
    }

    fn duplicate(&self) -> (r: Self) {
        *self
    }
}

impl Splitable for IpNet {
    open spec fn rekey(&self, k: TrieKey) -> Self {
        match k.addr {
            BitIp::Ipv4(_) => IpNet::V4(Ipv4Net::default_net().rekey(k)),
            BitIp::Ipv6(_) => IpNet::V6(Ipv6Net::default_net().rekey(k)),
        }
    }

    fn split(&self) -> (r: Result<(Self, Self), AppError>) {
        match self {
            IpNet::V4(net) => {
                let (a, b) = net.split()?;
                proof {
                    Ipv4Net::lemma_rekey_any(*net, a.key());
                    Ipv4Net::lemma_rekey_any(*net, b.key());
                }
                Ok((IpNet::V4(a), IpNet::V4(b)))
            },
            IpNet::V6(net) => {
                let (a, b) = net.split()?;
                proof {
                    Ipv6Net::lemma_rekey_any(*net, a.key());
                    Ipv6Net::lemma_rekey_any(*net, b.key());
                }
                Ok((IpNet::V6(a), IpNet::V6(b)))
            },
        }
    }

    proof fn lemma_rekey_twice(&self, k1: TrieKey, k2: TrieKey) {
    }
}

impl Ipv4Net {
    pub closed spec fn default_net() -> Ipv4Net {
        Ipv4Net { addr: 0, prefix_len: 0 }
    }

    /// Rekeying forgets the network it started from.
    pub proof fn lemma_rekey_any(a: Ipv4Net, k: TrieKey)
        ensures
            a.rekey(k) == Self::default_net().rekey(k),
    {
    }
}

impl Ipv6Net {
    pub closed spec fn default_net() -> Ipv6Net {
        Ipv6Net { addr: 0, prefix_len: 0 }
    }

    /// Rekeying forgets the network it started from.
    pub proof fn lemma_rekey_any(a: Ipv6Net, k: TrieKey)
        ensures
            a.rekey(k) == Self::default_net().rekey(k),
    {
    }
}


// ---------------------------------------------------------------------------
// Ranges of addresses as networks
// ---------------------------------------------------------------------------

/// A block of `2^(width - p)` addresses that starts at `start` is aligned on
/// its size and ends at `end` or before.
pub open spec fn block_fits(start: int, end: int, width: nat, p: nat) -> bool {
    &&& p <= width
    &&& start % (pow2((width - p) as nat) as int) == 0
    &&& start + pow2((width - p) as nat) <= end + 1
}

/// The shortest prefix length, from `p` on, whose block at `start` fits.
pub open spec fn shortest_fit(start: int, end: int, width: nat, p: nat) -> nat
    decreases width - p,
{
    if p >= width || block_fits(start, end, width, p) {
        p
    } else {
        shortest_fit(start, end, width, p + 1)
    }
}

/// Some prefix length up to `width` fits, the full width at the latest.
pub proof fn lemma_shortest_fit(start: int, end: int, width: nat, p: nat)
    requires
        start <= end,
        p <= width,
    ensures
        p <= shortest_fit(start, end, width, p) <= width,
        block_fits(start, end, width, shortest_fit(start, end, width, p)),
    decreases width - p,
{
    lemma2_to64();
    if p < width && !block_fits(start, end, width, p) {
        lemma_shortest_fit(start, end, width, p + 1);
    }
}

/// The addresses `start..=end` as networks, from the lowest address up: at
/// each step the largest block that is aligned on its size and does not
/// reach past `end`, as (network address, prefix length).
pub open spec fn aligned_blocks(start: int, end: int, width: nat) -> Seq<(int, nat)>
    decreases end + 1 - start,
{
    if start > end {
        Seq::empty()
    } else {
        let p = shortest_fit(start, end, width, 0);
        proof {
            lemma_shortest_fit(start, end, width, 0);
            lemma_pow2_pos((width - p) as nat);
        }
        seq![(start, p)] + aligned_blocks(start + pow2((width - p) as nat), end, width)
    }
}

/// `s` lists the blocks `b`, in order.
pub open spec fn lists_blocks_v4(s: Seq<(u32, u8)>, b: Seq<(int, nat)>) -> bool {
    &&& s.len() == b.len()
    &&& forall|i: int| 0 <= i < s.len() ==> (#[trigger] s[i]).0 == b[i].0 && s[i].1 == b[i].1
}

/// `s` lists the blocks `b`, in order.
pub open spec fn lists_blocks_v6(s: Seq<(u128, u8)>, b: Seq<(int, nat)>) -> bool {
    &&& s.len() == b.len()
    &&& forall|i: int| 0 <= i < s.len() ==> (#[trigger] s[i]).0 == b[i].0 && s[i].1 == b[i].1
}

/// ipnet's `Ipv4Subnets::new(start, end, 0)`, walked to the end. Each step it
/// yields the network at the current start whose prefix length is the larger
/// of what the alignment of the start and the size of what is left allow,
/// then moves past it: the aligned blocks of `start..=end`, each with a
/// prefix length of at most 32, as an `Ipv4Net` has.
#[verifier::external_body]
fn subnets_v4(start: u32, end: u32) -> (r: Vec<(u32, u8)>)
    ensures
        lists_blocks_v4(r@, aligned_blocks(start as int, end as int, 32)),
        forall|i: int| 0 <= i < r@.len() ==> (#[trigger] r@[i]).1 <= 32,
{
    let mut v = Vec::new();
    for n in ipnet::Ipv4Subnets::new(start.into(), end.into(), 0) {
        v.push((u32::from(n.addr()), n.prefix_len()));
    }
    v
}

/// ipnet's `Ipv6Subnets::new(start, end, 0)`, walked to the end: the aligned
/// blocks of `start..=end`, as for IPv4, each with a prefix length of at most
/// 128, as an `Ipv6Net` has.
#[verifier::external_body]
fn subnets_v6(start: u128, end: u128) -> (r: Vec<(u128, u8)>)
    ensures
        lists_blocks_v6(r@, aligned_blocks(start as int, end as int, 128)),
        forall|i: int| 0 <= i < r@.len() ==> (#[trigger] r@[i]).1 <= 128,
{
    let mut v = Vec::new();
    for n in ipnet::Ipv6Subnets::new(start.into(), end.into(), 0) {
        v.push((u128::from(n.addr()), n.prefix_len()));
    }
    v
}

/// `r` holds the IPv4 networks of the blocks `b`, in order.
pub open spec fn nets_of_v4(r: Seq<IpNet>, b: Seq<(int, nat)>) -> bool {
    &&& r.len() == b.len()
    &&& forall|i: int| 0 <= i < r.len() ==> (#[trigger] r[i] matches IpNet::V4(n)
        && n.spec_addr() == b[i].0 && n.spec_prefix_len() == b[i].1)
}

/// `r` holds the IPv6 networks of the blocks `b`, in order.
pub open spec fn nets_of_v6(r: Seq<IpNet>, b: Seq<(int, nat)>) -> bool {
    &&& r.len() == b.len()
    &&& forall|i: int| 0 <= i < r.len() ==> (#[trigger] r[i] matches IpNet::V6(n)
        && n.spec_addr() == b[i].0 && n.spec_prefix_len() == b[i].1)
}

/// The networks that cover the addresses from `start` to `end`, as ipnet
/// lists them; none when the two addresses are of different families.
pub fn summarize_ranges(start: IpAddr, end: IpAddr) -> (r: Vec<IpNet>)
    ensures
        match (start, end) {
            (IpAddr::V4(a), IpAddr::V4(b)) => nets_of_v4(r@, aligned_blocks(a as int, b as int, 32)),
            (IpAddr::V6(a), IpAddr::V6(b)) => nets_of_v6(r@, aligned_blocks(a as int, b as int, 128)),
            _ => r@.len() == 0,
        },
{
    let mut out: Vec<IpNet> = Vec::new();
    match (start, end) {
        (IpAddr::V4(a), IpAddr::V4(b)) => {
            let nets = subnets_v4(a, b);
            let ghost bl = aligned_blocks(a as int, b as int, 32);
            let mut i: usize = 0;
            while i < nets.len()
                invariant
                    i <= nets@.len(),
                    forall|k: int| 0 <= k < nets@.len() ==> (#[trigger] nets@[k]).1 <= 32,
                    lists_blocks_v4(nets@, bl),
                    nets_of_v4(out@, bl.take(i as int)),
                decreases nets@.len() - i,
            {
                let (addr, p) = nets[i];
                match Ipv4Net::new(addr, p) {
                    Ok(n) => out.push(IpNet::V4(n)),
                    Err(_) => {},
                }
                proof {
                    assert forall|k: int| 0 <= k < out@.len() implies (#[trigger] out@[k] matches IpNet::V4(n)
                        && n.spec_addr() == bl.take(i + 1)[k].0 && n.spec_prefix_len() == bl.take(i + 1)[k].1) by {
                        if k < i {
                            assert(bl.take(i + 1)[k] == bl.take(i as int)[k]);
                        } else {
                            assert(nets@[k] == nets@[i as int]);
                            assert(bl.take(i + 1)[k] == bl[k]);
                        }
                    }
                }
                i = i + 1;
            }
            proof {
                assert(bl.take(bl.len() as int) =~= bl);
            }
        },
        (IpAddr::V6(a), IpAddr::V6(b)) => {
            let nets = subnets_v6(a, b);
            let ghost bl = aligned_blocks(a as int, b as int, 128);
            let mut i: usize = 0;
            while i < nets.len()
                invariant
                    i <= nets@.len(),
                    forall|k: int| 0 <= k < nets@.len() ==> (#[trigger] nets@[k]).1 <= 128,
                    lists_blocks_v6(nets@, bl),
                    nets_of_v6(out@, bl.take(i as int)),
                decreases nets@.len() - i,
            {
                let (addr, p) = nets[i];
                match Ipv6Net::new(addr, p) {
                    Ok(n) => out.push(IpNet::V6(n)),
                    Err(_) => {},
                }
                proof {
                    assert forall|k: int| 0 <= k < out@.len() implies (#[trigger] out@[k] matches IpNet::V6(n)
                        && n.spec_addr() == bl.take(i + 1)[k].0 && n.spec_prefix_len() == bl.take(i + 1)[k].1) by {
                        if k < i {
                            assert(bl.take(i + 1)[k] == bl.take(i as int)[k]);
                        } else {
                            assert(nets@[k] == nets@[i as int]);
                            assert(bl.take(i + 1)[k] == bl[k]);
                        }
                    }
                }
                i = i + 1;
            }
            proof {
                assert(bl.take(bl.len() as int) =~= bl);
            }
        },
        _ => {},
    }
    out
}

} // verus!
