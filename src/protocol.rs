//! The matchmaker's wire protocol: peer addresses, packets, and their binary layout.
//!
//! Every integer is little-endian. A variant tag is a `u32`, a byte buffer or a string is a `u64`
//! length followed by its bytes (UTF-8 for strings), an optional value is one byte (`0` for none,
//! `1` for some) followed by the value. IP octets are written in network order.
use vstd::prelude::*;
use vstd::string::StringSliceAdditionalSpecFns;
use vstd::utf8::*;

verus! {

/// An IP address, version 4 or 6.
#[derive(Clone, Copy, Debug, PartialEq, Eq, Structural)]
pub enum IpAddress {
    /// The four octets, most significant first.
    V4(u8, u8, u8, u8),
    /// The eight 16-bit segments, most significant first.
    V6(u16, u16, u16, u16, u16, u16, u16, u16),
}

/// A peer's socket address: an IP address and a port.
#[derive(Clone, Copy, Debug, PartialEq, Eq, Structural)]
pub struct Address {
    pub ip: IpAddress,
    pub port: u16,
}

// ---------------------------------------------------------------------------------------------
// Integers

pub open spec fn u16_le(n: u16) -> Seq<u8> {
    seq![(n & 0xff) as u8, ((n >> 8u16) & 0xff) as u8]
}

pub open spec fn u16_be(n: u16) -> Seq<u8> {
    seq![((n >> 8u16) & 0xff) as u8, (n & 0xff) as u8]
}

pub open spec fn u32_le(n: u32) -> Seq<u8> {
    seq![
        (n & 0xff) as u8,
        ((n >> 8u32) & 0xff) as u8,
        ((n >> 16u32) & 0xff) as u8,
        ((n >> 24u32) & 0xff) as u8,
    ]
}

pub open spec fn u64_le(n: u64) -> Seq<u8> {
    seq![
        (n & 0xff) as u8,
        ((n >> 8u64) & 0xff) as u8,
        ((n >> 16u64) & 0xff) as u8,
        ((n >> 24u64) & 0xff) as u8,
        ((n >> 32u64) & 0xff) as u8,
        ((n >> 40u64) & 0xff) as u8,
        ((n >> 48u64) & 0xff) as u8,
        ((n >> 56u64) & 0xff) as u8,
    ]
}

pub open spec fn u16_from(b0: u8, b1: u8) -> u16 {
    (b0 as u16) | ((b1 as u16) << 8u16)
}

pub open spec fn u32_from(b0: u8, b1: u8, b2: u8, b3: u8) -> u32 {
    (b0 as u32) | ((b1 as u32) << 8u32) | ((b2 as u32) << 16u32) | ((b3 as u32) << 24u32)
}

pub open spec fn u64_from(s: Seq<u8>) -> u64 {
    (s[0] as u64) | ((s[1] as u64) << 8u64) | ((s[2] as u64) << 16u64) | ((s[3] as u64) << 24u64)
        | ((s[4] as u64) << 32u64) | ((s[5] as u64) << 40u64) | ((s[6] as u64) << 48u64) | ((
    s[7] as u64) << 56u64)
}

proof fn lemma_u16(n: u16)
    ensures
        u16_from((n & 0xff) as u8, ((n >> 8u16) & 0xff) as u8) == n,
{
    assert((((n & 0xff) as u8) as u16) | (((((n >> 8u16) & 0xff) as u8) as u16) << 8u16) == n)
        by (bit_vector);
}

proof fn lemma_u16_bytes(b0: u8, b1: u8)
    ensures
        u16_le(u16_from(b0, b1)) == seq![b0, b1],
        u16_be(u16_from(b1, b0)) == seq![b0, b1],
{
    let n = u16_from(b0, b1);
    assert(((((b0 as u16) | ((b1 as u16) << 8u16)) & 0xff) as u8) == b0) by (bit_vector);
    assert(((((((b0 as u16) | ((b1 as u16) << 8u16)) >> 8u16) & 0xff) as u8) == b1))
        by (bit_vector);
    assert(((((b1 as u16) | ((b0 as u16) << 8u16)) & 0xff) as u8) == b1) by (bit_vector);
    assert(((((((b1 as u16) | ((b0 as u16) << 8u16)) >> 8u16) & 0xff) as u8) == b0))
        by (bit_vector);
    assert(u16_le(n) =~= seq![b0, b1]);
    assert(u16_be(u16_from(b1, b0)) =~= seq![b0, b1]);
}

proof fn lemma_u32(n: u32)
    ensures
        u32_from(u32_le(n)[0], u32_le(n)[1], u32_le(n)[2], u32_le(n)[3]) == n,
{
    assert((((n & 0xff) as u8) as u32) | (((((n >> 8u32) & 0xff) as u8) as u32) << 8u32) | ((((
    (n >> 16u32) & 0xff) as u8) as u32) << 16u32) | (((((n >> 24u32) & 0xff) as u8) as u32)
        << 24u32) == n) by (bit_vector);
}

proof fn lemma_u64(n: u64)
    ensures
        u64_from(u64_le(n)) == n,
{
    assert((((n & 0xff) as u8) as u64) | (((((n >> 8u64) & 0xff) as u8) as u64) << 8u64) | ((((
    (n >> 16u64) & 0xff) as u8) as u64) << 16u64) | (((((n >> 24u64) & 0xff) as u8) as u64)
        << 24u64) | (((((n >> 32u64) & 0xff) as u8) as u64) << 32u64) | (((((n >> 40u64) & 0xff)
        as u8) as u64) << 40u64) | (((((n >> 48u64) & 0xff) as u8) as u64) << 48u64) | (((((n
        >> 56u64) & 0xff) as u8) as u64) << 56u64) == n) by (bit_vector);
}

proof fn lemma_u32_bytes(b0: u8, b1: u8, b2: u8, b3: u8)
    ensures
        u32_le(u32_from(b0, b1, b2, b3)) == seq![b0, b1, b2, b3],
{
    let n = u32_from(b0, b1, b2, b3);
    assert((((b0 as u32) | ((b1 as u32) << 8u32) | ((b2 as u32) << 16u32) | ((b3 as u32)
        << 24u32)) & 0xff) as u8 == b0) by (bit_vector);
    assert(((((b0 as u32) | ((b1 as u32) << 8u32) | ((b2 as u32) << 16u32) | ((b3 as u32)
        << 24u32)) >> 8u32) & 0xff) as u8 == b1) by (bit_vector);
    assert(((((b0 as u32) | ((b1 as u32) << 8u32) | ((b2 as u32) << 16u32) | ((b3 as u32)
        << 24u32)) >> 16u32) & 0xff) as u8 == b2) by (bit_vector);
    assert(((((b0 as u32) | ((b1 as u32) << 8u32) | ((b2 as u32) << 16u32) | ((b3 as u32)
        << 24u32)) >> 24u32) & 0xff) as u8 == b3) by (bit_vector);
    assert(u32_le(n) =~= seq![b0, b1, b2, b3]);
}

proof fn lemma_u64_bytes(s: Seq<u8>)
    requires
        s.len() >= 8,
    ensures
        u64_le(u64_from(s)) == s.subrange(0, 8),
{
    let (b0, b1, b2, b3, b4, b5, b6, b7) = (s[0], s[1], s[2], s[3], s[4], s[5], s[6], s[7]);
    let n = u64_from(s);
    assert(n == (b0 as u64) | ((b1 as u64) << 8u64) | ((b2 as u64) << 16u64) | ((b3 as u64)
        << 24u64) | ((b4 as u64) << 32u64) | ((b5 as u64) << 40u64) | ((b6 as u64) << 48u64) | ((
    b7 as u64) << 56u64));
    assert((n & 0xff) as u8 == b0 && ((n >> 8u64) & 0xff) as u8 == b1 && ((n >> 16u64) & 0xff)
        as u8 == b2 && ((n >> 24u64) & 0xff) as u8 == b3 && ((n >> 32u64) & 0xff) as u8 == b4
        && ((n >> 40u64) & 0xff) as u8 == b5 && ((n >> 48u64) & 0xff) as u8 == b6 && ((n
        >> 56u64) & 0xff) as u8 == b7) by (bit_vector)
        requires
            n == (b0 as u64) | ((b1 as u64) << 8u64) | ((b2 as u64) << 16u64) | ((b3 as u64)
                << 24u64) | ((b4 as u64) << 32u64) | ((b5 as u64) << 40u64) | ((b6 as u64)
                << 48u64) | ((b7 as u64) << 56u64),
    ;
    assert(u64_le(n) =~= s.subrange(0, 8));
}

fn put_u16_le(out: &mut Vec<u8>, n: u16)
    ensures
        final(out)@ == old(out)@ + u16_le(n),
{
    out.push((n & 0xff) as u8);
    out.push(((n >> 8u16) & 0xff) as u8);
    assert(final(out)@ =~= old(out)@ + u16_le(n));
}

fn put_u16_be(out: &mut Vec<u8>, n: u16)
    ensures
        final(out)@ == old(out)@ + u16_be(n),
{
    out.push(((n >> 8u16) & 0xff) as u8);
    out.push((n & 0xff) as u8);
    assert(final(out)@ =~= old(out)@ + u16_be(n));
}

fn put_u32_le(out: &mut Vec<u8>, n: u32)
    ensures
        final(out)@ == old(out)@ + u32_le(n),
{
    out.push((n & 0xff) as u8);
    out.push(((n >> 8u32) & 0xff) as u8);
    out.push(((n >> 16u32) & 0xff) as u8);
    out.push(((n >> 24u32) & 0xff) as u8);
    assert(final(out)@ =~= old(out)@ + u32_le(n));
}

fn put_u64_le(out: &mut Vec<u8>, n: u64)
    ensures
        final(out)@ == old(out)@ + u64_le(n),
{
    out.push((n & 0xff) as u8);
    out.push(((n >> 8u64) & 0xff) as u8);
    out.push(((n >> 16u64) & 0xff) as u8);
    out.push(((n >> 24u64) & 0xff) as u8);
    out.push(((n >> 32u64) & 0xff) as u8);
    out.push(((n >> 40u64) & 0xff) as u8);
    out.push(((n >> 48u64) & 0xff) as u8);
    out.push(((n >> 56u64) & 0xff) as u8);
    assert(final(out)@ =~= old(out)@ + u64_le(n));
}

// ---------------------------------------------------------------------------------------------
// Addresses

/// The bytes of a socket address: a `u32` tag (`0` for version 4, `1` for version 6), the IP
/// octets in network order, then the port.
pub open spec fn address_wire(a: Address) -> Seq<u8> {
    match a.ip {
        IpAddress::V4(x0, x1, x2, x3) => seq![0u8, 0, 0, 0, x0, x1, x2, x3] + u16_le(a.port),
        IpAddress::V6(s0, s1, s2, s3, s4, s5, s6, s7) => seq![1u8, 0, 0, 0] + u16_be(s0) + u16_be(
            s1,
        ) + u16_be(s2) + u16_be(s3) + u16_be(s4) + u16_be(s5) + u16_be(s6) + u16_be(s7) + u16_le(
            a.port,
        ),
    }
}

/// The address at the start of `t`, with the number of bytes it takes.
pub open spec fn address_of(t: Seq<u8>) -> Option<(Address, int)> {
    if t.len() >= 10 && t[0] == 0 && t[1] == 0 && t[2] == 0 && t[3] == 0 {
        Some((Address { ip: IpAddress::V4(t[4], t[5], t[6], t[7]), port: u16_from(t[8], t[9]) }, 10))
    } else if t.len() >= 22 && t[0] == 1 && t[1] == 0 && t[2] == 0 && t[3] == 0 {
        Some(
            (
                Address {
                    ip: IpAddress::V6(
                        u16_from(t[5], t[4]),
                        u16_from(t[7], t[6]),
                        u16_from(t[9], t[8]),
                        u16_from(t[11], t[10]),
                        u16_from(t[13], t[12]),
                        u16_from(t[15], t[14]),
                        u16_from(t[17], t[16]),
                        u16_from(t[19], t[18]),
                    ),
                    port: u16_from(t[20], t[21]),
                },
                22,
            ),
        )
    } else {
        None
    }
}

proof fn lemma_address_of_wire(a: Address, rest: Seq<u8>)
    ensures
        address_of(address_wire(a) + rest) == Some((a, address_wire(a).len() as int)),
{
    let t = address_wire(a) + rest;
    lemma_u16(a.port);
    match a.ip {
        IpAddress::V4(x0, x1, x2, x3) => {
            assert(t[8] == u16_le(a.port)[0] && t[9] == u16_le(a.port)[1]);
        },
        IpAddress::V6(s0, s1, s2, s3, s4, s5, s6, s7) => {
            lemma_u16(s0);
            lemma_u16(s1);
            lemma_u16(s2);
            lemma_u16(s3);
            lemma_u16(s4);
            lemma_u16(s5);
            lemma_u16(s6);
            lemma_u16(s7);
            let w = address_wire(a);
            assert(w =~= seq![1u8, 0, 0, 0, u16_be(s0)[0], u16_be(s0)[1], u16_be(s1)[0], u16_be(s1)[1],
                u16_be(s2)[0], u16_be(s2)[1], u16_be(s3)[0], u16_be(s3)[1], u16_be(s4)[0], u16_be(s4)[1],
                u16_be(s5)[0], u16_be(s5)[1], u16_be(s6)[0], u16_be(s6)[1], u16_be(s7)[0], u16_be(s7)[1],
                u16_le(a.port)[0], u16_le(a.port)[1]]);
        },
    }
}

proof fn lemma_address_of_sound(t: Seq<u8>)
    requires
        address_of(t) is Some,
    ensures
        ({
            let (a, n) = address_of(t).unwrap();
            n == address_wire(a).len() && n <= t.len() && t.subrange(0, n) == address_wire(a)
        }),
{
    let (a, n) = address_of(t).unwrap();
    lemma_u16_bytes(t[n - 2], t[n - 1]);
    if t[0] == 0 {
        assert(t.subrange(0, n) =~= address_wire(a));
    } else {
        lemma_u16_bytes(t[4], t[5]);
        lemma_u16_bytes(t[6], t[7]);
        lemma_u16_bytes(t[8], t[9]);
        lemma_u16_bytes(t[10], t[11]);
        lemma_u16_bytes(t[12], t[13]);
        lemma_u16_bytes(t[14], t[15]);
        lemma_u16_bytes(t[16], t[17]);
        lemma_u16_bytes(t[18], t[19]);
        assert(t.subrange(0, n) =~= address_wire(a));
    }
}

fn put_address(out: &mut Vec<u8>, a: Address)
    ensures
        final(out)@ == old(out)@ + address_wire(a),
{
    match a.ip {
        IpAddress::V4(x0, x1, x2, x3) => {
            out.push(0);
            out.push(0);
            out.push(0);
            out.push(0);
            out.push(x0);
            out.push(x1);
            out.push(x2);
            out.push(x3);
        },
        IpAddress::V6(s0, s1, s2, s3, s4, s5, s6, s7) => {
            out.push(1);
            out.push(0);
            out.push(0);
            out.push(0);
            put_u16_be(out, s0);
            put_u16_be(out, s1);
            put_u16_be(out, s2);
            put_u16_be(out, s3);
            put_u16_be(out, s4);
            put_u16_be(out, s5);
            put_u16_be(out, s6);
            put_u16_be(out, s7);
        },
    }
    put_u16_le(out, a.port);
    assert(final(out)@ =~= old(out)@ + address_wire(a));
}

fn be16(hi: u8, lo: u8) -> (r: u16)
    ensures
        r == u16_from(lo, hi),
{
    (lo as u16) | ((hi as u16) << 8u16)
}

fn get_address(b: &Vec<u8>, pos: usize) -> (r: Option<(Address, usize)>)
    requires
        pos <= b@.len(),
    ensures
        match address_of(b@.skip(pos as int)) {
            None => r is None,
            Some((a, n)) => r == Some((a, (pos + n) as usize)),
        },
{
    let ghost t = b@.skip(pos as int);
    let avail = b.len() - pos;
    if avail >= 10 && b[pos] == 0 && b[pos + 1] == 0 && b[pos + 2] == 0 && b[pos + 3] == 0 {
        let ip = IpAddress::V4(b[pos + 4], b[pos + 5], b[pos + 6], b[pos + 7]);
        let port = be16(b[pos + 9], b[pos + 8]);
        assert(t[8] == b@[pos + 8] && t[9] == b@[pos + 9]);
        Some((Address { ip, port }, pos + 10))
    } else if avail >= 22 && b[pos] == 1 && b[pos + 1] == 0 && b[pos + 2] == 0 && b[pos + 3] == 0 {
        let ip = IpAddress::V6(
            be16(b[pos + 4], b[pos + 5]),
            be16(b[pos + 6], b[pos + 7]),
            be16(b[pos + 8], b[pos + 9]),
            be16(b[pos + 10], b[pos + 11]),
            be16(b[pos + 12], b[pos + 13]),
            be16(b[pos + 14], b[pos + 15]),
            be16(b[pos + 16], b[pos + 17]),
            be16(b[pos + 18], b[pos + 19]),
        );
        let port = be16(b[pos + 21], b[pos + 20]);
        assert(t[4] == b@[pos + 4] && t[5] == b@[pos + 5] && t[6] == b@[pos + 6] && t[7] == b@[pos
            + 7] && t[8] == b@[pos + 8] && t[9] == b@[pos + 9] && t[10] == b@[pos + 10] && t[11]
            == b@[pos + 11] && t[12] == b@[pos + 12] && t[13] == b@[pos + 13] && t[14] == b@[pos
            + 14] && t[15] == b@[pos + 15] && t[16] == b@[pos + 16] && t[17] == b@[pos + 17]
            && t[18] == b@[pos + 18] && t[19] == b@[pos + 19] && t[20] == b@[pos + 20] && t[21]
            == b@[pos + 21]);
        Some((Address { ip, port }, pos + 22))
    } else {
        assert(avail >= 4 ==> t[0] == b@[pos as int] && t[1] == b@[pos + 1] && t[2] == b@[pos
            + 2] && t[3] == b@[pos + 3]);
        None
    }
}

/// The bytes of an optional address: `0` for none, or `1` and the address.
pub open spec fn opt_address_wire(o: Option<Address>) -> Seq<u8> {
    match o {
        None => seq![0u8],
        Some(a) => seq![1u8] + address_wire(a),
    }
}

pub open spec fn opt_address_of(t: Seq<u8>) -> Option<(Option<Address>, int)> {
    if t.len() >= 1 && t[0] == 0 {
        Some((None, 1))
    } else if t.len() >= 1 && t[0] == 1 {
        match address_of(t.skip(1)) {
            Some((a, n)) => Some((Some(a), n + 1)),
            None => None,
        }
    } else {
        None
    }
}

proof fn lemma_opt_address_of_wire(o: Option<Address>, rest: Seq<u8>)
    ensures
        opt_address_of(opt_address_wire(o) + rest) == Some((o, opt_address_wire(o).len() as int)),
{
    if let Some(a) = o {
        assert((opt_address_wire(o) + rest).skip(1) =~= address_wire(a) + rest);
        lemma_address_of_wire(a, rest);
    }
}

proof fn lemma_opt_address_of_sound(t: Seq<u8>)
    requires
        opt_address_of(t) is Some,
    ensures
        ({
            let (o, n) = opt_address_of(t).unwrap();
            n == opt_address_wire(o).len() && n <= t.len() && t.subrange(0, n)
                == opt_address_wire(o)
        }),
{
    let (o, n) = opt_address_of(t).unwrap();
    if t[0] == 0 {
        assert(t.subrange(0, n) =~= opt_address_wire(o));
    } else {
        lemma_address_of_sound(t.skip(1));
        assert(t.subrange(0, n) =~= seq![1u8] + t.skip(1).subrange(0, n - 1));
    }
}

fn put_opt_address(out: &mut Vec<u8>, o: Option<Address>)
    ensures
        final(out)@ == old(out)@ + opt_address_wire(o),
{
    match o {
        None => {
            out.push(0);
        },
        Some(a) => {
            out.push(1);
            put_address(out, a);
        },
    }
    assert(final(out)@ =~= old(out)@ + opt_address_wire(o));
}

fn get_opt_address(b: &Vec<u8>, pos: usize) -> (r: Option<(Option<Address>, usize)>)
    requires
        pos <= b@.len(),
    ensures
        match opt_address_of(b@.skip(pos as int)) {
            None => r is None,
            Some((o, n)) => r == Some((o, (pos + n) as usize)),
        },
{
    let ghost t = b@.skip(pos as int);
    if pos < b.len() && b[pos] == 0 {
        assert(t[0] == b@[pos as int]);
        Some((None, pos + 1))
    } else if pos < b.len() && b[pos] == 1 {
        assert(t[0] == b@[pos as int]);
        assert(t.skip(1) =~= b@.skip(pos + 1));
        match get_address(b, pos + 1) {
            Some((a, end)) => Some((Some(a), end)),
            None => None,
        }
    } else {
        assert(pos < b.len() ==> t[0] == b@[pos as int]);
        None
    }
}

// ---------------------------------------------------------------------------------------------
// Byte buffers and strings

/// The bytes of a byte buffer: its length as a `u64`, then its contents.
pub open spec fn bytes_wire(d: Seq<u8>) -> Seq<u8> {
    u64_le(d.len() as u64) + d
}

/// The bytes of a string: its UTF-8 encoding, as a byte buffer.
pub open spec fn string_wire(c: Seq<char>) -> Seq<u8> {
    bytes_wire(encode_utf8(c))
}

pub open spec fn bytes_of(t: Seq<u8>) -> Option<(Seq<u8>, int)> {
    if t.len() >= 8 && u64_from(t) as int <= t.len() - 8 {
        Some((t.subrange(8, 8 + u64_from(t) as int), 8 + u64_from(t) as int))
    } else {
        None
    }
}

pub open spec fn string_of(t: Seq<u8>) -> Option<(Seq<char>, int)> {
    match bytes_of(t) {
        Some((d, n)) => if valid_utf8(d) {
            Some((decode_utf8(d), n))
        } else {
            None
        },
        None => None,
    }
}

proof fn lemma_bytes_of_wire(d: Seq<u8>, rest: Seq<u8>)
    requires
        d.len() <= u64::MAX,
    ensures
        bytes_of(bytes_wire(d) + rest) == Some((d, bytes_wire(d).len() as int)),
{
    let t = bytes_wire(d) + rest;
    lemma_u64(d.len() as u64);
    assert(t.subrange(0, 8) =~= u64_le(d.len() as u64));
    assert(u64_from(t) == u64_from(t.subrange(0, 8)));
    assert(t.subrange(8, 8 + d.len() as int) =~= d);
}

proof fn lemma_bytes_of_sound(t: Seq<u8>)
    requires
        bytes_of(t) is Some,
    ensures
        ({
            let (d, n) = bytes_of(t).unwrap();
            n == bytes_wire(d).len() && n <= t.len() && t.subrange(0, n) == bytes_wire(d)
        }),
{
    let (d, n) = bytes_of(t).unwrap();
    lemma_u64_bytes(t);
    assert(d.len() as u64 == u64_from(t));
    assert(t.subrange(0, n) =~= t.subrange(0, 8) + d);
}

proof fn lemma_string_of_wire(c: Seq<char>, rest: Seq<u8>)
    requires
        encode_utf8(c).len() <= u64::MAX,
    ensures
        string_of(string_wire(c) + rest) == Some((c, string_wire(c).len() as int)),
{
    lemma_bytes_of_wire(encode_utf8(c), rest);
    encode_utf8_valid_utf8(c);
    encode_utf8_decode_utf8(c);
}

proof fn lemma_string_of_sound(t: Seq<u8>)
    requires
        string_of(t) is Some,
    ensures
        ({
            let (c, n) = string_of(t).unwrap();
            n == string_wire(c).len() && n <= t.len() && t.subrange(0, n) == string_wire(c)
        }),
{
    lemma_bytes_of_sound(t);
    let (d, n) = bytes_of(t).unwrap();
    decode_utf8_encode_utf8(d);
}

fn put_bytes(out: &mut Vec<u8>, d: &[u8])
    ensures
        final(out)@ == old(out)@ + bytes_wire(d@),
{
    put_u64_le(out, d.len() as u64);
    let ghost start = out@;
    let mut i: usize = 0;
    while i < d.len()
        invariant
            i <= d@.len(),
            out@ == start + d@.subrange(0, i as int),
        decreases d@.len() - i,
    {
        out.push(d[i]);
        i += 1;
        assert(out@ =~= start + d@.subrange(0, i as int));
    }
    assert(d@.subrange(0, i as int) =~= d@);
    assert(final(out)@ =~= old(out)@ + bytes_wire(d@));
}

/// Relies on `String::from_utf8`: it succeeds exactly when the bytes are valid UTF-8, and the
/// string then holds the characters that the bytes encode.
#[verifier::external_body]
fn string_from_utf8(v: Vec<u8>) -> (r: Option<String>)
    ensures
        r is Some <==> valid_utf8(v@),
        r matches Some(s) ==> s@ == decode_utf8(v@),
{
    String::from_utf8(v).ok()
}

fn get_bytes(b: &Vec<u8>, pos: usize) -> (r: Option<(Vec<u8>, usize)>)
    requires
        pos <= b@.len(),
    ensures
        match bytes_of(b@.skip(pos as int)) {
            None => r is None,
            Some((d, n)) => r matches Some((v, end)) && v@ == d && end == pos + n,
        },
{
    let ghost t = b@.skip(pos as int);
    let avail = b.len() - pos;
    if avail < 8 {
        return None;
    }
    let n = (b[pos] as u64) | ((b[pos + 1] as u64) << 8u64) | ((b[pos + 2] as u64) << 16u64) | ((
    b[pos + 3] as u64) << 24u64) | ((b[pos + 4] as u64) << 32u64) | ((b[pos + 5] as u64) << 40u64)
        | ((b[pos + 6] as u64) << 48u64) | ((b[pos + 7] as u64) << 56u64);
    assert(t[0] == b@[pos as int] && t[1] == b@[pos + 1] && t[2] == b@[pos + 2] && t[3] == b@[pos
        + 3] && t[4] == b@[pos + 4] && t[5] == b@[pos + 5] && t[6] == b@[pos + 6] && t[7] == b@[pos
        + 7]);
    assert(n == u64_from(t));
    if n > (avail - 8) as u64 {
        return None;
    }
    let len = n as usize;
    let start = pos + 8;
    let mut v: Vec<u8> = Vec::new();
    let mut i: usize = 0;
    while i < len
        invariant
            i <= len,
            start + len <= b.len(),
            v@ == b@.subrange(start as int, start + i),
        decreases len - i,
    {
        v.push(b[start + i]);
        i += 1;
        assert(v@ =~= b@.subrange(start as int, start + i));
    }
    assert(t.subrange(8, 8 + len) =~= b@.subrange(start as int, start + len));
    Some((v, start + len))
}

fn get_string(b: &Vec<u8>, pos: usize) -> (r: Option<(String, usize)>)
    requires
        pos <= b@.len(),
    ensures
        match string_of(b@.skip(pos as int)) {
            None => r is None,
            Some((c, n)) => r matches Some((s, end)) && s@ == c && end == pos + n,
        },
{
    match get_bytes(b, pos) {
        Some((v, end)) => match string_from_utf8(v) {
            Some(s) => Some((s, end)),
            None => None,
        },
        None => None,
    }
}

// ---------------------------------------------------------------------------------------------
// Packets

/// The largest encoded packet, in bytes, that is sent or accepted.
pub const MAX_PACKET_SIZE: usize = 16 * 1024 * 1024;

/// A packet exchanged between a client and the matchmaker.
#[derive(Clone, Debug, PartialEq, Eq)]
pub enum Packet {
    // Client to matchmaker
    /// Host a new room.
    Host,
    /// Ask for the host of the room with the given ID.
    GetHost(u32),
    /// Register as a relay client of the room hosted at the given address, or of one's own room.
    RequestRelay(Option<Address>),
    /// Relay data to one member of the room, or to all of them.
    Relay(Option<Address>, Vec<u8>),
    // Matchmaker to client
    /// The ID of the newly hosted room.
    RoomId(u32),
    /// The address of a client that wants to join the room.
    ClientAddress(Address),
    /// The address of the host of the room that was asked for.
    HostAddress(Address),
    /// Data relayed from the given address.
    Relayed(Address, Vec<u8>),
    /// The member with the given address has left the room.
    Disconnected(Address),
    /// The last request failed.
    Error(String),
}

/// The mathematical value of a packet.
pub enum PacketView {
    Host,
    GetHost(u32),
    RequestRelay(Option<Address>),
    Relay(Option<Address>, Seq<u8>),
    RoomId(u32),
    ClientAddress(Address),
    HostAddress(Address),
    Relayed(Address, Seq<u8>),
    Disconnected(Address),
    Error(Seq<char>),
}

impl View for Packet {
    type V = PacketView;

    open spec fn view(&self) -> PacketView {
        match self {
            Packet::Host => PacketView::Host,
            Packet::GetHost(id) => PacketView::GetHost(*id),
            Packet::RequestRelay(o) => PacketView::RequestRelay(*o),
            Packet::Relay(o, d) => PacketView::Relay(*o, d@),
            Packet::RoomId(id) => PacketView::RoomId(*id),
            Packet::ClientAddress(a) => PacketView::ClientAddress(*a),
            Packet::HostAddress(a) => PacketView::HostAddress(*a),
            Packet::Relayed(a, d) => PacketView::Relayed(*a, d@),
            Packet::Disconnected(a) => PacketView::Disconnected(*a),
            Packet::Error(m) => PacketView::Error(m@),
        }
    }
}

/// The variant tag of a packet, as a little-endian `u32`.
pub open spec fn tag(k: u8) -> Seq<u8> {
    seq![k, 0, 0, 0]
}

/// The bytes of a packet on the wire.
pub open spec fn wire(p: PacketView) -> Seq<u8> {
    match p {
        PacketView::Host => tag(0),
        PacketView::GetHost(id) => tag(1) + u32_le(id),
        PacketView::RequestRelay(o) => tag(2) + opt_address_wire(o),
        PacketView::Relay(o, d) => tag(3) + opt_address_wire(o) + bytes_wire(d),
        PacketView::RoomId(id) => tag(4) + u32_le(id),
        PacketView::ClientAddress(a) => tag(5) + address_wire(a),
        PacketView::HostAddress(a) => tag(6) + address_wire(a),
        PacketView::Relayed(a, d) => tag(7) + address_wire(a) + bytes_wire(d),
        PacketView::Disconnected(a) => tag(8) + address_wire(a),
        PacketView::Error(c) => tag(9) + string_wire(c),
    }
}

/// Whether a packet is small enough to be sent.
pub open spec fn fits(p: PacketView) -> bool {
    wire(p).len() <= MAX_PACKET_SIZE
}

spec fn u32_of(r: Seq<u8>) -> Option<u32> {
    if r.len() == 4 {
        Some(u32_from(r[0], r[1], r[2], r[3]))
    } else {
        None
    }
}

spec fn whole_address_of(r: Seq<u8>) -> Option<Address> {
    match address_of(r) {
        Some((a, n)) => if n == r.len() {
            Some(a)
        } else {
            None
        },
        None => None,
    }
}

spec fn whole_bytes_of(r: Seq<u8>) -> Option<Seq<u8>> {
    match bytes_of(r) {
        Some((d, n)) => if n == r.len() {
            Some(d)
        } else {
            None
        },
        None => None,
    }
}

/// The packet whose bytes are exactly `t`, read field by field.
spec fn packet_of(t: Seq<u8>) -> Option<PacketView> {
    if t.len() < 4 || t[1] != 0 || t[2] != 0 || t[3] != 0 {
        None
    } else {
        let r = t.skip(4);
        if t[0] == 0 {
            if r.len() == 0 {
                Some(PacketView::Host)
            } else {
                None
            }
        } else if t[0] == 1 {
            match u32_of(r) {
                Some(id) => Some(PacketView::GetHost(id)),
                None => None,
            }
        } else if t[0] == 2 {
            match opt_address_of(r) {
                Some((o, n)) => if n == r.len() {
                    Some(PacketView::RequestRelay(o))
                } else {
                    None
                },
                None => None,
            }
        } else if t[0] == 3 {
            match opt_address_of(r) {
                Some((o, n)) => match whole_bytes_of(r.skip(n)) {
                    Some(d) => Some(PacketView::Relay(o, d)),
                    None => None,
                },
                None => None,
            }
        } else if t[0] == 4 {
            match u32_of(r) {
                Some(id) => Some(PacketView::RoomId(id)),
                None => None,
            }
        } else if t[0] == 5 {
            match whole_address_of(r) {
                Some(a) => Some(PacketView::ClientAddress(a)),
                None => None,
            }
        } else if t[0] == 6 {
            match whole_address_of(r) {
                Some(a) => Some(PacketView::HostAddress(a)),
                None => None,
            }
        } else if t[0] == 7 {
            match address_of(r) {
                Some((a, n)) => match whole_bytes_of(r.skip(n)) {
                    Some(d) => Some(PacketView::Relayed(a, d)),
                    None => None,
                },
                None => None,
            }
        } else if t[0] == 8 {
            match whole_address_of(r) {
                Some(a) => Some(PacketView::Disconnected(a)),
                None => None,
            }
        } else if t[0] == 9 {
            match string_of(r) {
                Some((c, n)) => if n == r.len() {
                    Some(PacketView::Error(c))
                } else {
                    None
                },
                None => None,
            }
        } else {
            None
        }
    }
}

proof fn lemma_relay_of_wire(o: Option<Address>, d: Seq<u8>)
    requires
        fits(PacketView::Relay(o, d)),
    ensures
        packet_of(wire(PacketView::Relay(o, d))) == Some(PacketView::Relay(o, d)),
{
    let t = wire(PacketView::Relay(o, d));
    let e = Seq::<u8>::empty();
    let w = opt_address_wire(o);
    assert(t.skip(4) =~= w + bytes_wire(d));
    lemma_opt_address_of_wire(o, bytes_wire(d));
    assert(t.skip(4).skip(w.len() as int) =~= bytes_wire(d) + e);
    lemma_bytes_of_wire(d, e);
}

proof fn lemma_relayed_of_wire(a: Address, d: Seq<u8>)
    requires
        fits(PacketView::Relayed(a, d)),
    ensures
        packet_of(wire(PacketView::Relayed(a, d))) == Some(PacketView::Relayed(a, d)),
{
    let t = wire(PacketView::Relayed(a, d));
    let e = Seq::<u8>::empty();
    let w = address_wire(a);
    assert(t.skip(4) =~= w + bytes_wire(d));
    lemma_address_of_wire(a, bytes_wire(d));
    assert(t.skip(4).skip(w.len() as int) =~= bytes_wire(d) + e);
    lemma_bytes_of_wire(d, e);
}

proof fn lemma_error_of_wire(c: Seq<char>)
    requires
        fits(PacketView::Error(c)),
    ensures
        packet_of(wire(PacketView::Error(c))) == Some(PacketView::Error(c)),
{
    let t = wire(PacketView::Error(c));
    let e = Seq::<u8>::empty();
    assert(t.skip(4) =~= string_wire(c) + e);
    lemma_string_of_wire(c, e);
}

#[verifier::rlimit(40)]
proof fn lemma_address_packet_of_wire(p: PacketView, a: Address)
    requires
        p == PacketView::ClientAddress(a) || p == PacketView::HostAddress(a) || p
            == PacketView::Disconnected(a),
    ensures
        packet_of(wire(p)) == Some(p),
{
    let t = wire(p);
    let e = Seq::<u8>::empty();
    assert(t.skip(4) =~= address_wire(a) + e);
    lemma_address_of_wire(a, e);
}

proof fn lemma_packet_of_wire(p: PacketView)
    requires
        fits(p),
    ensures
        packet_of(wire(p)) == Some(p),
{
    let t = wire(p);
    let e = Seq::<u8>::empty();
    match p {
        PacketView::Host => {},
        PacketView::GetHost(id) => {
            lemma_u32(id);
            assert(t.skip(4) =~= u32_le(id));
        },
        PacketView::RoomId(id) => {
            lemma_u32(id);
            assert(t.skip(4) =~= u32_le(id));
        },
        PacketView::RequestRelay(o) => {
            assert(t.skip(4) =~= opt_address_wire(o) + e);
            lemma_opt_address_of_wire(o, e);
        },
        PacketView::Relay(o, d) => lemma_relay_of_wire(o, d),
        PacketView::ClientAddress(a) => lemma_address_packet_of_wire(p, a),
        PacketView::HostAddress(a) => lemma_address_packet_of_wire(p, a),
        PacketView::Disconnected(a) => lemma_address_packet_of_wire(p, a),
        PacketView::Relayed(a, d) => lemma_relayed_of_wire(a, d),
        PacketView::Error(c) => lemma_error_of_wire(c),
    }
}

proof fn lemma_packet_of_sound(t: Seq<u8>)
    requires
        packet_of(t) is Some,
    ensures
        wire(packet_of(t).unwrap()) == t,
{
    let p = packet_of(t).unwrap();
    let r = t.skip(4);
    assert(t =~= tag(t[0]) + r);
    match p {
        PacketView::Host => {},
        PacketView::GetHost(id) => {
            lemma_u32_bytes(r[0], r[1], r[2], r[3]);
            assert(r =~= seq![r[0], r[1], r[2], r[3]]);
        },
        PacketView::RoomId(id) => {
            lemma_u32_bytes(r[0], r[1], r[2], r[3]);
            assert(r =~= seq![r[0], r[1], r[2], r[3]]);
        },
        PacketView::RequestRelay(o) => {
            lemma_opt_address_of_sound(r);
            assert(r.subrange(0, r.len() as int) =~= r);
        },
        PacketView::Relay(o, d) => {
            lemma_opt_address_of_sound(r);
            let n = opt_address_of(r).unwrap().1;
            lemma_bytes_of_sound(r.skip(n));
            let m = bytes_of(r.skip(n)).unwrap().1;
            assert(r.skip(n).subrange(0, m) =~= r.skip(n));
            assert(r =~= r.subrange(0, n) + r.skip(n));
        },
        PacketView::ClientAddress(a) => {
            lemma_address_of_sound(r);
            assert(r.subrange(0, r.len() as int) =~= r);
        },
        PacketView::HostAddress(a) => {
            lemma_address_of_sound(r);
            assert(r.subrange(0, r.len() as int) =~= r);
        },
        PacketView::Disconnected(a) => {
            lemma_address_of_sound(r);
            assert(r.subrange(0, r.len() as int) =~= r);
        },
        PacketView::Relayed(a, d) => {
            lemma_address_of_sound(r);
            let n = address_of(r).unwrap().1;
            lemma_bytes_of_sound(r.skip(n));
            let m = bytes_of(r.skip(n)).unwrap().1;
            assert(r.skip(n).subrange(0, m) =~= r.skip(n));
            assert(r =~= r.subrange(0, n) + r.skip(n));
        },
        PacketView::Error(c) => {
            lemma_string_of_sound(r);
            assert(r.subrange(0, r.len() as int) =~= r);
        },
    }
}

/// Why a packet could not be encoded.
#[derive(Clone, Copy, Debug, PartialEq, Eq, Structural)]
pub enum EncodeError {
    /// The encoded packet would exceed `MAX_PACKET_SIZE`.
    PacketTooLarge,
}

/// Why bytes could not be decoded into a packet.
#[derive(Clone, Copy, Debug, PartialEq, Eq, Structural)]
pub enum DecodeError {
    /// The bytes exceed `MAX_PACKET_SIZE`.
    PacketTooLarge,
    /// The bytes are not the encoding of any packet.
    Malformed,
}

fn put_tag(out: &mut Vec<u8>, k: u8)
    ensures
        final(out)@ == old(out)@ + tag(k),
{
    out.push(k);
    out.push(0);
    out.push(0);
    out.push(0);
    assert(final(out)@ =~= old(out)@ + tag(k));
}

fn put_packet(out: &mut Vec<u8>, p: &Packet)
    ensures
        final(out)@ == old(out)@ + wire(p@),
{
    let ghost start = out@;
    match p {
        Packet::Host => put_tag(out, 0),
        Packet::GetHost(id) => {
            put_tag(out, 1);
            put_u32_le(out, *id);
        },
        Packet::RequestRelay(o) => {
            put_tag(out, 2);
            put_opt_address(out, *o);
        },
        Packet::Relay(o, d) => {
            put_tag(out, 3);
            put_opt_address(out, *o);
            put_bytes(out, d.as_slice());
        },
        Packet::RoomId(id) => {
            put_tag(out, 4);
            put_u32_le(out, *id);
        },
        Packet::ClientAddress(a) => {
            put_tag(out, 5);
            put_address(out, *a);
        },
        Packet::HostAddress(a) => {
            put_tag(out, 6);
            put_address(out, *a);
        },
        Packet::Relayed(a, d) => {
            put_tag(out, 7);
            put_address(out, *a);
            put_bytes(out, d.as_slice());
        },
        Packet::Disconnected(a) => {
            put_tag(out, 8);
            put_address(out, *a);
        },
        Packet::Error(m) => {
            put_tag(out, 9);
            put_bytes(out, m.as_str().as_bytes());
        },
    }
    assert(out@ =~= start + wire(p@));
}

fn address_size(a: Address) -> (r: usize)
    ensures
        r == address_wire(a).len(),
{
    match a.ip {
        IpAddress::V4(..) => 10,
        IpAddress::V6(..) => 22,
    }
}

fn opt_address_size(o: Option<Address>) -> (r: usize)
    ensures
        r == opt_address_wire(o).len(),
{
    match o {
        None => 1,
        Some(a) => 1 + address_size(a),
    }
}

/// The number of bytes that `p` takes on the wire, or `None` where that exceeds
/// `MAX_PACKET_SIZE`.
pub fn encoded_size(p: &Packet) -> (r: Option<usize>)
    ensures
        r == (if fits(p@) {
            Some(wire(p@).len() as usize)
        } else {
            None::<usize>
        }),
{
    let size: usize = match p {
        Packet::Host => 4,
        Packet::GetHost(_) => 8,
        Packet::RequestRelay(o) => 4 + opt_address_size(*o),
        Packet::Relay(o, d) => {
            if d.len() > MAX_PACKET_SIZE {
                return None;
            }
            4 + opt_address_size(*o) + 8 + d.len()
        },
        Packet::RoomId(_) => 8,
        Packet::ClientAddress(a) => 4 + address_size(*a),
        Packet::HostAddress(a) => 4 + address_size(*a),
        Packet::Relayed(a, d) => {
            if d.len() > MAX_PACKET_SIZE {
                return None;
            }
            4 + address_size(*a) + 8 + d.len()
        },
        Packet::Disconnected(a) => 4 + address_size(*a),
        Packet::Error(m) => {
            let bytes = m.as_str().as_bytes();
            if bytes.len() > MAX_PACKET_SIZE {
                return None;
            }
            4 + 8 + bytes.len()
        },
    };
    assert(size == wire(p@).len());
    if size > MAX_PACKET_SIZE {
        None
    } else {
        Some(size)
    }
}

/// Encodes a packet into the bytes of one transport message.
///
/// A packet whose encoding would exceed `MAX_PACKET_SIZE` is refused, before any byte is written.
pub fn encode(p: &Packet) -> (r: Result<Vec<u8>, EncodeError>)
    ensures
        fits(p@) ==> (r matches Ok(v) && v@ == wire(p@)),
        !fits(p@) ==> r == Err::<Vec<u8>, EncodeError>(EncodeError::PacketTooLarge),
{
    match encoded_size(p) {
        None => Err(EncodeError::PacketTooLarge),
        Some(size) => {
            let mut out: Vec<u8> = Vec::with_capacity(size);
            put_packet(&mut out, p);
            assert(out@ =~= wire(p@));
            Ok(out)
        },
    }
}

/// The value of a decoding result.
pub open spec fn result_view(r: Result<Packet, DecodeError>) -> Result<PacketView, DecodeError> {
    match r {
        Ok(q) => Ok(q@),
        Err(e) => Err(e),
    }
}

/// `r` is a correct decoding of `b`: the packet whose encoding is `b`, `PacketTooLarge` when `b`
/// is over the limit, and `Malformed` when no packet is encoded as `b`.
pub open spec fn decodes(b: Seq<u8>, r: Result<PacketView, DecodeError>) -> bool {
    &&& b.len() > MAX_PACKET_SIZE ==> r == Err::<PacketView, DecodeError>(
        DecodeError::PacketTooLarge,
    )
    &&& r matches Ok(q) ==> wire(q) == b && fits(q)
    &&& b.len() <= MAX_PACKET_SIZE && r is Err ==> r == Err::<PacketView, DecodeError>(
        DecodeError::Malformed,
    )
    &&& forall|p: PacketView| #[trigger] wire(p) == b && fits(p) ==> r == Ok::<PacketView, DecodeError>(p)
}

/// Decodes the bytes of one transport message into a packet.
///
/// The bytes must be exactly the encoding of one packet: trailing bytes are malformed.
pub fn decode(b: &Vec<u8>) -> (r: Result<Packet, DecodeError>)
    ensures
        decodes(b@, result_view(r)),
{
    if b.len() > MAX_PACKET_SIZE {
        return Err(DecodeError::PacketTooLarge);
    }
    let r = decode_fields(b);
    proof {
        assert forall|p: PacketView| #[trigger] wire(p) == b@ && fits(p) implies result_view(r)
            == Ok::<PacketView, DecodeError>(p) by {
            lemma_packet_of_wire(p);
        }
        if r is Ok {
            lemma_packet_of_sound(b@);
        }
    }
    r
}

fn decode_fields(b: &Vec<u8>) -> (r: Result<Packet, DecodeError>)
    ensures
        match packet_of(b@) {
            None => r == Err::<Packet, DecodeError>(DecodeError::Malformed),
            Some(p) => r matches Ok(q) && q@ == p,
        },
{
    let len = b.len();
    if len < 4 || b[1] != 0 || b[2] != 0 || b[3] != 0 {
        return Err(DecodeError::Malformed);
    }
    let ghost r = b@.skip(4);
    assert(b@.skip(4) =~= r);
    let k = b[0];
    let malformed = Err(DecodeError::Malformed);
    if k == 0 {
        if len == 4 {
            Ok(Packet::Host)
        } else {
            malformed
        }
    } else if k == 1 || k == 4 {
        if len == 8 {
            let id = (b[4] as u32) | ((b[5] as u32) << 8u32) | ((b[6] as u32) << 16u32) | ((
            b[7] as u32) << 24u32);
            assert(r[0] == b@[4] && r[1] == b@[5] && r[2] == b@[6] && r[3] == b@[7]);
            if k == 1 {
                Ok(Packet::GetHost(id))
            } else {
                Ok(Packet::RoomId(id))
            }
        } else {
            malformed
        }
    } else if k == 2 || k == 3 {
        match get_opt_address(b, 4) {
            None => malformed,
            Some((o, end)) => {
                if k == 2 {
                    if end == len {
                        Ok(Packet::RequestRelay(o))
                    } else {
                        malformed
                    }
                } else {
                    assert(b@.skip(end as int) =~= r.skip(end - 4));
                    match get_bytes(b, end) {
                        Some((d, last)) => if last == len {
                            Ok(Packet::Relay(o, d))
                        } else {
                            malformed
                        },
                        None => malformed,
                    }
                }
            },
        }
    } else if 5 <= k && k <= 8 {
        match get_address(b, 4) {
            None => malformed,
            Some((a, end)) => {
                if k == 7 {
                    assert(b@.skip(end as int) =~= r.skip(end - 4));
                    match get_bytes(b, end) {
                        Some((d, last)) => if last == len {
                            Ok(Packet::Relayed(a, d))
                        } else {
                            malformed
                        },
                        None => malformed,
                    }
                } else if end != len {
                    malformed
                } else if k == 5 {
                    Ok(Packet::ClientAddress(a))
                } else if k == 6 {
                    Ok(Packet::HostAddress(a))
                } else {
                    Ok(Packet::Disconnected(a))
                }
            },
        }
    } else if k == 9 {
        match get_string(b, 4) {
            Some((m, end)) => if end == len {
                Ok(Packet::Error(m))
            } else {
                malformed
            },
            None => malformed,
        }
    } else {
        malformed
    }
}

/// Decoding the encoding of a packet gives the packet back: whatever a correct decoding of
/// `wire(p)` is, it is `Ok(p)`.
pub proof fn lemma_round_trip(p: PacketView, r: Result<PacketView, DecodeError>)
    requires
        fits(p),
        decodes(wire(p), r),
    ensures
        r == Ok::<PacketView, DecodeError>(p),
{
}

} // verus!


