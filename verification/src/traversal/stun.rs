//! STUN binding requests and responses.

use vstd::prelude::*;
use vstd::string::*;

use crate::codec::{be_bytes, be_value, lemma_pow256_values, pow256, push_be, read_be};
use crate::error::{Error, Result};
use crate::net::{IpAddr, SocketAddr};
use crate::random::random_transaction;
use crate::text::{bytes_eq, decimal, push_decimal};
use crate::verification::{hex_chars, hex_encode};

verus! {

pub const BINDING_REQUEST: u16 = 0x0001;

pub const BINDING_RESPONSE: u16 = 0x0101;

pub const MAGIC_COOKIE: u32 = 0x2112_A442;

pub const ATTR_MAPPED_ADDRESS: u16 = 0x0001;

pub const ATTR_XOR_MAPPED_ADDRESS: u16 = 0x0020;

/// What the NAT in front of a socket does, as far as hole punching cares.
#[derive(Debug, Clone, Copy, PartialEq, Eq, Structural)]
pub enum NatClass {
    /// The same mapped port for every destination: can be punched.
    Cone { public: SocketAddr },
    /// Another mapped port for each destination: needs a relay.
    Symmetric,
}

/// The class of a NAT by what two servers saw of the same socket.
pub open spec fn nat_class(map_a: SocketAddr, map_b: SocketAddr) -> NatClass {
    if map_a.port == map_b.port {
        NatClass::Cone { public: map_a }
    } else {
        NatClass::Symmetric
    }
}

/// Classifies a NAT by what two servers saw of the same socket.
pub fn classify(map_a: SocketAddr, map_b: SocketAddr) -> (r: NatClass)
    ensures
        r == nat_class(map_a, map_b),
{
    if map_a.port == map_b.port {
        NatClass::Cone { public: map_a }
    } else {
        NatClass::Symmetric
    }
}

/// A binding request: type, no attributes, cookie, transaction.
pub open spec fn request_bytes(tx: Seq<u8>) -> Seq<u8> {
    be_bytes(BINDING_REQUEST as nat, 2) + be_bytes(0, 2) + be_bytes(MAGIC_COOKIE as nat, 4) + tx
}

/// The binding request of a transaction.
pub fn binding_request(tx: &[u8; 12]) -> (r: Vec<u8>)
    ensures
        r@ == request_bytes(tx@),
{
    let mut packet: Vec<u8> = Vec::new();
    push_be(&mut packet, BINDING_REQUEST as u64, 2);
    push_be(&mut packet, 0, 2);
    push_be(&mut packet, MAGIC_COOKIE as u64, 4);
    packet.extend_from_slice(tx.as_slice());
    assert(packet@ =~= request_bytes(tx@));
    packet
}

/// A binding request of a fresh transaction, and the transaction.
pub fn build_binding_request() -> (r: (Vec<u8>, [u8; 12]))
    ensures
        r.0@ == request_bytes(r.1@),
{
    let tx: [u8; 12] = random_transaction();
    (binding_request(&tx), tx)
}

/// The 16-bit number at a position.
pub open spec fn u16_at(data: Seq<u8>, off: int) -> u16 {
    be_value(data.subrange(off, off + 2)) as u16
}

fn read_u16(data: &[u8], off: usize) -> (r: u16)
    requires
        off + 2 <= data@.len(),
    ensures
        r == u16_at(data@, off as int),
{
    proof {
        lemma_pow256_values();
    }
    read_be(data, off, 2) as u16
}

/// The 128-bit number at a position.
pub open spec fn u128_at(data: Seq<u8>, off: int) -> u128 {
    be_value(data.subrange(off, off + 16)) as u128
}

fn read_u128(data: &[u8], off: usize) -> (r: u128)
    requires
        off + 16 <= data@.len(),
    ensures
        r == u128_at(data@, off as int),
{
    let n: usize = data.len();
    let hi: u64 = read_be(data, off, 8);
    let lo: u64 = read_be(data, off + 8, 8);
    proof {
        lemma_be_concat(data@.subrange(off as int, off + 8), data@.subrange(off + 8, off + 16));
        assert(data@.subrange(off as int, off + 8) + data@.subrange(off + 8, off + 16)
            =~= data@.subrange(off as int, off + 16));
        lemma_pow256_values();
    }
    let upper: u128 = hi as u128;
    assert(upper * 0x1_0000_0000_0000_0000 <= 0xffff_ffff_ffff_ffff * 0x1_0000_0000_0000_0000)
        by (nonlinear_arith)
        requires
            upper <= 0xffff_ffff_ffff_ffff,
    ;
    upper * 0x1_0000_0000_0000_0000 + lo as u128
}

proof fn lemma_be_concat(a: Seq<u8>, b: Seq<u8>)
    ensures
        be_value(a + b) == be_value(a) * pow256(b.len()) + be_value(b),
    decreases b.len(),
{
    if b.len() == 0 {
        assert(a + b =~= a);
        assert(pow256(0) == 1);
        assert(be_value(a) * 1 == be_value(a));
    } else {
        let c = b.drop_last();
        lemma_be_concat(a, c);
        assert((a + b).drop_last() =~= a + c);
        assert((a + b).last() == b.last());
        assert(pow256(b.len()) == 256 * pow256(c.len()));
        assert(256 * (be_value(a) * pow256(c.len())) == be_value(a) * (256 * pow256(c.len())))
            by (nonlinear_arith);
    }
}

/// What an address attribute says of its family, or why it cannot be read.
pub open spec fn mapped_address(attr: Seq<u8>) -> core::result::Result<SocketAddr, Seq<char>> {
    if attr.len() < 8 {
        Err("MAPPED-ADDRESS too short"@)
    } else if attr[1] == 1 {
        Ok(
            SocketAddr {
                ip: IpAddr::V4(be_value(attr.subrange(4, 8)) as u32),
                port: u16_at(attr, 2),
            },
        )
    } else if attr[1] == 2 {
        if attr.len() < 20 {
            Err("MAPPED-ADDRESS IPv6 too short"@)
        } else {
            Ok(SocketAddr { ip: IpAddr::V6(u128_at(attr, 4)), port: u16_at(attr, 2) })
        }
    } else {
        Err("unknown address family: "@ + decimal(attr[1] as nat))
    }
}

/// The bytes that an IPv6 address is masked with: the cookie, then the
/// transaction.
pub open spec fn xor_key(tx: Seq<u8>) -> Seq<u8> {
    be_bytes(MAGIC_COOKIE as nat, 4) + tx
}

/// The sixteen bytes from `off` on, each masked.
pub open spec fn masked(data: Seq<u8>, off: int, key: Seq<u8>) -> Seq<u8> {
    Seq::new(16, |i: int| data[off + i] ^ key[i])
}

/// What a masked address attribute says, or why it cannot be read.
pub open spec fn xor_mapped_address(attr: Seq<u8>, tx: Seq<u8>) -> core::result::Result<
    SocketAddr,
    Seq<char>,
> {
    let port = u16_at(attr, 2) ^ 0x2112;
    if attr.len() < 8 {
        Err("XOR-MAPPED-ADDRESS too short"@)
    } else if attr[1] == 1 {
        Ok(
            SocketAddr {
                ip: IpAddr::V4(be_value(attr.subrange(4, 8)) as u32 ^ MAGIC_COOKIE),
                port,
            },
        )
    } else if attr[1] == 2 {
        if attr.len() < 20 {
            Err("XOR-MAPPED-ADDRESS IPv6 too short"@)
        } else {
            Ok(
                SocketAddr {
                    ip: IpAddr::V6(be_value(masked(attr, 4, xor_key(tx))) as u128),
                    port,
                },
            )
        }
    } else {
        Err("unknown address family: "@ + decimal(attr[1] as nat))
    }
}

fn unknown_family(family: u8) -> (e: Error)
    ensures
        e matches Error::Protocol(m) && m@ == "unknown address family: "@ + decimal(family as nat),
{
    let mut m = "unknown address family: ".to_owned();
    push_decimal(&mut m, family as u64);
    Error::Protocol(m)
}

fn protocol_error(text: &str) -> (e: Error)
    ensures
        e matches Error::Protocol(m) && m@ == text@,
{
    Error::Protocol(text.to_owned())
}

/// Reads an address attribute.
pub fn parse_mapped(attr: &[u8]) -> (r: Result<SocketAddr>)
    ensures
        match mapped_address(attr@) {
            Ok(addr) => r == Ok::<SocketAddr, Error>(addr),
            Err(text) => r matches Err(Error::Protocol(m)) && m@ == text,
        },
{
    if attr.len() < 8 {
        return Err(protocol_error("MAPPED-ADDRESS too short"));
    }
    proof {
        lemma_pow256_values();
    }
    let family: u8 = attr[1];
    let port: u16 = read_u16(attr, 2);
    if family == 1 {
        Ok(SocketAddr { ip: IpAddr::V4(read_be(attr, 4, 4) as u32), port })
    } else if family == 2 {
        if attr.len() < 20 {
            return Err(protocol_error("MAPPED-ADDRESS IPv6 too short"));
        }
        Ok(SocketAddr { ip: IpAddr::V6(read_u128(attr, 4)), port })
    } else {
        Err(unknown_family(family))
    }
}

/// Reads a masked address attribute.
pub fn parse_xor_mapped(attr: &[u8], tx: &[u8]) -> (r: Result<SocketAddr>)
    requires
        tx@.len() == 12,
    ensures
        match xor_mapped_address(attr@, tx@) {
            Ok(addr) => r == Ok::<SocketAddr, Error>(addr),
            Err(text) => r matches Err(Error::Protocol(m)) && m@ == text,
        },
{
    if attr.len() < 8 {
        return Err(protocol_error("XOR-MAPPED-ADDRESS too short"));
    }
    proof {
        lemma_pow256_values();
    }
    let family: u8 = attr[1];
    let port: u16 = read_u16(attr, 2) ^ 0x2112;
    if family == 1 {
        Ok(SocketAddr { ip: IpAddr::V4(read_be(attr, 4, 4) as u32 ^ MAGIC_COOKIE), port })
    } else if family == 2 {
        if attr.len() < 20 {
            return Err(protocol_error("XOR-MAPPED-ADDRESS IPv6 too short"));
        }
        let mut key: Vec<u8> = Vec::new();
        push_be(&mut key, MAGIC_COOKIE as u64, 4);
        key.extend_from_slice(tx);
        proof {
            crate::codec::lemma_be_bytes_len(MAGIC_COOKIE as nat, 4);
            assert(key@ =~= xor_key(tx@));
        }
        let mut octets: Vec<u8> = Vec::new();
        let mut i: usize = 0;
        while i < 16
            invariant
                i <= 16,
                attr@.len() >= 20,
                key@.len() == 16,
                octets@.len() == i,
                forall|j: int| 0 <= j < i ==> octets@[j] == attr@[4 + j] ^ key@[j],
            decreases 16 - i,
        {
            octets.push(attr[4 + i] ^ key[i]);
            i += 1;
        }
        assert(octets@ =~= masked(attr@, 4, xor_key(tx@)));
        assert(octets@.subrange(0, 16) =~= octets@);
        Ok(SocketAddr { ip: IpAddr::V6(read_u128(octets.as_slice(), 0)), port })
    } else {
        Err(unknown_family(family))
    }
}

/// The address that the attributes from `off` on give: the first one of either
/// kind that can be read. Attributes are padded to four bytes; one that runs
/// past the end ends the search.
pub open spec fn address_among(data: Seq<u8>, off: int, end: int, tx: Seq<u8>) -> Option<SocketAddr>
    decreases end + 4 - off,
{
    if off + 4 > end {
        None
    } else {
        let kind = u16_at(data, off);
        let len = u16_at(data, off + 2) as nat;
        let body = off + 4;
        if body + len > end {
            None
        } else {
            let attr = data.subrange(body, body + len);
            let found = if kind == ATTR_XOR_MAPPED_ADDRESS {
                xor_mapped_address(attr, tx)
            } else if kind == ATTR_MAPPED_ADDRESS {
                mapped_address(attr)
            } else {
                Err(Seq::empty())
            };
            match found {
                Ok(addr) => Some(addr),
                Err(_) => address_among(data, body + (len + 3) / 4 * 4, end, tx),
            }
        }
    }
}

/// Where the attributes of a response end: where its header says, or with the
/// datagram.
pub open spec fn attributes_end(data: Seq<u8>) -> int {
    let end = 20 + u16_at(data, 2);
    if end < data.len() {
        end
    } else {
        data.len() as int
    }
}

/// The address in a binding response, or why there is none.
pub open spec fn response_address(data: Seq<u8>) -> core::result::Result<SocketAddr, Seq<char>> {
    if data.len() < 20 {
        Err("STUN response too short"@)
    } else if u16_at(data, 0) != BINDING_RESPONSE {
        Err("unexpected STUN message type: 0x"@ + hex_chars(data.take(2)))
    } else if be_value(data.subrange(4, 8)) != MAGIC_COOKIE {
        Err("invalid STUN magic cookie"@)
    } else {
        match address_among(data, 20, attributes_end(data), data.subrange(8, 20)) {
            Some(addr) => Ok(addr),
            None => Err("no mapped-address attribute in STUN response"@),
        }
    }
}

/// Reads a binding response.
pub fn parse_binding_response(data: &[u8]) -> (r: Result<SocketAddr>)
    ensures
        match response_address(data@) {
            Ok(addr) => r == Ok::<SocketAddr, Error>(addr),
            Err(text) => r matches Err(Error::Protocol(m)) && m@ == text,
        },
{
    if data.len() < 20 {
        return Err(protocol_error("STUN response too short"));
    }
    proof {
        lemma_pow256_values();
    }
    let msg_type: u16 = read_u16(data, 0);
    if msg_type != BINDING_RESPONSE {
        let mut m = "unexpected STUN message type: 0x".to_owned();
        let kind: &[u8] = vstd::slice::slice_subrange(data, 0, 2);
        assert(kind@ =~= data@.take(2));
        m.append(hex_encode(kind).as_str());
        return Err(Error::Protocol(m));
    }
    let msg_len: usize = read_u16(data, 2) as usize;
    if read_be(data, 4, 4) != MAGIC_COOKIE as u64 {
        return Err(protocol_error("invalid STUN magic cookie"));
    }
    let tx: &[u8] = vstd::slice::slice_subrange(data, 8, 20);
    let end: usize = if 20 + msg_len < data.len() {
        20 + msg_len
    } else {
        data.len()
    };
    match find_address(data, end, tx) {
        Some(addr) => Ok(addr),
        None => Err(protocol_error("no mapped-address attribute in STUN response")),
    }
}

fn find_address(data: &[u8], end: usize, tx: &[u8]) -> (r: Option<SocketAddr>)
    requires
        20 <= end <= data@.len(),
        end <= 0x1_0013,
        tx@.len() == 12,
    ensures
        r == address_among(data@, 20, end as int, tx@),
{
    let mut offset: usize = 20;
    while offset + 4 <= end
        invariant
            20 <= end <= data@.len(),
            end <= 0x1_0013,
            offset <= end + 4,
            tx@.len() == 12,
            address_among(data@, 20, end as int, tx@) == address_among(
                data@,
                offset as int,
                end as int,
                tx@,
            ),
        decreases end + 4 - offset,
    {
        let kind: u16 = read_u16(data, offset);
        let len: usize = read_u16(data, offset + 2) as usize;
        let body: usize = offset + 4;
        if body + len > end {
            return None;
        }
        let attr: &[u8] = vstd::slice::slice_subrange(data, body, body + len);
        if kind == ATTR_XOR_MAPPED_ADDRESS {
            match parse_xor_mapped(attr, tx) {
                Ok(addr) => {
                    return Some(addr);
                },
                Err(_) => {},
            }
        } else if kind == ATTR_MAPPED_ADDRESS {
            match parse_mapped(attr) {
                Ok(addr) => {
                    return Some(addr);
                },
                Err(_) => {},
            }
        }
        offset = body + (len + 3) / 4 * 4;
    }
    None
}

/// Whether a datagram is the answer to a request: from the server asked, long
/// enough, and of the same transaction.
pub open spec fn answers(from: SocketAddr, server: SocketAddr, data: Seq<u8>, tx: Seq<u8>) -> bool {
    from == server && data.len() >= 20 && data.subrange(8, 20) == tx
}

/// Takes a datagram while waiting for an answer; `None` for one that is not
/// the answer, which is to be ignored.
pub fn on_datagram(from: SocketAddr, server: SocketAddr, data: &[u8], tx: &[u8; 12]) -> (r: Option<
    Result<SocketAddr>,
>)
    ensures
        r is Some <==> answers(from, server, data@, tx@),
        r matches Some(res) ==> match response_address(data@) {
            Ok(addr) => res == Ok::<SocketAddr, Error>(addr),
            Err(text) => res matches Err(Error::Protocol(m)) && m@ == text,
        },
{
    if from != server || data.len() < 20 {
        return None;
    }
    if !bytes_eq(vstd::slice::slice_subrange(data, 8, 20), tx.as_slice()) {
        return None;
    }
    Some(parse_binding_response(data))
}

/// The masked attribute for an IPv4 address.
pub open spec fn xor_attribute_v4(ip: u32, port: u16) -> Seq<u8> {
    seq![0u8, 1u8] + be_bytes((port ^ 0x2112) as nat, 2) + be_bytes((ip ^ MAGIC_COOKIE) as nat, 4)
}

/// A masked IPv4 address is read back as the address it was made from.
pub proof fn law_xor_mapped_v4_roundtrip(ip: u32, port: u16, tx: Seq<u8>)
    ensures
        xor_mapped_address(xor_attribute_v4(ip, port), tx) == Ok::<SocketAddr, Seq<char>>(
            SocketAddr { ip: IpAddr::V4(ip), port },
        ),
{
    let attr = xor_attribute_v4(ip, port);
    let mp = port ^ 0x2112;
    let mi = ip ^ MAGIC_COOKIE;
    lemma_pow256_values();
    crate::codec::lemma_be_bytes_len(mp as nat, 2);
    crate::codec::lemma_be_bytes_len(mi as nat, 4);
    crate::codec::law_be_roundtrip(mp as nat, 2);
    crate::codec::law_be_roundtrip(mi as nat, 4);
    assert(attr.subrange(2, 4) =~= be_bytes(mp as nat, 2));
    assert(attr.subrange(4, 8) =~= be_bytes(mi as nat, 4));
    assert((port ^ 0x2112u16) ^ 0x2112u16 == port) by (bit_vector);
    assert((ip ^ 0x2112_A442u32) ^ 0x2112_A442u32 == ip) by (bit_vector);
}

/// The masked attribute for an IPv6 address in the answer to a transaction.
pub open spec fn xor_attribute_v6(ip: u128, port: u16, tx: Seq<u8>) -> Seq<u8> {
    seq![0u8, 2u8] + be_bytes((port ^ 0x2112) as nat, 2) + masked(
        be_bytes(ip as nat, 16),
        0,
        xor_key(tx),
    )
}

/// A masked IPv6 address is read back, in the same transaction, as the address
/// it was made from.
pub proof fn law_xor_mapped_v6_roundtrip(ip: u128, port: u16, tx: Seq<u8>)
    requires
        tx.len() == 12,
    ensures
        xor_mapped_address(xor_attribute_v6(ip, port, tx), tx) == Ok::<SocketAddr, Seq<char>>(
            SocketAddr { ip: IpAddr::V6(ip), port },
        ),
{
    let attr = xor_attribute_v6(ip, port, tx);
    let key = xor_key(tx);
    let plain = be_bytes(ip as nat, 16);
    let mp = port ^ 0x2112;
    lemma_pow256_values();
    assert(pow256(16) == 0x1_0000_0000_0000_0000 * 0x1_0000_0000_0000_0000) by {
        reveal_with_fuel(pow256, 17);
    }
    crate::codec::lemma_be_bytes_len(mp as nat, 2);
    crate::codec::lemma_be_bytes_len(ip as nat, 16);
    crate::codec::lemma_be_bytes_len(MAGIC_COOKIE as nat, 4);
    crate::codec::law_be_roundtrip(mp as nat, 2);
    crate::codec::law_be_roundtrip(ip as nat, 16);
    assert(attr.subrange(2, 4) =~= be_bytes(mp as nat, 2));
    assert((port ^ 0x2112u16) ^ 0x2112u16 == port) by (bit_vector);
    assert forall|i: int| 0 <= i < 16 implies masked(attr, 4, key)[i] == plain[i] by {
        let p = plain[i];
        let k = key[i];
        assert(attr[4 + i] == p ^ k);
        assert((p ^ k) ^ k == p) by (bit_vector);
    }
    assert(masked(attr, 4, key) =~= plain);
}

/// An attribute on the wire: its kind, the length of its value, the value, and
/// what it is padded with.
pub open spec fn attribute(kind: u16, value: Seq<u8>, padding: Seq<u8>) -> Seq<u8> {
    be_bytes(kind as nat, 2) + be_bytes(value.len(), 2) + value + padding
}

/// A value whose length can be written, padded up to the next multiple of four
/// bytes.
pub open spec fn well_padded(value: Seq<u8>, padding: Seq<u8>) -> bool {
    &&& value.len() <= 0xFFFF
    &&& padding.len() < 4
    &&& (value.len() + padding.len()) % 4 == 0
}

/// Attributes on the wire, one behind the other.
pub open spec fn attributes(list: Seq<(u16, Seq<u8>, Seq<u8>)>) -> Seq<u8>
    decreases list.len(),
{
    if list.len() == 0 {
        Seq::empty()
    } else {
        attribute(list[0].0, list[0].1, list[0].2) + attributes(list.skip(1))
    }
}

/// An attribute that gives no address: neither MAPPED-ADDRESS, which is 0x0001,
/// nor XOR-MAPPED-ADDRESS, which is 0x0020, or one of them that is too short for
/// its family or of a family that is neither IPv4 nor IPv6.
pub open spec fn gives_no_address(kind: u16, value: Seq<u8>) -> bool {
    ||| kind != 0x0001 && kind != 0x0020
    ||| value.len() < 8
    ||| value[1] != 1 && value[1] != 2
    ||| value[1] == 2 && value.len() < 20
}

/// Attributes that give no address.
pub open spec fn of_other_kinds(list: Seq<(u16, Seq<u8>, Seq<u8>)>) -> bool {
    forall|i: int|
        0 <= i < list.len() ==> gives_no_address((#[trigger] list[i]).0, list[i].1) && well_padded(
            list[i].1,
            list[i].2,
        )
}

/// A binding response on the wire: its type, the length of its attributes, the
/// cookie, the transaction and the attributes.
#[verifier::opaque]
pub open spec fn response_bytes(tx: Seq<u8>, attrs: Seq<u8>) -> Seq<u8> {
    be_bytes(0x0101, 2) + be_bytes(attrs.len(), 2) + be_bytes(0x2112_A442, 4) + tx + attrs
}

proof fn lemma_attribute_head(
    data: Seq<u8>,
    off: int,
    end: int,
    kind: u16,
    value: Seq<u8>,
    padding: Seq<u8>,
    rest: Seq<u8>,
)
    requires
        0 <= off <= end <= data.len(),
        well_padded(value, padding),
        data.subrange(off, end) == attribute(kind, value, padding) + rest,
    ensures
        off + 4 + value.len() + padding.len() + rest.len() == end,
        u16_at(data, off) == kind,
        u16_at(data, off + 2) == value.len(),
        data.subrange(off + 4, off + 4 + value.len()) == value,
        data.subrange(off + 4 + value.len() + padding.len(), end) == rest,
{
    let all = attribute(kind, value, padding) + rest;
    let part = data.subrange(off, end);
    lemma_pow256_values();
    crate::codec::lemma_be_bytes_len(kind as nat, 2);
    crate::codec::lemma_be_bytes_len(value.len(), 2);
    crate::codec::law_be_roundtrip(kind as nat, 2);
    crate::codec::law_be_roundtrip(value.len(), 2);
    assert(all.len() == 4 + value.len() + padding.len() + rest.len());
    assert(part.len() == end - off);
    assert(data.subrange(off, off + 2) =~= part.subrange(0, 2));
    assert(part.subrange(0, 2) =~= be_bytes(kind as nat, 2));
    assert(data.subrange(off + 2, off + 4) =~= part.subrange(2, 4));
    assert(part.subrange(2, 4) =~= be_bytes(value.len(), 2));
    assert(data.subrange(off + 4, off + 4 + value.len()) =~= part.subrange(
        4,
        4 + value.len() as int,
    ));
    assert(part.subrange(4, 4 + value.len() as int) =~= value);
    let n = 4 + value.len() + padding.len();
    assert(data.subrange(off + n, end) =~= part.subrange(n as int, end - off));
    assert(part.subrange(n as int, end - off) =~= rest);
}

proof fn lemma_passed_here(
    data: Seq<u8>,
    off: int,
    end: int,
    tx: Seq<u8>,
    kind: u16,
    value: Seq<u8>,
    next: int,
)
    requires
        0 <= off,
        off + 4 + value.len() <= end <= data.len(),
        u16_at(data, off) == kind,
        u16_at(data, off + 2) == value.len(),
        data.subrange(off + 4, off + 4 + value.len()) == value,
        gives_no_address(kind, value),
        next == off + 4 + (value.len() + 3) / 4 * 4,
    ensures
        address_among(data, off, end, tx) == address_among(data, next, end, tx),
{
}

proof fn lemma_others_are_passed(
    data: Seq<u8>,
    off: int,
    end: int,
    tx: Seq<u8>,
    others: Seq<(u16, Seq<u8>, Seq<u8>)>,
    rest: Seq<u8>,
)
    requires
        0 <= off <= end <= data.len(),
        of_other_kinds(others),
        data.subrange(off, end) == attributes(others) + rest,
    ensures
        off + attributes(others).len() + rest.len() == end,
        data.subrange(off + attributes(others).len(), end) == rest,
        address_among(data, off, end, tx) == address_among(
            data,
            off + attributes(others).len(),
            end,
            tx,
        ),
    decreases others.len(),
{
    if others.len() == 0 {
        assert(attributes(others) + rest =~= rest);
        assert(data.subrange(off, end).len() == end - off);
    } else {
        let (kind, value, padding) = others[0];
        let more = others.skip(1);
        assert forall|i: int| 0 <= i < more.len() implies gives_no_address(
            (#[trigger] more[i]).0,
            more[i].1,
        ) && well_padded(more[i].1, more[i].2) by {
            assert(more[i] == others[i + 1]);
        }
        assert(gives_no_address(others[0].0, others[0].1) && well_padded(others[0].1, others[0].2));
        assert(attributes(others) + rest =~= attribute(kind, value, padding) + (attributes(more)
            + rest));
        lemma_attribute_head(data, off, end, kind, value, padding, attributes(more) + rest);
        let next = off + 4 + value.len() + padding.len();
        crate::codec::lemma_be_bytes_len(kind as nat, 2);
        crate::codec::lemma_be_bytes_len(value.len(), 2);
        assert(attribute(kind, value, padding).len() == next - off);
        lemma_others_are_passed(data, next, end, tx, more, rest);
        assert(next == off + 4 + (value.len() + 3) / 4 * 4);
        lemma_passed_here(data, off, end, tx, kind, value, next);
    }
}

proof fn lemma_response_parts(tx: Seq<u8>, attrs: Seq<u8>, extra: Seq<u8>)
    requires
        tx.len() == 12,
        attrs.len() <= 0xFFFF,
    ensures
        ({
            let data = response_bytes(tx, attrs) + extra;
            &&& data.len() >= 20
            &&& u16_at(data, 0) == BINDING_RESPONSE
            &&& be_value(data.subrange(4, 8)) == MAGIC_COOKIE
            &&& data.subrange(8, 20) == tx
            &&& attributes_end(data) == 20 + attrs.len()
            &&& attributes_end(data) <= data.len()
            &&& data.subrange(20, attributes_end(data)) == attrs
        }),
{
    reveal(response_bytes);
    let data = response_bytes(tx, attrs) + extra;
    lemma_pow256_values();
    crate::codec::lemma_be_bytes_len(0x0101, 2);
    crate::codec::lemma_be_bytes_len(attrs.len(), 2);
    crate::codec::lemma_be_bytes_len(0x2112_A442, 4);
    crate::codec::law_be_roundtrip(0x0101, 2);
    crate::codec::law_be_roundtrip(attrs.len(), 2);
    crate::codec::law_be_roundtrip(0x2112_A442, 4);
    assert(data.subrange(0, 2) =~= be_bytes(0x0101, 2));
    assert(data.subrange(2, 4) =~= be_bytes(attrs.len(), 2));
    assert(data.subrange(4, 8) =~= be_bytes(0x2112_A442, 4));
    assert(data.subrange(8, 20) =~= tx);
    assert(data.subrange(20, 20 + attrs.len() as int) =~= attrs);
}

proof fn lemma_address_here(
    data: Seq<u8>,
    off: int,
    end: int,
    tx: Seq<u8>,
    kind: u16,
    value: Seq<u8>,
    addr: SocketAddr,
)
    requires
        0 <= off,
        off + 4 + value.len() <= end <= data.len(),
        u16_at(data, off) == kind,
        u16_at(data, off + 2) == value.len(),
        data.subrange(off + 4, off + 4 + value.len()) == value,
        kind == ATTR_XOR_MAPPED_ADDRESS && xor_mapped_address(value, tx) == Ok::<
            SocketAddr,
            Seq<char>,
        >(addr) || kind == ATTR_MAPPED_ADDRESS && mapped_address(value) == Ok::<
            SocketAddr,
            Seq<char>,
        >(addr),
    ensures
        address_among(data, off, end, tx) == Some(addr),
{
}

proof fn lemma_response_opens(data: Seq<u8>, tx: Seq<u8>)
    requires
        data.len() >= 20,
        u16_at(data, 0) == BINDING_RESPONSE,
        be_value(data.subrange(4, 8)) == MAGIC_COOKIE,
        data.subrange(8, 20) == tx,
    ensures
        response_address(data) is Err <==> address_among(data, 20, attributes_end(data), tx) is None,
        address_among(data, 20, attributes_end(data), tx) matches Some(addr) ==> response_address(data)
            == Ok::<SocketAddr, Seq<char>>(addr),
{
}

proof fn lemma_response_is_read(
    others: Seq<(u16, Seq<u8>, Seq<u8>)>,
    kind: u16,
    value: Seq<u8>,
    padding: Seq<u8>,
    rest: Seq<u8>,
    extra: Seq<u8>,
    tx: Seq<u8>,
    addr: SocketAddr,
)
    requires
        tx.len() == 12,
        of_other_kinds(others),
        well_padded(value, padding),
        (attributes(others) + attribute(kind, value, padding) + rest).len() <= 0xFFFF,
        kind == ATTR_XOR_MAPPED_ADDRESS && xor_mapped_address(value, tx) == Ok::<
            SocketAddr,
            Seq<char>,
        >(addr) || kind == ATTR_MAPPED_ADDRESS && mapped_address(value) == Ok::<
            SocketAddr,
            Seq<char>,
        >(addr),
    ensures
        response_address(
            response_bytes(tx, attributes(others) + attribute(kind, value, padding) + rest) + extra,
        ) == Ok::<SocketAddr, Seq<char>>(addr),
{
    let a = attribute(kind, value, padding);
    let attrs = attributes(others) + a + rest;
    lemma_regroup(attributes(others), a, rest);
    lemma_response_parts(tx, attrs, extra);
    lemma_read_in_data(
        response_bytes(tx, attrs) + extra,
        others,
        kind,
        value,
        padding,
        rest,
        tx,
        addr,
    );
}

proof fn lemma_regroup(a: Seq<u8>, b: Seq<u8>, c: Seq<u8>)
    ensures
        a + b + c == a + (b + c),
{
    assert(a + b + c =~= a + (b + c));
}

proof fn lemma_read_in_data(
    data: Seq<u8>,
    others: Seq<(u16, Seq<u8>, Seq<u8>)>,
    kind: u16,
    value: Seq<u8>,
    padding: Seq<u8>,
    rest: Seq<u8>,
    tx: Seq<u8>,
    addr: SocketAddr,
)
    requires
        data.len() >= 20,
        u16_at(data, 0) == BINDING_RESPONSE,
        be_value(data.subrange(4, 8)) == MAGIC_COOKIE,
        data.subrange(8, 20) == tx,
        20 <= attributes_end(data) <= data.len(),
        data.subrange(20, attributes_end(data)) == attributes(others) + (attribute(
            kind,
            value,
            padding,
        ) + rest),
        of_other_kinds(others),
        well_padded(value, padding),
        kind == ATTR_XOR_MAPPED_ADDRESS && xor_mapped_address(value, tx) == Ok::<
            SocketAddr,
            Seq<char>,
        >(addr) || kind == ATTR_MAPPED_ADDRESS && mapped_address(value) == Ok::<
            SocketAddr,
            Seq<char>,
        >(addr),
    ensures
        response_address(data) == Ok::<SocketAddr, Seq<char>>(addr),
{
    lemma_read_at_end(
        data,
        attributes_end(data),
        others,
        kind,
        value,
        padding,
        rest,
        tx,
        addr,
    );
    lemma_response_opens(data, tx);
}

proof fn lemma_read_at_end(
    data: Seq<u8>,
    end: int,
    others: Seq<(u16, Seq<u8>, Seq<u8>)>,
    kind: u16,
    value: Seq<u8>,
    padding: Seq<u8>,
    rest: Seq<u8>,
    tx: Seq<u8>,
    addr: SocketAddr,
)
    requires
        20 <= end <= data.len(),
        of_other_kinds(others),
        well_padded(value, padding),
        data.subrange(20, end) == attributes(others) + (attribute(kind, value, padding) + rest),
        kind == ATTR_XOR_MAPPED_ADDRESS && xor_mapped_address(value, tx) == Ok::<
            SocketAddr,
            Seq<char>,
        >(addr) || kind == ATTR_MAPPED_ADDRESS && mapped_address(value) == Ok::<
            SocketAddr,
            Seq<char>,
        >(addr),
    ensures
        address_among(data, 20, end, tx) == Some(addr),
{
    let tail = attribute(kind, value, padding) + rest;
    lemma_others_are_passed(data, 20, end, tx, others, tail);
    let off = 20 + attributes(others).len() as int;
    lemma_attribute_head(data, off, end, kind, value, padding, rest);
    lemma_address_here(data, off, end, tx, kind, value, addr);
}

/// A whole response is read back: behind any attributes that give no address, each
/// padded to a multiple of four bytes, the masked IPv4 address is found and
/// comes out as it was; what follows it, and what the datagram holds behind the
/// response, does not matter.
pub proof fn law_masked_v4_is_found_in_response(
    ip: u32,
    port: u16,
    others: Seq<(u16, Seq<u8>, Seq<u8>)>,
    rest: Seq<u8>,
    extra: Seq<u8>,
    tx: Seq<u8>,
)
    requires
        tx.len() == 12,
        of_other_kinds(others),
        (attributes(others) + attribute(0x0020, xor_attribute_v4(ip, port), Seq::empty()) + rest).len()
            <= 0xFFFF,
    ensures
        response_address(
            response_bytes(
                tx,
                attributes(others) + attribute(0x0020, xor_attribute_v4(ip, port), Seq::empty())
                    + rest,
            ) + extra,
        ) == Ok::<SocketAddr, Seq<char>>(SocketAddr { ip: IpAddr::V4(ip), port }),
{
    law_xor_mapped_v4_roundtrip(ip, port, tx);
    crate::codec::lemma_be_bytes_len((port ^ 0x2112) as nat, 2);
    crate::codec::lemma_be_bytes_len((ip ^ MAGIC_COOKIE) as nat, 4);
    lemma_response_is_read(
        others,
        0x0020,
        xor_attribute_v4(ip, port),
        Seq::empty(),
        rest,
        extra,
        tx,
        SocketAddr { ip: IpAddr::V4(ip), port },
    );
}

/// The same of a masked IPv6 address.
pub proof fn law_masked_v6_is_found_in_response(
    ip: u128,
    port: u16,
    others: Seq<(u16, Seq<u8>, Seq<u8>)>,
    rest: Seq<u8>,
    extra: Seq<u8>,
    tx: Seq<u8>,
)
    requires
        tx.len() == 12,
        of_other_kinds(others),
        (attributes(others) + attribute(0x0020, xor_attribute_v6(ip, port, tx), Seq::empty())
            + rest).len() <= 0xFFFF,
    ensures
        response_address(
            response_bytes(
                tx,
                attributes(others) + attribute(0x0020, xor_attribute_v6(ip, port, tx), Seq::empty())
                    + rest,
            ) + extra,
        ) == Ok::<SocketAddr, Seq<char>>(SocketAddr { ip: IpAddr::V6(ip), port }),
{
    law_xor_mapped_v6_roundtrip(ip, port, tx);
    crate::codec::lemma_be_bytes_len((port ^ 0x2112) as nat, 2);
    lemma_response_is_read(
        others,
        0x0020,
        xor_attribute_v6(ip, port, tx),
        Seq::empty(),
        rest,
        extra,
        tx,
        SocketAddr { ip: IpAddr::V6(ip), port },
    );
}

/// The plain attribute for an IPv4 address.
pub open spec fn plain_attribute_v4(ip: u32, port: u16) -> Seq<u8> {
    seq![0u8, 1u8] + be_bytes(port as nat, 2) + be_bytes(ip as nat, 4)
}

/// The plain attribute for an IPv6 address.
pub open spec fn plain_attribute_v6(ip: u128, port: u16) -> Seq<u8> {
    seq![0u8, 2u8] + be_bytes(port as nat, 2) + be_bytes(ip as nat, 16)
}

/// The same of an address that is not masked, as older servers give it.
pub proof fn law_plain_address_is_found_in_response(
    v4: u32,
    v6: u128,
    port: u16,
    others: Seq<(u16, Seq<u8>, Seq<u8>)>,
    rest: Seq<u8>,
    extra: Seq<u8>,
    tx: Seq<u8>,
)
    requires
        tx.len() == 12,
        of_other_kinds(others),
        (attributes(others) + attribute(0x0001, plain_attribute_v6(v6, port), Seq::empty())
            + rest).len() <= 0xFFFF,
    ensures
        response_address(
            response_bytes(
                tx,
                attributes(others) + attribute(0x0001, plain_attribute_v4(v4, port), Seq::empty())
                    + rest,
            ) + extra,
        ) == Ok::<SocketAddr, Seq<char>>(SocketAddr { ip: IpAddr::V4(v4), port }),
        response_address(
            response_bytes(
                tx,
                attributes(others) + attribute(0x0001, plain_attribute_v6(v6, port), Seq::empty())
                    + rest,
            ) + extra,
        ) == Ok::<SocketAddr, Seq<char>>(SocketAddr { ip: IpAddr::V6(v6), port }),
{
    let four = plain_attribute_v4(v4, port);
    let six = plain_attribute_v6(v6, port);
    lemma_pow256_values();
    assert(pow256(16) == 0x1_0000_0000_0000_0000 * 0x1_0000_0000_0000_0000) by {
        reveal_with_fuel(pow256, 17);
    }
    crate::codec::lemma_be_bytes_len(port as nat, 2);
    crate::codec::lemma_be_bytes_len(v4 as nat, 4);
    crate::codec::lemma_be_bytes_len(v6 as nat, 16);
    crate::codec::law_be_roundtrip(port as nat, 2);
    crate::codec::law_be_roundtrip(v4 as nat, 4);
    crate::codec::law_be_roundtrip(v6 as nat, 16);
    assert(four.subrange(2, 4) =~= be_bytes(port as nat, 2));
    assert(four.subrange(4, 8) =~= be_bytes(v4 as nat, 4));
    assert(six.subrange(2, 4) =~= be_bytes(port as nat, 2));
    assert(six.subrange(4, 20) =~= be_bytes(v6 as nat, 16));
    crate::codec::lemma_be_bytes_len(1, 2);
    crate::codec::lemma_be_bytes_len(8, 2);
    crate::codec::lemma_be_bytes_len(20, 2);
    lemma_response_is_read(
        others,
        0x0001,
        four,
        Seq::empty(),
        rest,
        extra,
        tx,
        SocketAddr { ip: IpAddr::V4(v4), port },
    );
    lemma_response_is_read(
        others,
        0x0001,
        six,
        Seq::empty(),
        rest,
        extra,
        tx,
        SocketAddr { ip: IpAddr::V6(v6), port },
    );
}

/// A response without an address is an error.
pub proof fn law_no_address_is_made_up(
    others: Seq<(u16, Seq<u8>, Seq<u8>)>,
    extra: Seq<u8>,
    tx: Seq<u8>,
)
    requires
        tx.len() == 12,
        of_other_kinds(others),
        attributes(others).len() <= 0xFFFF,
    ensures
        response_address(response_bytes(tx, attributes(others)) + extra) is Err,
{
    let attrs = attributes(others);
    let whole = response_bytes(tx, attrs) + extra;
    lemma_response_parts(tx, attrs, extra);
    lemma_response_opens(whole, tx);
    lemma_nothing_among_others(whole, attributes_end(whole), tx, others);
}

/// What is shorter than a header, is of another type or has another cookie is
/// no response.
pub proof fn law_only_responses_are_read(data: Seq<u8>)
    ensures
        response_address(data) is Ok ==> {
            &&& data.len() >= 20
            &&& data[0] == 1
            &&& data[1] == 1
            &&& data[4] == 0x21
            &&& data[5] == 0x12
            &&& data[6] == 0xA4
            &&& data[7] == 0x42
        },
{
    if response_address(data) is Ok {
        lemma_two_bytes(data.subrange(0, 2));
        lemma_four_bytes(data.subrange(4, 8));
    }
}

proof fn lemma_nothing_among_others(
    data: Seq<u8>,
    end: int,
    tx: Seq<u8>,
    others: Seq<(u16, Seq<u8>, Seq<u8>)>,
)
    requires
        20 <= end <= data.len(),
        of_other_kinds(others),
        data.subrange(20, end) == attributes(others),
    ensures
        address_among(data, 20, end, tx) is None,
{
    assert(attributes(others) + Seq::<u8>::empty() =~= attributes(others));
    lemma_others_are_passed(data, 20, end, tx, others, Seq::empty());
}

proof fn lemma_two_bytes(s: Seq<u8>)
    requires
        s.len() == 2,
    ensures
        be_value(s) == s[0] * 256 + s[1],
{
    reveal_with_fuel(be_value, 3);
    assert(s.drop_last().drop_last() =~= Seq::empty());
}

proof fn lemma_four_bytes(s: Seq<u8>)
    requires
        s.len() == 4,
    ensures
        be_value(s) == ((s[0] * 256 + s[1]) * 256 + s[2]) * 256 + s[3],
{
    reveal_with_fuel(be_value, 5);
    assert(s.drop_last().drop_last().drop_last().drop_last() =~= Seq::empty());
}

/// An answer is taken only from the server that was asked and for the
/// transaction that was asked in, and then it is taken.
pub proof fn law_only_the_answer_is_taken(
    from: SocketAddr,
    server: SocketAddr,
    asked: Seq<u8>,
    tx: Seq<u8>,
    attrs: Seq<u8>,
)
    requires
        tx.len() == 12,
        attrs.len() <= 0xFFFF,
    ensures
        answers(from, server, response_bytes(tx, attrs), asked) <==> from == server && tx == asked,
{
    lemma_response_parts(tx, attrs, Seq::empty());
    assert(response_bytes(tx, attrs) + Seq::<u8>::empty() =~= response_bytes(tx, attrs));
}

/// A request can be told from anything else: twenty bytes, of the type of a
/// binding request, without attributes, with the cookie, and with its
/// transaction at the end.
pub proof fn law_request_is_a_header(tx: Seq<u8>)
    requires
        tx.len() == 12,
    ensures
        request_bytes(tx).len() == 20,
        request_bytes(tx).take(8) == seq![0u8, 1u8, 0u8, 0u8, 0x21u8, 0x12u8, 0xA4u8, 0x42u8],
        request_bytes(tx).skip(8) == tx,
{
    reveal_with_fuel(be_bytes, 5);
    crate::codec::lemma_be_bytes_len(BINDING_REQUEST as nat, 2);
    crate::codec::lemma_be_bytes_len(0, 2);
    crate::codec::lemma_be_bytes_len(MAGIC_COOKIE as nat, 4);
    assert(request_bytes(tx).take(8) =~= seq![
        0u8,
        1u8,
        0u8,
        0u8,
        0x21u8,
        0x12u8,
        0xA4u8,
        0x42u8,
    ]);
    assert(request_bytes(tx).skip(8) =~= tx);
}

/// A NAT can be punched exactly where two servers see the same port; then the
/// address to announce is the one that the first server saw.
pub proof fn law_nat_is_punchable_where_ports_agree(a: SocketAddr, b: SocketAddr)
    ensures
        nat_class(a, b) is Symmetric <==> a.port != b.port,
        nat_class(a, b) matches NatClass::Cone { public } ==> public == a,
        (nat_class(a, b) is Symmetric) == (nat_class(b, a) is Symmetric),
{
}

/// While an answer is waited for, a datagram that is not the answer is ignored,
/// and the answer is read for the address in it.
pub proof fn law_answers_are_read_and_others_ignored(
    from: SocketAddr,
    server: SocketAddr,
    data: &[u8],
    tx: [u8; 12],
    r: Option<Result<SocketAddr>>,
)
    requires
        call_ensures(on_datagram, (from, server, data, &tx), r),
    ensures
        r is Some <==> from == server && data@.len() >= 20 && data@.subrange(8, 20) == tx@,
        r is Some ==> (r->0 is Ok <==> response_address(data@) is Ok),
        r is Some && r->0 is Ok ==> r->0->Ok_0 == response_address(data@)->Ok_0,
{
}

} // verus!
