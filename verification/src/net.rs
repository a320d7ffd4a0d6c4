use vstd::prelude::*;

verus! {

/// An IP address held as plain integers: a 32-bit word for IPv4, a 128-bit
/// word for IPv6.
#[derive(Clone, Copy, Debug, PartialEq, Eq, Hash, Structural)]
pub enum IpAddrRepr {
    V4(u32),
    V6(u128),
}

/// A socket address: an IP address plus a 16-bit port.
#[derive(Clone, Copy, Debug, PartialEq, Eq, Hash, Structural)]
pub struct SockAddr {
    pub ip: IpAddrRepr,
    pub port: u16,
}

/// The two 64-bit halves of a wire-format IPv6 address, in big-endian order:
/// `first` holds the upper bits, `last` the lower.
#[derive(Clone, Copy, Debug, PartialEq, Eq, Structural)]
pub struct Ipv6Pair {
    pub first: u64,
    pub last: u64,
}

/// A wire-format IP value: IPv4 as one 32-bit word, IPv6 as two 64-bit halves.
#[derive(Clone, Copy, Debug, PartialEq, Eq, Structural)]
pub enum WireIp {
    V4(u32),
    V6(Ipv6Pair),
}

/// The wire envelope around an IP value; the value itself may be missing.
#[derive(Clone, Copy, Debug, PartialEq, Eq, Structural)]
pub struct WireIpAddress {
    pub ip: Option<WireIp>,
}

/// A wire-format TCP address: an optional IP envelope and a port carried in a
/// 32-bit field, of which only the low 16 bits are meaningful.
#[derive(Clone, Copy, Debug, PartialEq, Eq, Structural)]
pub struct TcpAddress {
    pub ip: Option<WireIpAddress>,
    pub port: u32,
}

/// The upper 64 bits of an IPv6 address.
pub open spec fn ipv6_first_half(ip: u128) -> u64 {
    ((ip >> 64) & 0xffff_ffff_ffff_ffff) as u64
}

/// The lower 64 bits of an IPv6 address.
pub open spec fn ipv6_last_half(ip: u128) -> u64 {
    (ip & 0xffff_ffff_ffff_ffff) as u64
}

/// The IPv6 address denoted by two wire halves.
pub open spec fn ipv6_join_spec(first: u64, last: u64) -> u128 {
    (((first as u128) << 64) | (last as u128)) as u128
}

/// A port carried in a 32-bit wire field, narrowed to its low 16 bits.
pub open spec fn truncated_port(p: u32) -> u16 {
    (p % 0x1_0000) as u16
}

/// Joins the two 64-bit halves of a wire IPv6 address into one 128-bit value.
pub fn ipv6_from_halves(first: u64, last: u64) -> (ip: u128)
    ensures
        ip == ipv6_join_spec(first, last),
        ipv6_first_half(ip) == first,
        ipv6_last_half(ip) == last,
{
    let ip: u128 = ((first as u128) << 64) | (last as u128);
    proof {
        lemma_ipv6_split_of_join(first, last);
    }
    ip
}

/// Splits an IPv6 address into the two 64-bit halves that the wire carries.
pub fn ipv6_to_halves(ip: u128) -> (halves: Ipv6Pair)
    ensures
        halves.first == ipv6_first_half(ip),
        halves.last == ipv6_last_half(ip),
        ipv6_join_spec(halves.first, halves.last) == ip,
{
    let first: u64 = ((ip >> 64) & 0xffff_ffff_ffff_ffff) as u64;
    let last: u64 = (ip & 0xffff_ffff_ffff_ffff) as u64;
    proof {
        lemma_ipv6_join_of_split(ip);
    }
    Ipv6Pair { first, last }
}

/// Splitting an IPv6 address into wire halves and joining them back is the
/// identity on the address.
pub proof fn lemma_ipv6_join_of_split(ip: u128)
    ensures
        ipv6_join_spec(ipv6_first_half(ip), ipv6_last_half(ip)) == ip,
{
    assert(((((((ip >> 64) & 0xffff_ffff_ffff_ffff) as u64) as u128) << 64) | (((ip
        & 0xffff_ffff_ffff_ffff) as u64) as u128)) as u128 == ip) by (bit_vector);
}

/// Joining two wire halves into an IPv6 address and splitting it back is the
/// identity on the halves.
pub proof fn lemma_ipv6_split_of_join(first: u64, last: u64)
    ensures
        ipv6_first_half(ipv6_join_spec(first, last)) == first,
        ipv6_last_half(ipv6_join_spec(first, last)) == last,
{
    let ip = ipv6_join_spec(first, last);
    assert((((((first as u128) << 64) | (last as u128)) as u128 >> 64)
        & 0xffff_ffff_ffff_ffff) as u64 == first) by (bit_vector);
    assert((((((first as u128) << 64) | (last as u128)) as u128)
        & 0xffff_ffff_ffff_ffff) as u64 == last) by (bit_vector);
}

/// The socket address a wire TCP address decodes to, if it carries an IP.
pub open spec fn decoded_sock_addr(pb: TcpAddress) -> Option<SockAddr> {
    match pb.ip {
        Some(envelope) => match envelope.ip {
            Some(WireIp::V4(octets)) => Some(
                SockAddr { ip: IpAddrRepr::V4(octets), port: truncated_port(pb.port) },
            ),
            Some(WireIp::V6(halves)) => Some(
                SockAddr {
                    ip: IpAddrRepr::V6(ipv6_join_spec(halves.first, halves.last)),
                    port: truncated_port(pb.port),
                },
            ),
            None => None,
        },
        None => None,
    }
}

/// Decodes a wire TCP address into a socket address. A missing IP value or a
/// missing IP envelope drops the entry; the port is narrowed to 16 bits.
pub fn pb_to_sock_addr(pb: &TcpAddress) -> (r: Option<SockAddr>)
    ensures
        r == decoded_sock_addr(*pb),
{
    let wide: u32 = pb.port;
    let port: u16 = #[verifier::truncate] (wide as u16);
    proof {
        assert(port == (wide % 0x1_0000) as u16) by (bit_vector)
            requires
                port == wide as u16,
        ;
    }
    match &pb.ip {
        Some(envelope) => match &envelope.ip {
            Some(WireIp::V4(octets)) => Some(SockAddr { ip: IpAddrRepr::V4(*octets), port }),
            Some(WireIp::V6(halves)) => Some(
                SockAddr { ip: IpAddrRepr::V6(ipv6_from_halves(halves.first, halves.last)), port },
            ),
            None => None,
        },
        None => None,
    }
}

} // verus!
