//! Header parsing over raw packet bytes, one layer at a time.
use vstd::prelude::*;
use crate::predicate::{BinOp, FieldName, ProtocolName};

verus! {

/// A parsed header: its protocol, where it starts, and where its payload starts.
#[derive(Clone, Copy, Debug, PartialEq, Eq, Structural)]
pub struct Layer {
    pub protocol: ProtocolName,
    pub start: usize,
    pub payload: usize,
}

/// The big-endian 16-bit value at `at`.
pub open spec fn be16(pkt: Seq<u8>, at: int) -> u64 {
    ((pkt[at] as u64) * 256 + (pkt[at + 1] as u64)) as u64
}

/// EtherType of an IPv4 payload.
pub const ETHERTYPE_IPV4: u64 = 0x0800;
/// EtherType of an IPv6 payload.
pub const ETHERTYPE_IPV6: u64 = 0x86dd;
/// IP protocol number of TCP.
pub const IP_PROTO_TCP: u8 = 6;
/// IP protocol number of UDP.
pub const IP_PROTO_UDP: u8 = 17;

/// The outermost header, an Ethernet header of 14 bytes.
pub open spec fn parse_ethernet_spec(pkt: Seq<u8>) -> Option<Layer> {
    if pkt.len() >= 14 {
        Some(Layer { protocol: ProtocolName::Ethernet, start: 0, payload: 14 })
    } else {
        None
    }
}

/// The transport protocol number that an IP header announces.
pub open spec fn ip_next(pkt: Seq<u8>, outer: Layer) -> Option<u8> {
    if outer.protocol == ProtocolName::Ipv4 && outer.start + 10 <= pkt.len() {
        Some(pkt[outer.start + 9])
    } else if outer.protocol == ProtocolName::Ipv6 && outer.start + 7 <= pkt.len() {
        Some(pkt[outer.start + 6])
    } else {
        None
    }
}

/// Parses a header of protocol `p` from the payload of `outer`.
pub open spec fn parse_next_spec(pkt: Seq<u8>, outer: Layer, p: ProtocolName) -> Option<Layer> {
    let o = outer.payload as int;
    let n = pkt.len() as int;
    match p {
        ProtocolName::Ipv4 => if outer.protocol == ProtocolName::Ethernet && outer.start + 14
            <= n && be16(pkt, outer.start + 12) == ETHERTYPE_IPV4 && o + 20 <= n && pkt[o] / 16
            == 4 && pkt[o] % 16 >= 5 && o + (pkt[o] % 16) * 4 <= n {
            Some(
                Layer {
                    protocol: ProtocolName::Ipv4,
                    start: o as usize,
                    payload: (o + (pkt[o] % 16) * 4) as usize,
                },
            )
        } else {
            None
        },
        ProtocolName::Ipv6 => if outer.protocol == ProtocolName::Ethernet && outer.start + 14
            <= n && be16(pkt, outer.start + 12) == ETHERTYPE_IPV6 && o + 40 <= n && pkt[o] / 16
            == 6 {
            Some(Layer { protocol: ProtocolName::Ipv6, start: o as usize, payload: (o + 40) as usize })
        } else {
            None
        },
        ProtocolName::Tcp => if ip_next(pkt, outer) == Some(IP_PROTO_TCP) && o + 20 <= n
            && pkt[o + 12] / 16 >= 5 && o + (pkt[o + 12] / 16) * 4 <= n {
            Some(
                Layer {
                    protocol: ProtocolName::Tcp,
                    start: o as usize,
                    payload: (o + (pkt[o + 12] / 16) * 4) as usize,
                },
            )
        } else {
            None
        },
        ProtocolName::Udp => if ip_next(pkt, outer) == Some(IP_PROTO_UDP) && o + 8 <= n {
            Some(Layer { protocol: ProtocolName::Udp, start: o as usize, payload: (o + 8) as usize })
        } else {
            None
        },
        _ => None,
    }
}

/// The value of `field` in the header `layer`, if that header has it (`Port` reads the source).
pub open spec fn field_value(pkt: Seq<u8>, layer: Layer, field: FieldName) -> Option<u64> {
    let s = layer.start as int;
    match field {
        FieldName::Ttl => if layer.protocol == ProtocolName::Ipv4 && s + 20 <= pkt.len() {
            Some(pkt[s + 8] as u64)
        } else {
            None
        },
        FieldName::SrcPort | FieldName::Port => if (layer.protocol == ProtocolName::Tcp
            || layer.protocol == ProtocolName::Udp) && s + 8 <= pkt.len() {
            Some(be16(pkt, s))
        } else {
            None
        },
        FieldName::DstPort => if (layer.protocol == ProtocolName::Tcp || layer.protocol
            == ProtocolName::Udp) && s + 8 <= pkt.len() {
            Some(be16(pkt, s + 2))
        } else {
            None
        },
    }
}

pub open spec fn compare(op: BinOp, a: u64, b: u64) -> bool {
    match op {
        BinOp::Eq => a == b,
        BinOp::Ne => a != b,
        BinOp::Lt => a < b,
        BinOp::Le => a <= b,
        BinOp::Gt => a > b,
        BinOp::Ge => a >= b,
    }
}

/// Does `field op value` hold of the header `layer` of `protocol`?
pub open spec fn binary_holds(
    pkt: Seq<u8>,
    layer: Layer,
    protocol: ProtocolName,
    field: FieldName,
    op: BinOp,
    value: u64,
) -> bool {
    layer.protocol == protocol && match field {
        FieldName::Port => (match field_value(pkt, layer, FieldName::SrcPort) {
            Some(v) => compare(op, v, value),
            None => false,
        }) || (match field_value(pkt, layer, FieldName::DstPort) {
            Some(v) => compare(op, v, value),
            None => false,
        }),
        _ => match field_value(pkt, layer, field) {
            Some(v) => compare(op, v, value),
            None => false,
        },
    }
}

fn read_be16(pkt: &[u8], at: usize) -> (r: u64)
    requires
        at + 2 <= pkt@.len(),
    ensures
        r == be16(pkt@, at as int),
{
    (pkt[at] as u64) * 256 + (pkt[at + 1] as u64)
}

pub fn parse_ethernet(pkt: &[u8]) -> (r: Option<Layer>)
    ensures
        r == parse_ethernet_spec(pkt@),
{
    if pkt.len() >= 14 {
        Some(Layer { protocol: ProtocolName::Ethernet, start: 0, payload: 14 })
    } else {
        None
    }
}

fn ip_next_exec(pkt: &[u8], outer: Layer) -> (r: Option<u8>)
    ensures
        r == ip_next(pkt@, outer),
{
    let n = pkt.len();
    if outer.protocol == ProtocolName::Ipv4 && outer.start <= n && n - outer.start >= 10 {
        Some(pkt[outer.start + 9])
    } else if outer.protocol == ProtocolName::Ipv6 && outer.start <= n && n - outer.start >= 7 {
        Some(pkt[outer.start + 6])
    } else {
        None
    }
}

/// Parses a header of protocol `p` from the payload of `outer`; `None` when it is not there.
pub fn parse_next(pkt: &[u8], outer: Layer, p: ProtocolName) -> (r: Option<Layer>)
    ensures
        r == parse_next_spec(pkt@, outer, p),
{
    let n = pkt.len();
    let o = outer.payload;
    match p {
        ProtocolName::Ipv4 => {
            if outer.protocol == ProtocolName::Ethernet && outer.start <= n && n - outer.start
                >= 14 && read_be16(pkt, outer.start + 12) == ETHERTYPE_IPV4 && o <= n && n - o
                >= 20 && pkt[o] / 16 == 4 && pkt[o] % 16 >= 5 && ((pkt[o] % 16) as usize) * 4
                <= n - o {
                Some(
                    Layer {
                        protocol: ProtocolName::Ipv4,
                        start: o,
                        payload: o + ((pkt[o] % 16) as usize) * 4,
                    },
                )
            } else {
                None
            }
        },
        ProtocolName::Ipv6 => {
            if outer.protocol == ProtocolName::Ethernet && outer.start <= n && n - outer.start
                >= 14 && read_be16(pkt, outer.start + 12) == ETHERTYPE_IPV6 && o <= n && n - o
                >= 40 && pkt[o] / 16 == 6 {
                Some(Layer { protocol: ProtocolName::Ipv6, start: o, payload: o + 40 })
            } else {
                None
            }
        },
        ProtocolName::Tcp => {
            if ip_next_exec(pkt, outer) == Some(IP_PROTO_TCP) && o <= n && n - o >= 20 && pkt[o
                + 12] / 16 >= 5 && ((pkt[o + 12] / 16) as usize) * 4 <= n - o {
                Some(
                    Layer {
                        protocol: ProtocolName::Tcp,
                        start: o,
                        payload: o + ((pkt[o + 12] / 16) as usize) * 4,
                    },
                )
            } else {
                None
            }
        },
        ProtocolName::Udp => {
            if ip_next_exec(pkt, outer) == Some(IP_PROTO_UDP) && o <= n && n - o >= 8 {
                Some(Layer { protocol: ProtocolName::Udp, start: o, payload: o + 8 })
            } else {
                None
            }
        },
        _ => None,
    }
}

fn read_field(pkt: &[u8], layer: Layer, field: FieldName) -> (r: Option<u64>)
    ensures
        r == field_value(pkt@, layer, field),
{
    let s = layer.start;
    let n = pkt.len();
    match field {
        FieldName::Ttl => if layer.protocol == ProtocolName::Ipv4 && s <= n && n - s >= 20 {
            Some(pkt[s + 8] as u64)
        } else {
            None
        },
        FieldName::SrcPort | FieldName::Port => if (layer.protocol == ProtocolName::Tcp
            || layer.protocol == ProtocolName::Udp) && s <= n && n - s >= 8 {
            Some(read_be16(pkt, s))
        } else {
            None
        },
        FieldName::DstPort => if (layer.protocol == ProtocolName::Tcp || layer.protocol
            == ProtocolName::Udp) && s <= n && n - s >= 8 {
            Some(read_be16(pkt, s + 2))
        } else {
            None
        },
    }
}

pub fn compare_exec(op: BinOp, a: u64, b: u64) -> (r: bool)
    ensures
        r == compare(op, a, b),
{
    match op {
        BinOp::Eq => a == b,
        BinOp::Ne => a != b,
        BinOp::Lt => a < b,
        BinOp::Le => a <= b,
        BinOp::Gt => a > b,
        BinOp::Ge => a >= b,
    }
}

fn field_compare(pkt: &[u8], layer: Layer, field: FieldName, op: BinOp, value: u64) -> (r: bool)
    ensures
        r == match field_value(pkt@, layer, field) {
            Some(v) => compare(op, v, value),
            None => false,
        },
{
    match read_field(pkt, layer, field) {
        Some(v) => compare_exec(op, v, value),
        None => false,
    }
}

/// Tests a field predicate against the header `layer`.
pub fn test_binary(
    pkt: &[u8],
    layer: Layer,
    protocol: ProtocolName,
    field: FieldName,
    op: BinOp,
    value: u64,
) -> (r: bool)
    ensures
        r == binary_holds(pkt@, layer, protocol, field, op, value),
{
    if layer.protocol != protocol {
        return false;
    }
    match field {
        FieldName::Port => field_compare(pkt, layer, FieldName::SrcPort, op, value)
            || field_compare(pkt, layer, FieldName::DstPort, op, value),
        _ => field_compare(pkt, layer, field, op, value),
    }
}

/// Two different protocols are never both found at one position of a packet.
pub proof fn lemma_parse_exclusive(pkt: Seq<u8>, outer: Layer, first: ProtocolName, second: ProtocolName)
    requires
        parse_next_spec(pkt, outer, first) is Some,
        parse_next_spec(pkt, outer, second) is Some,
    ensures
        first == second,
{
}

} // verus!
