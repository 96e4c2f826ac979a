//! Protocol names, header fields, comparison operators and predicates.
use vstd::prelude::*;

verus! {

/// A protocol layer.
#[derive(Clone, Copy, Debug, PartialEq, Eq, Structural)]
pub enum ProtocolName {
    Ethernet,
    Ipv4,
    Ipv6,
    Tcp,
    Udp,
    Dns,
    Tls,
}

/// A field within a protocol header. `Port` matches either source or destination port.
///
/// Every field the packet-level layers carry here is an integer of at most 16 bits, so
/// a literal is a `u64` and each test is one integer comparison made on the spot: no
/// address, byte-string or pattern literal exists that would need precompiling into a
/// shared constant table.
#[derive(Clone, Copy, Debug, PartialEq, Eq, Structural)]
pub enum FieldName {
    Ttl,
    SrcPort,
    DstPort,
    Port,
}

/// A comparison operator between a header field and a literal.
#[derive(Clone, Copy, Debug, PartialEq, Eq, Structural)]
pub enum BinOp {
    Eq,
    Ne,
    Lt,
    Le,
    Gt,
    Ge,
}

/// How a node of the predicate tree is reached from its parent.
#[derive(Clone, Copy, Debug, PartialEq, Eq, Structural)]
pub enum Predicate {
    /// The next layer is `protocol`.
    Unary { protocol: ProtocolName },
    /// `field` of `protocol`'s header satisfies `op value`.
    Binary { protocol: ProtocolName, field: FieldName, op: BinOp, value: u64 },
}

/// Whether every predicate on the path to a node can be evaluated from one packet's
/// bytes (`Packet`) or some needs state beyond the packet (`Connection`). This alone
/// gives a node no verdict; a node has one only when it is resolved at packet level and
/// some filter's packet-level conditions end there (see `classify::emits`).
#[derive(Clone, Copy, Debug, PartialEq, Eq, Structural)]
pub enum Terminate {
    Packet,
    Connection,
}

/// A malformed filter.
#[derive(Clone, Copy, Debug, PartialEq, Eq, Structural)]
pub enum FilterError {
    /// The protocol cannot follow the layer reached so far.
    InvalidLayer,
    /// A field predicate names a protocol other than the current layer.
    ProtocolMismatch,
    /// The protocol has no such field.
    UnknownField,
    /// The literal cannot be held by the field.
    ValueOutOfRange,
    /// Two tests at one layer require a field to equal two different values.
    Contradictory,
}

/// Can `next` be parsed from the payload of `cur`?
pub open spec fn follows(cur: ProtocolName, next: ProtocolName) -> bool {
    match next {
        ProtocolName::Ipv4 | ProtocolName::Ipv6 => cur == ProtocolName::Ethernet,
        ProtocolName::Tcp | ProtocolName::Udp => cur == ProtocolName::Ipv4 || cur
            == ProtocolName::Ipv6,
        ProtocolName::Tls => cur == ProtocolName::Tcp,
        ProtocolName::Dns => cur == ProtocolName::Udp,
        ProtocolName::Ethernet => false,
    }
}

/// Largest value of `field` in `protocol`'s header, if the header has the field.
pub open spec fn field_max(protocol: ProtocolName, field: FieldName) -> Option<u64> {
    match (protocol, field) {
        (ProtocolName::Ipv4, FieldName::Ttl) => Some(255),
        (ProtocolName::Tcp, FieldName::SrcPort) | (ProtocolName::Tcp, FieldName::DstPort) | (
            ProtocolName::Tcp,
            FieldName::Port,
        ) => Some(65535),
        (ProtocolName::Udp, FieldName::SrcPort) | (ProtocolName::Udp, FieldName::DstPort) | (
            ProtocolName::Udp,
            FieldName::Port,
        ) => Some(65535),
        _ => None,
    }
}

/// The protocols whose predicates can be evaluated from the bytes of one packet.
pub open spec fn packet_level(p: ProtocolName) -> bool {
    !(p == ProtocolName::Dns || p == ProtocolName::Tls)
}

pub open spec fn on_packet_spec(pred: Predicate) -> bool {
    match pred {
        Predicate::Unary { protocol } => packet_level(protocol),
        Predicate::Binary { protocol, .. } => packet_level(protocol),
    }
}

/// What is wrong with `pred` when it follows a layer of protocol `cur`.
pub open spec fn pred_error(cur: ProtocolName, pred: Predicate) -> Option<FilterError> {
    match pred {
        Predicate::Unary { protocol } => if follows(cur, protocol) {
            None
        } else {
            Some(FilterError::InvalidLayer)
        },
        Predicate::Binary { protocol, field, value, .. } => if protocol != cur {
            Some(FilterError::ProtocolMismatch)
        } else {
            match field_max(protocol, field) {
                None => Some(FilterError::UnknownField),
                Some(m) => if value > m {
                    Some(FilterError::ValueOutOfRange)
                } else {
                    None
                },
            }
        },
    }
}

/// `a` and `b` require one field of one header to equal two different values. (`Port`
/// is left out: it matches either port, so two values can both hold.)
pub open spec fn clash(a: Predicate, b: Predicate) -> bool {
    match (a, b) {
        (
            Predicate::Binary { protocol: pa, field: fa, op: oa, value: va },
            Predicate::Binary { protocol: pb, field: fb, op: ob, value: vb },
        ) => oa == BinOp::Eq && ob == BinOp::Eq && pa == pb && fa == fb && fa != FieldName::Port
            && va != vb,
        _ => false,
    }
}

/// No protocol predicate stands between positions `m` and `k` (after `m`, up to `k`):
/// both test the same header.
pub open spec fn same_layer(chain: Seq<Predicate>, m: int, k: int) -> bool {
    forall|x: int| m < x <= k ==> #[trigger] chain[x] is Binary
}

/// Predicate `k` of `chain` clashes with an earlier test of the same header.
pub open spec fn contradicts(chain: Seq<Predicate>, k: int) -> bool {
    exists|m: int| 0 <= m < k && same_layer(chain, m, k) && #[trigger] clash(chain[m], chain[k])
}

/// The layer reached after the first `n` predicates of `chain`.
pub open spec fn layer_after(chain: Seq<Predicate>, n: nat) -> ProtocolName
    decreases n,
{
    if n == 0 || n > chain.len() {
        ProtocolName::Ethernet
    } else {
        match chain[n - 1] {
            Predicate::Unary { protocol } => protocol,
            Predicate::Binary { .. } => layer_after(chain, (n - 1) as nat),
        }
    }
}

/// The first error among the first `n` predicates of `chain`.
pub open spec fn chain_error_upto(chain: Seq<Predicate>, n: nat) -> Option<FilterError>
    decreases n,
{
    if n == 0 || n > chain.len() {
        None
    } else {
        match chain_error_upto(chain, (n - 1) as nat) {
            Some(e) => Some(e),
            None => match pred_error(layer_after(chain, (n - 1) as nat), chain[n - 1]) {
                Some(e) => Some(e),
                None => if contradicts(chain, n - 1) {
                    Some(FilterError::Contradictory)
                } else {
                    None
                },
            },
        }
    }
}

pub open spec fn chain_error(chain: Seq<Predicate>) -> Option<FilterError> {
    chain_error_upto(chain, chain.len())
}

impl ProtocolName {
    pub fn follows_layer(cur: ProtocolName, next: ProtocolName) -> (r: bool)
        ensures
            r == follows(cur, next),
    {
        match next {
            ProtocolName::Ipv4 | ProtocolName::Ipv6 => cur == ProtocolName::Ethernet,
            ProtocolName::Tcp | ProtocolName::Udp => cur == ProtocolName::Ipv4 || cur
                == ProtocolName::Ipv6,
            ProtocolName::Tls => cur == ProtocolName::Tcp,
            ProtocolName::Dns => cur == ProtocolName::Udp,
            ProtocolName::Ethernet => false,
        }
    }

    pub fn is_packet_level(self) -> (r: bool)
        ensures
            r == packet_level(self),
    {
        !(self == ProtocolName::Dns || self == ProtocolName::Tls)
    }
}

impl Predicate {
    /// The protocol this predicate is about.
    pub fn get_protocol(&self) -> (r: ProtocolName)
        ensures
            r == match *self {
                Predicate::Unary { protocol } => protocol,
                Predicate::Binary { protocol, .. } => protocol,
            },
    {
        match *self {
            Predicate::Unary { protocol } => protocol,
            Predicate::Binary { protocol, .. } => protocol,
        }
    }

    /// Can this predicate be evaluated from a single packet's bytes?
    pub fn on_packet(&self) -> (r: bool)
        ensures
            r == on_packet_spec(*self),
    {
        self.get_protocol().is_packet_level()
    }

    pub fn is_unary(&self) -> (r: bool)
        ensures
            r == (*self is Unary),
    {
        match self {
            Predicate::Unary { .. } => true,
            Predicate::Binary { .. } => false,
        }
    }
}

pub fn field_limit(protocol: ProtocolName, field: FieldName) -> (r: Option<u64>)
    ensures
        r == field_max(protocol, field),
{
    match (protocol, field) {
        (ProtocolName::Ipv4, FieldName::Ttl) => Some(255),
        (ProtocolName::Tcp, FieldName::SrcPort) | (ProtocolName::Tcp, FieldName::DstPort) | (
            ProtocolName::Tcp,
            FieldName::Port,
        ) => Some(65535),
        (ProtocolName::Udp, FieldName::SrcPort) | (ProtocolName::Udp, FieldName::DstPort) | (
            ProtocolName::Udp,
            FieldName::Port,
        ) => Some(65535),
        _ => None,
    }
}

/// Checks one predicate that follows a layer of protocol `cur`.
pub fn check_pred(cur: ProtocolName, pred: Predicate) -> (r: Option<FilterError>)
    ensures
        r == pred_error(cur, pred),
{
    match pred {
        Predicate::Unary { protocol } => if ProtocolName::follows_layer(cur, protocol) {
            None
        } else {
            Some(FilterError::InvalidLayer)
        },
        Predicate::Binary { protocol, field, value, .. } => if protocol != cur {
            Some(FilterError::ProtocolMismatch)
        } else {
            match field_limit(protocol, field) {
                None => Some(FilterError::UnknownField),
                Some(m) => if value > m {
                    Some(FilterError::ValueOutOfRange)
                } else {
                    None
                },
            }
        },
    }
}

fn clash_exec(a: Predicate, b: Predicate) -> (r: bool)
    ensures
        r == clash(a, b),
{
    match (a, b) {
        (
            Predicate::Binary { protocol: pa, field: fa, op: oa, value: va },
            Predicate::Binary { protocol: pb, field: fb, op: ob, value: vb },
        ) => oa == BinOp::Eq && ob == BinOp::Eq && pa == pb && fa == fb && fa != FieldName::Port
            && va != vb,
        _ => false,
    }
}

/// Does predicate `k` clash with an earlier test of the same header?
pub fn find_clash(chain: &Vec<Predicate>, k: usize) -> (r: bool)
    requires
        k < chain@.len(),
    ensures
        r == contradicts(chain@, k as int),
{
    let last = chain[k];
    if !last.is_unary() {
        let mut m: usize = k;
        while m > 0
            invariant
                m <= k < chain@.len(),
                last == chain@[k as int],
                forall|x: int| m <= x <= k ==> #[trigger] chain@[x] is Binary,
                forall|y: int| m <= y < k ==> !clash(#[trigger] chain@[y], last),
            decreases m,
        {
            let p = chain[m - 1];
            if clash_exec(p, last) {
                proof {
                    assert(same_layer(chain@, m - 1, k as int));
                }
                return true;
            }
            if p.is_unary() {
                proof {
                    assert forall|w: int|
                        0 <= w < k && same_layer(chain@, w, k as int) implies !clash(
                        #[trigger] chain@[w],
                        chain@[k as int],
                    ) by {
                        if w < m - 1 {
                            assert(chain@[m - 1] is Binary);
                        }
                    }
                }
                return false;
            }
            m = m - 1;
        }
        false
    } else {
        false
    }
}

/// Checks a whole predicate chain, reporting its first error.
pub fn check_chain(chain: &Vec<Predicate>) -> (r: Option<FilterError>)
    ensures
        r == chain_error(chain@),
{
    let mut cur = ProtocolName::Ethernet;
    let mut i: usize = 0;
    while i < chain.len()
        invariant
            0 <= i <= chain.len(),
            cur == layer_after(chain@, i as nat),
            chain_error_upto(chain@, i as nat) == None::<FilterError>,
        decreases chain.len() - i,
    {
        let pred = chain[i];
        let found = match check_pred(cur, pred) {
            Some(e) => Some(e),
            None => if find_clash(chain, i) {
                Some(FilterError::Contradictory)
            } else {
                None
            },
        };
        match found {
            Some(e) => {
                proof {
                    assert(chain_error_upto(chain@, (i + 1) as nat) == Some(e));
                    lemma_error_sticks(chain@, (i + 1) as nat, chain@.len());
                }
                return Some(e);
            },
            None => {},
        }
        if let Predicate::Unary { protocol } = pred {
            cur = protocol;
        }
        i = i + 1;
    }
    None
}

/// Once a prefix of a chain has an error, every longer prefix reports the same error.
pub proof fn lemma_error_sticks(chain: Seq<Predicate>, m: nat, n: nat)
    requires
        m <= n <= chain.len(),
        chain_error_upto(chain, m) is Some,
    ensures
        chain_error_upto(chain, n) == chain_error_upto(chain, m),
    decreases n - m,
{
    if m < n {
        lemma_error_sticks(chain, m, (n - 1) as nat);
    }
}

} // verus!
