use packet_filter::classify::{Classifier, FilterResult};
use packet_filter::predicate::{check_chain, BinOp, FieldName, FilterError, Predicate, ProtocolName};
use packet_filter::predicate::Terminate;
use packet_filter::ptree::{PNode, PTree};

fn unary(p: ProtocolName) -> Predicate {
    Predicate::Unary { protocol: p }
}

fn binary(p: ProtocolName, field: FieldName, op: BinOp, value: u64) -> Predicate {
    Predicate::Binary { protocol: p, field, op, value }
}

fn tcp_chain() -> Vec<Predicate> {
    vec![unary(ProtocolName::Ipv4), unary(ProtocolName::Tcp)]
}

fn ethernet(ethertype: u16) -> Vec<u8> {
    let mut v = vec![0u8; 12];
    v.push((ethertype >> 8) as u8);
    v.push(ethertype as u8);
    v
}

fn ipv4(proto: u8, ttl: u8) -> Vec<u8> {
    let mut v = vec![0u8; 20];
    v[0] = 0x45;
    v[8] = ttl;
    v[9] = proto;
    v
}

fn ports(src: u16, dst: u16, len: usize) -> Vec<u8> {
    let mut v = vec![0u8; len];
    v[0] = (src >> 8) as u8;
    v[1] = src as u8;
    v[2] = (dst >> 8) as u8;
    v[3] = dst as u8;
    if len >= 20 {
        v[12] = 0x50;
    }
    v
}

fn tcp4(src: u16, dst: u16) -> Vec<u8> {
    let mut p = ethernet(0x0800);
    p.extend(ipv4(6, 64));
    p.extend(ports(src, dst, 20));
    p
}

fn udp4(src: u16, dst: u16) -> Vec<u8> {
    let mut p = ethernet(0x0800);
    p.extend(ipv4(17, 64));
    p.extend(ports(src, dst, 8));
    p
}

fn tcp6(src: u16, dst: u16) -> Vec<u8> {
    let mut p = ethernet(0x86dd);
    let mut h = vec![0u8; 40];
    h[0] = 0x60;
    h[6] = 6;
    p.extend(h);
    p.extend(ports(src, dst, 20));
    p
}

fn build(chains: Vec<Vec<Predicate>>) -> Classifier {
    Classifier::build(&chains).expect("well-formed filters")
}

#[test]
fn tcp_filter_rejects_udp_and_matches_tcp() {
    let c = build(vec![tcp_chain()]);
    assert_eq!(c.classify(&udp4(1000, 53)), FilterResult::NoMatch);
    assert_eq!(c.classify(&tcp4(1000, 443)), FilterResult::MatchTerminal(2));
    assert_eq!(c.outcome_ids, vec![2]);
}

#[test]
fn shared_tcp_prefix_with_two_ports() {
    let mut f443 = tcp_chain();
    f443.push(binary(ProtocolName::Tcp, FieldName::Port, BinOp::Eq, 443));
    let mut f80 = tcp_chain();
    f80.push(binary(ProtocolName::Tcp, FieldName::Port, BinOp::Eq, 80));
    let c = build(vec![f443, f80]);
    assert_eq!(c.tree.nodes.len(), 5);
    assert_eq!(c.tree.children(2), vec![3, 4]);
    assert!(!c.tree.nodes[2].is_terminal);
    assert_eq!(c.classify(&tcp4(50000, 443)), FilterResult::MatchTerminal(3));
    assert_eq!(c.classify(&tcp4(50000, 80)), FilterResult::MatchTerminal(4));
    assert_eq!(c.classify(&tcp4(50000, 22)), FilterResult::NoMatch);
    assert_eq!(c.classify(&tcp4(443, 22)), FilterResult::MatchTerminal(3));
    assert_eq!(c.outcome_ids, vec![3, 4]);
}

#[test]
fn empty_filter_matches_everything() {
    let c = build(vec![vec![]]);
    assert_eq!(c.classify(&[]), FilterResult::MatchTerminal(0));
    assert_eq!(c.classify(&udp4(1, 2)), FilterResult::MatchTerminal(0));
    assert_eq!(c.classify(&tcp4(1, 2)), FilterResult::MatchTerminal(0));
    assert_eq!(c.outcome_ids, vec![0]);
}

#[test]
fn session_filter_yields_only_packet_level_prefix() {
    let mut tls = tcp_chain();
    tls.push(unary(ProtocolName::Tls));
    let c = build(vec![tls]);
    assert_eq!(c.tree.nodes[3].terminates, Terminate::Connection);
    assert!(c.tree.nodes[3].is_terminal);
    assert_eq!(c.outcome_ids, vec![2]);
    assert_eq!(c.classify(&tcp4(50000, 443)), FilterResult::MatchNonTerminal(2));
    assert_eq!(c.classify(&udp4(50000, 443)), FilterResult::NoMatch);
}

#[test]
fn no_filters_match_nothing() {
    let c = build(vec![]);
    assert_eq!(c.classify(&tcp4(1, 2)), FilterResult::NoMatch);
    assert!(c.outcome_ids.is_empty());
}

#[test]
fn deeper_match_wins_over_ancestor() {
    let mut f443 = tcp_chain();
    f443.push(binary(ProtocolName::Tcp, FieldName::DstPort, BinOp::Eq, 443));
    let c = build(vec![tcp_chain(), f443]);
    assert_eq!(c.classify(&tcp4(50000, 443)), FilterResult::MatchTerminal(3));
    assert_eq!(c.classify(&tcp4(50000, 22)), FilterResult::MatchTerminal(2));
}

#[test]
fn protocol_dispatch_is_exclusive() {
    let udp = vec![unary(ProtocolName::Ipv4), unary(ProtocolName::Udp)];
    let c = build(vec![tcp_chain(), udp]);
    assert_eq!(c.classify(&tcp4(1, 2)), FilterResult::MatchTerminal(2));
    assert_eq!(c.classify(&udp4(1, 2)), FilterResult::MatchTerminal(3));
}

#[test]
fn ipv6_layer_dispatch() {
    let v6 = vec![unary(ProtocolName::Ipv6), unary(ProtocolName::Tcp)];
    let c = build(vec![tcp_chain(), v6]);
    assert_eq!(c.classify(&tcp6(1, 2)), FilterResult::MatchTerminal(4));
    assert_eq!(c.classify(&tcp4(1, 2)), FilterResult::MatchTerminal(2));
}

#[test]
fn truncated_header_falls_back() {
    let mut f443 = tcp_chain();
    f443.push(binary(ProtocolName::Tcp, FieldName::DstPort, BinOp::Eq, 443));
    let c = build(vec![vec![unary(ProtocolName::Ipv4)], f443]);
    let mut p = tcp4(50000, 443);
    p.truncate(14 + 20 + 10);
    assert_eq!(c.classify(&p), FilterResult::MatchTerminal(1));
    p.truncate(14 + 10);
    assert_eq!(c.classify(&p), FilterResult::NoMatch);
    assert_eq!(c.classify(&p[..5]), FilterResult::NoMatch);
}

#[test]
fn field_comparisons() {
    let ttl = vec![unary(ProtocolName::Ipv4), binary(ProtocolName::Ipv4, FieldName::Ttl, BinOp::Lt, 65)];
    let src = vec![
        unary(ProtocolName::Ipv4),
        unary(ProtocolName::Udp),
        binary(ProtocolName::Udp, FieldName::SrcPort, BinOp::Ge, 1024),
    ];
    let c = build(vec![src, ttl]);
    assert_eq!(c.classify(&udp4(2000, 53)), FilterResult::MatchTerminal(3));
    assert_eq!(c.classify(&udp4(53, 2000)), FilterResult::MatchTerminal(4));
    let mut old = udp4(53, 2000);
    old[14 + 8] = 200;
    assert_eq!(c.classify(&old), FilterResult::NoMatch);
}

#[test]
fn classification_is_repeatable() {
    let c = build(vec![tcp_chain()]);
    let p = tcp4(1234, 80);
    assert_eq!(c.classify(&p), c.classify(&p));
}

#[test]
fn recompiling_gives_same_ids() {
    let mut f443 = tcp_chain();
    f443.push(binary(ProtocolName::Tcp, FieldName::Port, BinOp::Eq, 443));
    let udp = vec![unary(ProtocolName::Ipv4), unary(ProtocolName::Udp)];
    let chains = vec![f443, udp, tcp_chain()];
    let a = build(chains.clone());
    let b = build(chains);
    assert_eq!(a.tree.nodes, b.tree.nodes);
    assert_eq!(a.outcome_ids, b.outcome_ids);
    assert_eq!(a.outcome_ids, vec![3, 2, 4]);
}

#[test]
fn malformed_filters_are_rejected() {
    let bad_layer = vec![unary(ProtocolName::Tcp)];
    assert_eq!(Classifier::build(&vec![bad_layer]).err(), Some(FilterError::InvalidLayer));
    let mismatch = vec![unary(ProtocolName::Ipv4), binary(ProtocolName::Tcp, FieldName::Port, BinOp::Eq, 1)];
    assert_eq!(Classifier::build(&vec![mismatch]).err(), Some(FilterError::ProtocolMismatch));
    let field = vec![unary(ProtocolName::Ipv4), binary(ProtocolName::Ipv4, FieldName::SrcPort, BinOp::Eq, 1)];
    assert_eq!(Classifier::build(&vec![field]).err(), Some(FilterError::UnknownField));
    let mut range = tcp_chain();
    range.push(binary(ProtocolName::Tcp, FieldName::Port, BinOp::Eq, 70000));
    assert_eq!(check_chain(&range), Some(FilterError::ValueOutOfRange));
    assert_eq!(Classifier::build(&vec![tcp_chain(), range]).err(), Some(FilterError::ValueOutOfRange));
}

#[test]
fn rejected_insert_leaves_tree_unchanged() {
    let mut t = PTree::new();
    assert_eq!(t.insert(&tcp_chain()), Ok(2));
    assert_eq!(t.insert(&vec![unary(ProtocolName::Dns)]), Err(FilterError::InvalidLayer));
    assert_eq!(t.len(), 3);
    assert_eq!(t.insert(&tcp_chain()), Ok(2));
    assert_eq!(t.len(), 3);
    assert_eq!(t.root().pred, unary(ProtocolName::Ethernet));
}

#[test]
fn first_error_of_a_chain_is_reported() {
    let chain = vec![
        unary(ProtocolName::Ipv4),
        binary(ProtocolName::Ipv4, FieldName::Port, BinOp::Eq, 1),
        unary(ProtocolName::Dns),
    ];
    assert_eq!(check_chain(&chain), Some(FilterError::UnknownField));
    assert_eq!(check_chain(&tcp_chain()), None);
    assert_eq!(check_chain(&vec![]), None);
}

#[test]
fn comparison_operators() {
    let op = |op: BinOp, v: u64| {
        let mut f = tcp_chain();
        f.push(binary(ProtocolName::Tcp, FieldName::DstPort, op, v));
        build(vec![f])
    };
    let p = tcp4(1, 1000);
    assert_eq!(op(BinOp::Ne, 999).classify(&p), FilterResult::MatchTerminal(3));
    assert_eq!(op(BinOp::Ne, 1000).classify(&p), FilterResult::NoMatch);
    assert_eq!(op(BinOp::Le, 1000).classify(&p), FilterResult::MatchTerminal(3));
    assert_eq!(op(BinOp::Lt, 1000).classify(&p), FilterResult::NoMatch);
    assert_eq!(op(BinOp::Gt, 999).classify(&p), FilterResult::MatchTerminal(3));
    assert_eq!(op(BinOp::Ge, 1001).classify(&p), FilterResult::NoMatch);
}

#[test]
fn compile_lists_packet_level_ends() {
    let mut t = PTree::new();
    let mut tls = tcp_chain();
    tls.push(unary(ProtocolName::Tls));
    assert_eq!(t.insert(&tls), Ok(3));
    assert_eq!(t.insert(&vec![unary(ProtocolName::Ipv6)]), Ok(4));
    assert!(t.nodes[2].is_packet_end);
    assert!(!t.nodes[2].is_terminal);
    let c = Classifier::compile(t);
    assert_eq!(c.outcome_ids, vec![2, 4]);
    assert_eq!(c.classify(&tcp4(5, 6)), FilterResult::MatchNonTerminal(2));
    assert_eq!(c.classify(&tcp6(5, 6)), FilterResult::MatchTerminal(4));
}

#[test]
fn wrong_ip_version_is_not_parsed() {
    let c = build(vec![tcp_chain()]);
    let mut p = tcp4(1, 2);
    p[14] = 0x65;
    assert_eq!(c.classify(&p), FilterResult::NoMatch);
    p[14] = 0x44;
    assert_eq!(c.classify(&p), FilterResult::NoMatch);
}

#[test]
fn terminal_root_is_the_last_fallback() {
    let c = build(vec![vec![], tcp_chain()]);
    assert!(c.tree.nodes[0].is_packet_end);
    assert_eq!(c.classify(&tcp4(1, 2)), FilterResult::MatchTerminal(2));
    assert_eq!(c.classify(&udp4(1, 2)), FilterResult::MatchTerminal(0));
    assert_eq!(c.classify(&[1, 2, 3]), FilterResult::MatchTerminal(0));
    assert_eq!(c.outcome_ids, vec![2, 0]);
}

#[test]
fn outcome_table_lists_descendants_first() {
    let mut f443 = tcp_chain();
    f443.push(binary(ProtocolName::Tcp, FieldName::DstPort, BinOp::Eq, 443));
    let c = build(vec![tcp_chain(), f443]);
    assert_eq!(c.outcome_ids, vec![3, 2]);
}

#[test]
fn non_ethernet_packet_needs_a_terminal_root() {
    let root = PNode {
        pred: unary(ProtocolName::Ethernet),
        parent: 0,
        id: 0,
        is_terminal: false,
        is_packet_end: true,
        terminates: Terminate::Packet,
    };
    let c = Classifier::compile(PTree { nodes: vec![root] });
    assert_eq!(c.outcome_ids, vec![0]);
    assert_eq!(c.classify(&[1, 2, 3]), FilterResult::NoMatch);
    assert_eq!(c.classify(&[0u8; 14]), FilterResult::MatchNonTerminal(0));
}

#[test]
fn contradictory_chains_are_rejected() {
    let ttl = |v: u64| binary(ProtocolName::Ipv4, FieldName::Ttl, BinOp::Eq, v);
    let clash = vec![unary(ProtocolName::Ipv4), ttl(5), ttl(6)];
    assert_eq!(check_chain(&clash), Some(FilterError::Contradictory));
    assert_eq!(Classifier::build(&vec![clash]).err(), Some(FilterError::Contradictory));
    assert_eq!(check_chain(&vec![unary(ProtocolName::Ipv4), ttl(5), ttl(5)]), None);
    let dst = |v: u64| binary(ProtocolName::Tcp, FieldName::DstPort, BinOp::Eq, v);
    let mut far = tcp_chain();
    far.push(dst(80));
    far.push(binary(ProtocolName::Tcp, FieldName::SrcPort, BinOp::Eq, 1));
    far.push(dst(81));
    assert_eq!(check_chain(&far), Some(FilterError::Contradictory));
    let mut either = tcp_chain();
    either.push(binary(ProtocolName::Tcp, FieldName::Port, BinOp::Eq, 80));
    either.push(binary(ProtocolName::Tcp, FieldName::Port, BinOp::Eq, 443));
    assert_eq!(check_chain(&either), None);
    let mut range = tcp_chain();
    range.push(binary(ProtocolName::Tcp, FieldName::DstPort, BinOp::Ne, 80));
    range.push(dst(81));
    assert_eq!(check_chain(&range), None);
}
