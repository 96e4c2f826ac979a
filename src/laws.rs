//! Properties that hold of every tree and every packet.
use vstd::prelude::*;
use crate::classify::{
    classify_spec, emits, eval_children, eval_node, lemma_children_sound, lemma_node_sound,
    verdict, verdict_id, verdict_ok, Classifier, FilterResult,
};
use crate::packet::{
    binary_holds, lemma_parse_exclusive, parse_ethernet_spec, parse_next_spec, Layer,
};
use crate::predicate::{on_packet_spec, FilterError, Predicate};
use crate::ptree::{build_spec, distinct_ok, end_ok, is_child, term_ok, tree_wf, PNode};

verus! {

/// The predicate of node `c` holds with the packet at header `layer`.
pub open spec fn pred_holds(nodes: Seq<PNode>, pkt: Seq<u8>, layer: Layer, c: int) -> bool {
    match nodes[c].pred {
        Predicate::Unary { protocol } => parse_next_spec(pkt, layer, protocol) is Some,
        Predicate::Binary { protocol, field, op, value } => binary_holds(
            pkt,
            layer,
            protocol,
            field,
            op,
            value,
        ),
    }
}

/// The header the packet is at below node `c`, when `c`'s predicate can be tested on
/// packet bytes and holds with the packet at header `layer`.
pub open spec fn step(nodes: Seq<PNode>, pkt: Seq<u8>, layer: Layer, c: int) -> Option<Layer> {
    if !on_packet_spec(nodes[c].pred) {
        None
    } else {
        match nodes[c].pred {
            Predicate::Unary { protocol } => parse_next_spec(pkt, layer, protocol),
            Predicate::Binary { protocol, field, op, value } => if binary_holds(
                pkt,
                layer,
                protocol,
                field,
                op,
                value,
            ) {
                Some(layer)
            } else {
                None
            },
        }
    }
}

/// The child of `a` on the way down to `b`.
pub open spec fn toward(nodes: Seq<PNode>, a: int, b: int) -> int
    decreases b,
{
    if b <= 0 || b >= nodes.len() || nodes[b].parent >= b || nodes[b].parent == a {
        b
    } else {
        toward(nodes, a, nodes[b].parent as int)
    }
}

/// When `b` lies in the subtree of `a` and every predicate on the way down from `a` to
/// `b` holds, the packet being at header `la` below `a`: the header reached below `b`.
pub open spec fn reach(nodes: Seq<PNode>, pkt: Seq<u8>, a: int, la: Layer, b: int) -> Option<
    Layer,
>
    decreases b - a,
{
    if a == b {
        Some(la)
    } else if a < 0 || a > b {
        None
    } else {
        let c = toward(nodes, a, b);
        if !(is_child(nodes, a, c) && a < c <= b) {
            None
        } else {
            match step(nodes, pkt, la, c) {
                Some(lc) => reach(nodes, pkt, c, lc, b),
                None => None,
            }
        }
    }
}

/// Classification depends on nothing but the compiled classifier and the packet's
/// bytes: the same bytes always give the same result.
pub proof fn lemma_classify_deterministic(c: &Classifier, bytes: Seq<u8>, same: Seq<u8>)
    requires
        bytes == same,
    ensures
        classify_spec(c.tree.nodes@, bytes) == classify_spec(c.tree.nodes@, same),
{
}

/// Two different protocol children of one node never both match a packet.
pub proof fn lemma_exclusive_dispatch(
    nodes: Seq<PNode>,
    pkt: Seq<u8>,
    layer: Layer,
    c1: int,
    c2: int,
)
    requires
        tree_wf(nodes),
        0 < c1 < c2 < nodes.len(),
        nodes[c1].parent == nodes[c2].parent,
        nodes[c1].pred is Unary,
        nodes[c2].pred is Unary,
    ensures
        !(pred_holds(nodes, pkt, layer, c1) && pred_holds(nodes, pkt, layer, c2)),
{
    assert(distinct_ok(nodes, c1, c2));
    if pred_holds(nodes, pkt, layer, c1) && pred_holds(nodes, pkt, layer, c2) {
        let first = nodes[c1].pred->Unary_protocol;
        let second = nodes[c2].pred->Unary_protocol;
        lemma_parse_exclusive(pkt, layer, first, second);
    }
}

/// `a` is an ancestor of `b` other than `b` itself.
pub open spec fn proper_ancestor(nodes: Seq<PNode>, a: int, b: int) -> bool {
    a != b && ancestor(nodes, a, b)
}

proof fn lemma_ancestor_trans(nodes: Seq<PNode>, a: int, m: int, b: int)
    requires
        ancestor(nodes, a, m),
        ancestor(nodes, m, b),
    ensures
        ancestor(nodes, a, b),
    decreases b,
{
    if b != m {
        lemma_ancestor_bound(nodes, a, m);
        lemma_ancestor_trans(nodes, a, m, nodes[b].parent as int);
    }
}

/// A verdict from the subtree of a sibling `j` of `c`, an ancestor of `b`, is never
/// that of an ancestor of `b`.
proof fn lemma_sibling_not_ancestor(
    nodes: Seq<PNode>,
    pkt: Seq<u8>,
    i: int,
    j: int,
    lj: Layer,
    c: int,
    b: int,
)
    requires
        tree_wf(nodes),
        is_child(nodes, i, j),
        is_child(nodes, i, c),
        j != c,
        ancestor(nodes, c, b),
        eval_node(nodes, pkt, j, lj) is Some,
    ensures
        !proper_ancestor(nodes, verdict_id(eval_node(nodes, pkt, j, lj)->Some_0) as int, b),
{
    let id = verdict_id(eval_node(nodes, pkt, j, lj)->Some_0) as int;
    lemma_node_reaches(nodes, pkt, j, lj);
    lemma_reach_ancestor(nodes, pkt, j, lj, id);
    if ancestor(nodes, id, b) {
        lemma_ancestor_trans(nodes, j, id, b);
        lemma_toward_child(nodes, i, j, b);
        lemma_toward_child(nodes, i, c, b);
    }
}

/// A child of `i` that holds and whose subtree yields a verdict yields a verdict among the children
/// of `i` from `j` on, provided no protocol child before `j` excluded it.
proof fn lemma_children_reach(
    nodes: Seq<PNode>,
    pkt: Seq<u8>,
    i: int,
    layer: Layer,
    c: int,
    b: int,
    j: int,
    taken: bool,
)
    requires
        tree_wf(nodes),
        0 <= i < j <= c,
        is_child(nodes, i, c),
        ancestor(nodes, c, b),
        step(nodes, pkt, layer, c) is Some,
        eval_node(nodes, pkt, c, step(nodes, pkt, layer, c)->Some_0) matches Some(v)
            && !proper_ancestor(nodes, verdict_id(v) as int, b),
        taken ==> nodes[c].pred is Binary,
    ensures
        eval_children(nodes, pkt, i, layer, j, taken) matches Some(v) && verdict_ok(nodes, v, j)
            && !proper_ancestor(nodes, verdict_id(v) as int, b),
    decreases c - j,
{
    assert(pred_holds(nodes, pkt, layer, c));
    if j == c {
        match nodes[c].pred {
            Predicate::Unary { protocol } => {
                let next = parse_next_spec(pkt, layer, protocol)->Some_0;
                lemma_node_sound(nodes, pkt, c, next);
            },
            Predicate::Binary { .. } => {
                lemma_node_sound(nodes, pkt, c, layer);
            },
        }
    } else {
        if nodes[j].parent != i || !on_packet_spec(nodes[j].pred) {
            lemma_children_reach(nodes, pkt, i, layer, c, b, j + 1, taken);
        } else {
            match nodes[j].pred {
                Predicate::Unary { protocol } => {
                    if taken {
                        lemma_children_reach(nodes, pkt, i, layer, c, b, j + 1, taken);
                    } else {
                        match parse_next_spec(pkt, layer, protocol) {
                            Some(next) => {
                                lemma_node_sound(nodes, pkt, j, next);
                                if eval_node(nodes, pkt, j, next) is Some {
                                    lemma_sibling_not_ancestor(nodes, pkt, i, j, next, c, b);
                                } else {
                                    if nodes[c].pred is Unary {
                                        lemma_exclusive_dispatch(nodes, pkt, layer, j, c);
                                    }
                                    lemma_children_reach(nodes, pkt, i, layer, c, b, j + 1, true);
                                }
                            },
                            None => {
                                lemma_children_reach(nodes, pkt, i, layer, c, b, j + 1, false);
                            },
                        }
                    }
                },
                Predicate::Binary { .. } => {
                    lemma_node_sound(nodes, pkt, j, layer);
                    if eval_node(nodes, pkt, j, layer) is Some {
                        lemma_sibling_not_ancestor(nodes, pkt, i, j, layer, c, b);
                    }
                    lemma_children_reach(nodes, pkt, i, layer, c, b, j + 1, taken);
                },
            }
        }
    }
}

/// Most specific match first: when a child of `i` that has a verdict of its own matches
/// the packet, the subtree of `i` yields a verdict of a node below `i`, never the
/// verdict of `i` itself.
pub proof fn lemma_most_specific(nodes: Seq<PNode>, pkt: Seq<u8>, i: int, layer: Layer, c: int)
    requires
        tree_wf(nodes),
        0 <= i < nodes.len(),
        is_child(nodes, i, c),
        emits(nodes, c),
        pred_holds(nodes, pkt, layer, c),
    ensures
        eval_node(nodes, pkt, i, layer) matches Some(v) && verdict_ok(nodes, v, i + 1),
{
    assert(nodes[c].parent < c);
    assert(term_ok(nodes, c));
    let lc = step(nodes, pkt, layer, c)->Some_0;
    assert(eval_node(nodes, pkt, c, lc) is Some);
    lemma_node_sound(nodes, pkt, c, lc);
    let id = verdict_id(eval_node(nodes, pkt, c, lc)->Some_0) as int;
    if ancestor(nodes, id, c) {
        lemma_ancestor_bound(nodes, id, c);
    }
    lemma_children_reach(nodes, pkt, i, layer, c, c, i + 1, false);
}

/// A node `b` with a verdict of its own below `a`, reached with every predicate on the
/// way down holding, makes the subtree of `a` yield a verdict.
proof fn lemma_reach_yields(nodes: Seq<PNode>, pkt: Seq<u8>, a: int, la: Layer, b: int)
    requires
        tree_wf(nodes),
        0 <= a <= b < nodes.len(),
        reach(nodes, pkt, a, la, b) is Some,
        emits(nodes, b),
    ensures
        eval_node(nodes, pkt, a, la) matches Some(v) && verdict_ok(nodes, v, a) && (a < b
            ==> verdict_ok(nodes, v, a + 1)) && !proper_ancestor(nodes, verdict_id(v) as int, b),
    decreases b - a,
{
    lemma_node_sound(nodes, pkt, a, la);
    if a < b {
        let c = toward(nodes, a, b);
        let lc = step(nodes, pkt, la, c)->Some_0;
        lemma_reach_yields(nodes, pkt, c, lc, b);
        lemma_reach_ancestor(nodes, pkt, c, lc, b);
        lemma_children_reach(nodes, pkt, a, la, c, b, a + 1, false);
    } else {
        let id = verdict_id(eval_node(nodes, pkt, a, la)->Some_0) as int;
        if ancestor(nodes, id, b) {
            lemma_ancestor_bound(nodes, id, b);
        }
    }
}

/// Most specific match first, at any depth: when a node `b` with a verdict of its own
/// lies below `a` and every predicate on the way down from `a` to `b` holds, the subtree
/// of `a` yields the verdict of a node below `a`, never the verdict of `a` itself nor of
/// any other ancestor of `b`. This holds for every ancestor `a` of `b`, with the header
/// the packet is at there.
pub proof fn lemma_most_specific_descendant(
    nodes: Seq<PNode>,
    pkt: Seq<u8>,
    a: int,
    la: Layer,
    b: int,
)
    requires
        tree_wf(nodes),
        0 <= a < b < nodes.len(),
        reach(nodes, pkt, a, la, b) is Some,
        emits(nodes, b),
    ensures
        eval_node(nodes, pkt, a, la) matches Some(v) && verdict_ok(nodes, v, a + 1)
            && !proper_ancestor(nodes, verdict_id(v) as int, b),
{
    lemma_reach_yields(nodes, pkt, a, la, b);
}

/// Most specific match first, for a whole packet: when a node `b` other than the root
/// has a verdict of its own and every predicate on the way down to it holds below the
/// Ethernet header, the packet is classified by a node other than the root, and by none
/// of the ancestors of `b`.
pub proof fn lemma_classify_most_specific(nodes: Seq<PNode>, pkt: Seq<u8>, b: int)
    requires
        tree_wf(nodes),
        0 < b < nodes.len(),
        emits(nodes, b),
        parse_ethernet_spec(pkt) is Some,
        reach(nodes, pkt, 0, parse_ethernet_spec(pkt)->Some_0, b) is Some,
    ensures
        verdict_ok(nodes, classify_spec(nodes, pkt), 1),
        !proper_ancestor(nodes, verdict_id(classify_spec(nodes, pkt)) as int, b),
{
    let eth = parse_ethernet_spec(pkt)->Some_0;
    lemma_reach_yields(nodes, pkt, 0, eth, b);
}

/// `c` is `b` or one of its ancestors.
pub open spec fn ancestor(nodes: Seq<PNode>, c: int, b: int) -> bool
    decreases b,
{
    if b == c {
        true
    } else if b <= c || b >= nodes.len() || nodes[b].parent >= b {
        false
    } else {
        ancestor(nodes, c, nodes[b].parent as int)
    }
}

proof fn lemma_ancestor_of_parent(nodes: Seq<PNode>, c: int, d: int, b: int)
    requires
        ancestor(nodes, d, b),
        0 <= c < d < nodes.len(),
        nodes[d].parent == c,
    ensures
        ancestor(nodes, c, b),
    decreases b,
{
    if b != d {
        lemma_ancestor_of_parent(nodes, c, d, nodes[b].parent as int);
    } else {
        assert(ancestor(nodes, c, c));
    }
}

proof fn lemma_reach_ancestor(nodes: Seq<PNode>, pkt: Seq<u8>, c: int, lc: Layer, b: int)
    requires
        reach(nodes, pkt, c, lc, b) is Some,
    ensures
        ancestor(nodes, c, b),
    decreases b - c,
{
    if c != b {
        let d = toward(nodes, c, b);
        let ld = step(nodes, pkt, lc, d)->Some_0;
        lemma_reach_ancestor(nodes, pkt, d, ld, b);
        lemma_ancestor_of_parent(nodes, c, d, b);
    }
}

proof fn lemma_toward_child(nodes: Seq<PNode>, i: int, c: int, b: int)
    requires
        tree_wf(nodes),
        is_child(nodes, i, c),
        ancestor(nodes, c, b),
    ensures
        toward(nodes, i, b) == c,
    decreases b,
{
    if b != c {
        let p = nodes[b].parent as int;
        if p == i {
            assert(ancestor(nodes, c, p));
        }
        lemma_toward_child(nodes, i, c, p);
    }
}

/// Walking from `i` down through a child `c` whose predicate holds continues as the walk from `c`.
proof fn lemma_reach_through_child(
    nodes: Seq<PNode>,
    pkt: Seq<u8>,
    i: int,
    l: Layer,
    c: int,
    b: int,
)
    requires
        tree_wf(nodes),
        0 <= i,
        is_child(nodes, i, c),
        step(nodes, pkt, l, c) is Some,
        reach(nodes, pkt, c, step(nodes, pkt, l, c)->Some_0, b) is Some,
    ensures
        reach(nodes, pkt, i, l, b) == reach(nodes, pkt, c, step(nodes, pkt, l, c)->Some_0, b),
{
    let lc = step(nodes, pkt, l, c)->Some_0;
    assert(nodes[c].parent < c);
    lemma_reach_ancestor(nodes, pkt, c, lc, b);
    lemma_ancestor_bound(nodes, c, b);
    lemma_toward_child(nodes, i, c, b);
}

proof fn lemma_ancestor_bound(nodes: Seq<PNode>, c: int, b: int)
    requires
        ancestor(nodes, c, b),
    ensures
        c <= b,
    decreases b,
{
    if b != c {
        lemma_ancestor_bound(nodes, c, nodes[b].parent as int);
    }
}

/// Every verdict found among the children of `i` from `j` on is reached from `i` with
/// every predicate on the way down holding.
proof fn lemma_children_reaches(
    nodes: Seq<PNode>,
    pkt: Seq<u8>,
    i: int,
    layer: Layer,
    j: int,
    taken: bool,
)
    requires
        tree_wf(nodes),
    ensures
        eval_children(nodes, pkt, i, layer, j, taken) matches Some(v) ==> reach(
            nodes,
            pkt,
            i,
            layer,
            verdict_id(v) as int,
        ) is Some,
    decreases nodes.len() - i, 0int, nodes.len() - j,
{
    if i < 0 || j <= i || j >= nodes.len() {
    } else {
        lemma_children_reaches(nodes, pkt, i, layer, j + 1, taken);
        lemma_children_reaches(nodes, pkt, i, layer, j + 1, true);
        lemma_children_reaches(nodes, pkt, i, layer, j + 1, false);
        if nodes[j].parent == i && on_packet_spec(nodes[j].pred) {
            match nodes[j].pred {
                Predicate::Unary { protocol } => {
                    if let Some(next) = parse_next_spec(pkt, layer, protocol) {
                        lemma_node_reaches(nodes, pkt, j, next);
                        if let Some(v) = eval_node(nodes, pkt, j, next) {
                            if !taken {
                                lemma_reach_through_child(
                                    nodes,
                                    pkt,
                                    i,
                                    layer,
                                    j,
                                    verdict_id(v) as int,
                                );
                            }
                        }
                    }
                },
                Predicate::Binary { protocol, field, op, value } => {
                    lemma_node_reaches(nodes, pkt, j, layer);
                    if binary_holds(pkt, layer, protocol, field, op, value) {
                        if let Some(v) = eval_node(nodes, pkt, j, layer) {
                            lemma_reach_through_child(nodes, pkt, i, layer, j, verdict_id(v) as int);
                        }
                    }
                },
            }
        }
    }
}

/// Every verdict of the subtree of `i` is reached from `i` with every predicate on the
/// way down holding.
proof fn lemma_node_reaches(nodes: Seq<PNode>, pkt: Seq<u8>, i: int, layer: Layer)
    requires
        tree_wf(nodes),
    ensures
        eval_node(nodes, pkt, i, layer) matches Some(v) ==> reach(
            nodes,
            pkt,
            i,
            layer,
            verdict_id(v) as int,
        ) is Some,
    decreases nodes.len() - i, 1int, 0int,
{
    if 0 <= i < nodes.len() {
        lemma_children_reaches(nodes, pkt, i, layer, i + 1, false);
    }
}

/// A packet is only ever classified by a node that has a verdict of its own (so never by
/// one whose path needs state beyond the packet) and whose every predicate, from the
/// Ethernet header down, the packet satisfies; with the root as the one node reached
/// without that header, and then only when it is terminal.
pub proof fn lemma_classify_satisfied(nodes: Seq<PNode>, pkt: Seq<u8>)
    requires
        tree_wf(nodes),
    ensures
        classify_spec(nodes, pkt) != FilterResult::NoMatch ==> {
            let id = verdict_id(classify_spec(nodes, pkt)) as int;
            &&& emits(nodes, id)
            &&& classify_spec(nodes, pkt) == verdict(nodes, id)
            &&& match parse_ethernet_spec(pkt) {
                Some(eth) => reach(nodes, pkt, 0, eth, id) is Some,
                None => id == 0 && nodes[0].is_terminal,
            }
        },
{
    assert(end_ok(nodes, 0));
    if let Some(eth) = parse_ethernet_spec(pkt) {
        lemma_children_sound(nodes, pkt, 0, eth, 1, false);
        lemma_children_reaches(nodes, pkt, 0, eth, 1, false);
    }
}

/// Children of `i` from `j` on that cannot be tested on packet bytes yield no verdict.
proof fn lemma_untestable_children(
    nodes: Seq<PNode>,
    pkt: Seq<u8>,
    i: int,
    layer: Layer,
    j: int,
    taken: bool,
)
    requires
        forall|x: int| is_child(nodes, i, x) ==> !on_packet_spec(#[trigger] nodes[x].pred),
    ensures
        eval_children(nodes, pkt, i, layer, j, taken) is None,
    decreases nodes.len() - j,
{
    if 0 <= i < j < nodes.len() {
        lemma_untestable_children(nodes, pkt, i, layer, j + 1, taken);
    }
}

/// The filter without conditions: a terminal root none of whose children can be tested
/// on packet bytes classifies every packet, whatever its bytes, as `MatchTerminal(0)`.
pub proof fn lemma_match_everything(nodes: Seq<PNode>, pkt: Seq<u8>)
    requires
        tree_wf(nodes),
        nodes[0].is_terminal,
        forall|x: int| is_child(nodes, 0, x) ==> !on_packet_spec(#[trigger] nodes[x].pred),
    ensures
        classify_spec(nodes, pkt) == FilterResult::MatchTerminal(0),
{
    assert(end_ok(nodes, 0));
    if let Some(eth) = parse_ethernet_spec(pkt) {
        lemma_untestable_children(nodes, pkt, 0, eth, 1, false);
    }
}

/// Compiling one filter set twice, in the same order, gives the same node ids and the
/// same outcome table.
pub proof fn lemma_id_stability(chains: Seq<Seq<Predicate>>, c1: &Classifier, c2: &Classifier)
    requires
        c1.wf(),
        c2.wf(),
        build_spec(chains) == Ok::<Seq<PNode>, FilterError>(c1.tree.nodes@),
        build_spec(chains) == Ok::<Seq<PNode>, FilterError>(c2.tree.nodes@),
    ensures
        c1.tree.nodes@ == c2.tree.nodes@,
        c1.outcome_ids@ == c2.outcome_ids@,
{
}

} // verus!
