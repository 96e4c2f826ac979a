//! The compiled classifier: an interpreter over the predicate tree, run once per packet.
use vstd::prelude::*;
use crate::packet::{
    binary_holds, parse_ethernet, parse_ethernet_spec, parse_next, parse_next_spec, test_binary,
    Layer,
};
use crate::predicate::{on_packet_spec, FilterError, Predicate, Terminate};
use crate::ptree::{build_spec, chains_view, end_ok, total_len, tree_wf, PNode, PTree};

verus! {

/// The outcome of classifying one packet.
#[derive(Clone, Copy, Debug, PartialEq, Eq, Structural)]
pub enum FilterResult {
    NoMatch,
    /// Packet-level conditions of node `id` hold; the filter needs more than this packet.
    MatchNonTerminal(usize),
    /// Node `id` fully satisfies a filter from this packet alone.
    MatchTerminal(usize),
}

/// The verdict that node `i` contributes when it is the deepest node that matched.
pub open spec fn verdict(nodes: Seq<PNode>, i: int) -> FilterResult {
    if nodes[i].is_terminal {
        FilterResult::MatchTerminal(i as usize)
    } else {
        FilterResult::MatchNonTerminal(i as usize)
    }
}

/// Node `i` is resolved at packet level.
pub open spec fn resolved(nodes: Seq<PNode>, i: int) -> bool {
    nodes[i].terminates == Terminate::Packet
}

/// Node `i` has a verdict of its own: it is resolved at packet level and the
/// packet-level conditions of some filter end there.
pub open spec fn emits(nodes: Seq<PNode>, i: int) -> bool {
    resolved(nodes, i) && nodes[i].is_packet_end
}

/// The first verdict among the children of `i` from id `j` on, the packet being at
/// header `layer`. Of the protocol children only the first whose header parses is
/// entered (`taken` records that one was); field children are each tested on their own.
pub open spec fn eval_children(
    nodes: Seq<PNode>,
    pkt: Seq<u8>,
    i: int,
    layer: Layer,
    j: int,
    taken: bool,
) -> Option<FilterResult>
    decreases nodes.len() - i, 0int, nodes.len() - j,
{
    if i < 0 || j <= i || j >= nodes.len() {
        None
    } else if nodes[j].parent != i || !on_packet_spec(nodes[j].pred) {
        eval_children(nodes, pkt, i, layer, j + 1, taken)
    } else {
        match nodes[j].pred {
            Predicate::Unary { protocol } => if taken {
                eval_children(nodes, pkt, i, layer, j + 1, taken)
            } else {
                match parse_next_spec(pkt, layer, protocol) {
                    Some(next) => match eval_node(nodes, pkt, j, next) {
                        Some(v) => Some(v),
                        None => eval_children(nodes, pkt, i, layer, j + 1, true),
                    },
                    None => eval_children(nodes, pkt, i, layer, j + 1, false),
                }
            },
            Predicate::Binary { protocol, field, op, value } => if binary_holds(
                pkt,
                layer,
                protocol,
                field,
                op,
                value,
            ) {
                match eval_node(nodes, pkt, j, layer) {
                    Some(v) => Some(v),
                    None => eval_children(nodes, pkt, i, layer, j + 1, taken),
                }
            } else {
                eval_children(nodes, pkt, i, layer, j + 1, taken)
            },
        }
    }
}

/// The verdict of the subtree of `i`, whose predicate held with the packet at header
/// `layer`: the first verdict of its children, else its own when it has one.
pub open spec fn eval_node(nodes: Seq<PNode>, pkt: Seq<u8>, i: int, layer: Layer) -> Option<
    FilterResult,
>
    decreases nodes.len() - i, 1int, 0int,
{
    if i < 0 || i >= nodes.len() {
        None
    } else {
        match eval_children(nodes, pkt, i, layer, i + 1, false) {
            Some(v) => Some(v),
            None => if emits(nodes, i) {
                Some(verdict(nodes, i))
            } else {
                None
            },
        }
    }
}

/// Classification of a packet: the verdict of the root's children below the Ethernet
/// header; failing that, the root's own verdict when it has one (the filter without
/// conditions), else `NoMatch`. A packet without an Ethernet header matches only a
/// terminal root.
pub open spec fn classify_spec(nodes: Seq<PNode>, pkt: Seq<u8>) -> FilterResult {
    match parse_ethernet_spec(pkt) {
        Some(eth) => match eval_children(nodes, pkt, 0, eth, 1, false) {
            Some(v) => v,
            None => if emits(nodes, 0) {
                verdict(nodes, 0)
            } else {
                FilterResult::NoMatch
            },
        },
        None => if nodes[0].is_terminal {
            FilterResult::MatchTerminal(0)
        } else {
            FilterResult::NoMatch
        },
    }
}

/// `v` is the verdict of some node with a verdict of its own and id at least `lo`.
pub open spec fn verdict_ok(nodes: Seq<PNode>, v: FilterResult, lo: int) -> bool {
    match v {
        FilterResult::NoMatch => false,
        FilterResult::MatchNonTerminal(id) => lo <= id < nodes.len() && emits(nodes, id as int)
            && !nodes[id as int].is_terminal,
        FilterResult::MatchTerminal(id) => lo <= id < nodes.len() && emits(nodes, id as int)
            && nodes[id as int].is_terminal,
    }
}

/// Every verdict found among the children of `i` from id `j` on is that of a node with
/// a verdict of its own and id at least `j`.
pub proof fn lemma_children_sound(
    nodes: Seq<PNode>,
    pkt: Seq<u8>,
    i: int,
    layer: Layer,
    j: int,
    taken: bool,
)
    requires
        nodes.len() <= usize::MAX,
    ensures
        eval_children(nodes, pkt, i, layer, j, taken) matches Some(v) ==> verdict_ok(nodes, v, j),
    decreases nodes.len() - i, 0int, nodes.len() - j,
{
    if i < 0 || j <= i || j >= nodes.len() {
    } else {
        lemma_children_sound(nodes, pkt, i, layer, j + 1, taken);
        lemma_children_sound(nodes, pkt, i, layer, j + 1, true);
        lemma_children_sound(nodes, pkt, i, layer, j + 1, false);
        if nodes[j].parent == i && on_packet_spec(nodes[j].pred) {
            match nodes[j].pred {
                Predicate::Unary { protocol } => {
                    if let Some(next) = parse_next_spec(pkt, layer, protocol) {
                        lemma_node_sound(nodes, pkt, j, next);
                    }
                },
                Predicate::Binary { .. } => {
                    lemma_node_sound(nodes, pkt, j, layer);
                },
            }
        }
    }
}

/// Every verdict of the subtree of `i` is that of a node with a verdict of its own and
/// id at least `i`.
pub proof fn lemma_node_sound(nodes: Seq<PNode>, pkt: Seq<u8>, i: int, layer: Layer)
    requires
        nodes.len() <= usize::MAX,
    ensures
        eval_node(nodes, pkt, i, layer) matches Some(v) ==> verdict_ok(nodes, v, i),
    decreases nodes.len() - i, 1int, 0int,
{
    if 0 <= i < nodes.len() {
        lemma_children_sound(nodes, pkt, i, layer, i + 1, false);
    }
}

/// The outcome-table entries of the children of `i` from id `j` on that can be tested on
/// packet bytes, in child order: each child's subtree entries in turn.
pub open spec fn table_children(nodes: Seq<PNode>, i: int, j: int) -> Seq<usize>
    decreases nodes.len() - i, 0int, nodes.len() - j,
{
    if i < 0 || j <= i || j >= nodes.len() {
        Seq::empty()
    } else if nodes[j].parent != i || !on_packet_spec(nodes[j].pred) {
        table_children(nodes, i, j + 1)
    } else {
        table_node(nodes, j) + table_children(nodes, i, j + 1)
    }
}

/// The outcome-table entries of the subtree of `i`, in post-order: those of its children
/// first, then `i` itself when it has a verdict of its own.
pub open spec fn table_node(nodes: Seq<PNode>, i: int) -> Seq<usize>
    decreases nodes.len() - i, 1int, 0int,
{
    if i < 0 || i >= nodes.len() {
        Seq::empty()
    } else {
        table_children(nodes, i, i + 1) + if emits(nodes, i) {
            seq![i as usize]
        } else {
            Seq::empty()
        }
    }
}

/// The outcome table: the ids of the nodes with a verdict of their own, deeper and more
/// specific nodes before their ancestors, siblings in child order.
pub open spec fn outcome_table(nodes: Seq<PNode>) -> Seq<usize> {
    table_node(nodes, 0)
}

/// The id a verdict carries.
pub open spec fn verdict_id(v: FilterResult) -> usize {
    match v {
        FilterResult::NoMatch => 0,
        FilterResult::MatchNonTerminal(id) => id,
        FilterResult::MatchTerminal(id) => id,
    }
}

proof fn lemma_concat_contains(a: Seq<usize>, b: Seq<usize>, x: usize)
    requires
        a.contains(x) || b.contains(x),
    ensures
        (a + b).contains(x),
{
    if a.contains(x) {
        let k = choose|k: int| 0 <= k < a.len() && a[k] == x;
        assert((a + b)[k] == x);
    } else {
        let k = choose|k: int| 0 <= k < b.len() && b[k] == x;
        assert((a + b)[a.len() + k] == x);
    }
}

/// Every verdict found among the children of `i` from `j` on is listed in their entries.
proof fn lemma_children_in_table(
    nodes: Seq<PNode>,
    pkt: Seq<u8>,
    i: int,
    layer: Layer,
    j: int,
    taken: bool,
)
    ensures
        eval_children(nodes, pkt, i, layer, j, taken) matches Some(v) ==> table_children(
            nodes,
            i,
            j,
        ).contains(verdict_id(v)),
    decreases nodes.len() - i, 0int, nodes.len() - j,
{
    if i < 0 || j <= i || j >= nodes.len() {
    } else {
        lemma_children_in_table(nodes, pkt, i, layer, j + 1, taken);
        lemma_children_in_table(nodes, pkt, i, layer, j + 1, true);
        lemma_children_in_table(nodes, pkt, i, layer, j + 1, false);
        if nodes[j].parent == i && on_packet_spec(nodes[j].pred) {
            match nodes[j].pred {
                Predicate::Unary { protocol } => {
                    if let Some(next) = parse_next_spec(pkt, layer, protocol) {
                        lemma_node_in_table(nodes, pkt, j, next);
                    }
                },
                Predicate::Binary { .. } => {
                    lemma_node_in_table(nodes, pkt, j, layer);
                },
            }
            if let Some(v) = eval_children(nodes, pkt, i, layer, j, taken) {
                let x = verdict_id(v);
                let a = table_node(nodes, j);
                let b = table_children(nodes, i, j + 1);
                if a.contains(x) || b.contains(x) {
                    lemma_concat_contains(a, b, x);
                }
            }
        }
    }
}

/// Every verdict of the subtree of `i` is listed in its entries.
proof fn lemma_node_in_table(nodes: Seq<PNode>, pkt: Seq<u8>, i: int, layer: Layer)
    ensures
        eval_node(nodes, pkt, i, layer) matches Some(v) ==> table_node(nodes, i).contains(
            verdict_id(v),
        ),
    decreases nodes.len() - i, 1int, 0int,
{
    if 0 <= i < nodes.len() {
        lemma_children_in_table(nodes, pkt, i, layer, i + 1, false);
        let a = table_children(nodes, i, i + 1);
        let b = if emits(nodes, i) {
            seq![i as usize]
        } else {
            Seq::<usize>::empty()
        };
        if let Some(v) = eval_node(nodes, pkt, i, layer) {
            if emits(nodes, i) {
                assert(b[0] == i as usize);
            }
            if a.contains(verdict_id(v)) || b.contains(verdict_id(v)) {
                lemma_concat_contains(a, b, verdict_id(v));
            }
        }
    }
}

fn collect_children(nodes: &Vec<PNode>, i: usize, j: usize, out: &mut Vec<usize>)
    requires
        tree_wf(nodes@),
    ensures
        final(out)@ == old(out)@ + table_children(nodes@, i as int, j as int),
    decreases nodes@.len() - i, 0int, nodes@.len() - j,
{
    if j <= i || j >= nodes.len() {
        assert(old(out)@ + table_children(nodes@, i as int, j as int) =~= old(out)@);
        return;
    }
    let ghost start = out@;
    let child = nodes[j];
    let descend = child.parent == i && child.pred.on_packet();
    if descend {
        collect_node(nodes, j, out);
    } else {
        assert(out@ =~= start + Seq::<usize>::empty());
    }
    let ghost mid = out@;
    collect_children(nodes, i, j + 1, out);
    proof {
        if descend {
            assert(start + table_children(nodes@, i as int, j as int) =~= start + table_node(
                nodes@,
                j as int,
            ) + table_children(nodes@, i as int, j + 1));
        } else {
            assert(start + table_children(nodes@, i as int, j as int) =~= start + table_children(
                nodes@,
                i as int,
                j + 1,
            ));
        }
    }
}

fn collect_node(nodes: &Vec<PNode>, i: usize, out: &mut Vec<usize>)
    requires
        tree_wf(nodes@),
    ensures
        final(out)@ == old(out)@ + table_node(nodes@, i as int),
    decreases nodes@.len() - i, 1int, 0int,
{
    if i >= nodes.len() {
        assert(old(out)@ + table_node(nodes@, i as int) =~= old(out)@);
        return;
    }
    let ghost start = out@;
    collect_children(nodes, i, i + 1, out);
    let node = nodes[i];
    if node.terminates == Terminate::Packet && node.is_packet_end {
        out.push(i);
        assert(out@ =~= start + table_node(nodes@, i as int));
    } else {
        assert(out@ =~= start + table_node(nodes@, i as int));
    }
}

/// A compiled filter set: the predicate tree and its outcome table.
pub struct Classifier {
    pub tree: PTree,
    pub outcome_ids: Vec<usize>,
}

impl Classifier {
    pub open spec fn wf(&self) -> bool {
        &&& self.tree.wf()
        &&& self.outcome_ids@ == outcome_table(self.tree.nodes@)
    }

    /// Compiles a predicate tree: lists, in post-order, the ids of the nodes whose verdict
    /// a packet can produce.
    pub fn compile(tree: PTree) -> (r: Classifier)
        requires
            tree.wf(),
        ensures
            r.wf(),
            r.tree == tree,
    {
        let mut ids: Vec<usize> = Vec::new();
        collect_node(&tree.nodes, 0, &mut ids);
        assert(ids@ =~= outcome_table(tree.nodes@));
        Classifier { tree, outcome_ids: ids }
    }

    /// Builds the tree of a filter set and compiles it; fails with the first malformed
    /// chain's first error.
    pub fn build(chains: &Vec<Vec<Predicate>>) -> (r: Result<Classifier, FilterError>)
        requires
            total_len(chains_view(chains@), chains@.len() as nat) + 1 < usize::MAX,
        ensures
            match r {
                Ok(c) => c.wf() && build_spec(chains_view(chains@)) == Ok::<Seq<PNode>, FilterError>(c.tree.nodes@),
                Err(e) => build_spec(chains_view(chains@)) == Err::<Seq<PNode>, FilterError>(e),
            },
    {
        match PTree::from_filters(chains) {
            Ok(t) => Ok(Classifier::compile(t)),
            Err(e) => Err(e),
        }
    }

    /// Classifies one packet.
    pub fn classify(&self, pkt: &[u8]) -> (r: FilterResult)
        requires
            self.wf(),
        ensures
            r == classify_spec(self.tree.nodes@, pkt@),
            match r {
                FilterResult::NoMatch => true,
                FilterResult::MatchNonTerminal(id) => self.outcome_ids@.contains(id)
                    && !self.tree.nodes@[id as int].is_terminal,
                FilterResult::MatchTerminal(id) => self.outcome_ids@.contains(id)
                    && self.tree.nodes@[id as int].is_terminal,
            },
    {
        proof {
            lemma_classify_in_table(self, pkt@);
        }
        let nodes = &self.tree.nodes;
        let root = nodes[0];
        match parse_ethernet(pkt) {
            Some(eth) => match run_children(nodes, pkt, 0, eth, 1, false) {
                Some(v) => v,
                None => if root.terminates == Terminate::Packet && root.is_packet_end {
                    if root.is_terminal {
                        FilterResult::MatchTerminal(0)
                    } else {
                        FilterResult::MatchNonTerminal(0)
                    }
                } else {
                    FilterResult::NoMatch
                },
            },
            None => if root.is_terminal {
                FilterResult::MatchTerminal(0)
            } else {
                FilterResult::NoMatch
            },
        }
    }
}

/// Whatever a packet is classified as, its id stands in the outcome table.
pub proof fn lemma_classify_in_table(c: &Classifier, pkt: Seq<u8>)
    requires
        c.wf(),
    ensures
        match classify_spec(c.tree.nodes@, pkt) {
            FilterResult::NoMatch => true,
            FilterResult::MatchNonTerminal(id) => c.outcome_ids@.contains(id)
                && !c.tree.nodes@[id as int].is_terminal,
            FilterResult::MatchTerminal(id) => c.outcome_ids@.contains(id)
                && c.tree.nodes@[id as int].is_terminal,
        },
{
    let nodes = c.tree.nodes@;
    let r = classify_spec(nodes, pkt);
    let a = table_children(nodes, 0, 1);
    let b = if emits(nodes, 0) {
        seq![0usize]
    } else {
        Seq::<usize>::empty()
    };
    assert(outcome_table(nodes) == a + b);
    assert(end_ok(nodes, 0));
    if let Some(eth) = parse_ethernet_spec(pkt) {
        lemma_children_sound(nodes, pkt, 0, eth, 1, false);
        lemma_children_in_table(nodes, pkt, 0, eth, 1, false);
    }
    if r != FilterResult::NoMatch {
        if emits(nodes, 0) {
            assert(b[0] == 0usize);
        }
        if a.contains(verdict_id(r)) || b.contains(verdict_id(r)) {
            lemma_concat_contains(a, b, verdict_id(r));
        }
    }
}

fn run_children(
    nodes: &Vec<PNode>,
    pkt: &[u8],
    i: usize,
    layer: Layer,
    j: usize,
    taken: bool,
) -> (r: Option<FilterResult>)
    requires
        tree_wf(nodes@),
    ensures
        r == eval_children(nodes@, pkt@, i as int, layer, j as int, taken),
    decreases nodes@.len() - i, 0int, nodes@.len() - j,
{
    if j <= i || j >= nodes.len() {
        return None;
    }
    let child = nodes[j];
    if child.parent != i || !child.pred.on_packet() {
        return run_children(nodes, pkt, i, layer, j + 1, taken);
    }
    match child.pred {
        Predicate::Unary { protocol } => if taken {
            run_children(nodes, pkt, i, layer, j + 1, taken)
        } else {
            match parse_next(pkt, layer, protocol) {
                Some(next) => match run_node(nodes, pkt, j, next) {
                    Some(v) => Some(v),
                    None => run_children(nodes, pkt, i, layer, j + 1, true),
                },
                None => run_children(nodes, pkt, i, layer, j + 1, false),
            }
        },
        Predicate::Binary { protocol, field, op, value } => if test_binary(
            pkt,
            layer,
            protocol,
            field,
            op,
            value,
        ) {
            match run_node(nodes, pkt, j, layer) {
                Some(v) => Some(v),
                None => run_children(nodes, pkt, i, layer, j + 1, taken),
            }
        } else {
            run_children(nodes, pkt, i, layer, j + 1, taken)
        },
    }
}

fn run_node(nodes: &Vec<PNode>, pkt: &[u8], i: usize, layer: Layer) -> (r: Option<FilterResult>)
    requires
        tree_wf(nodes@),
    ensures
        r == eval_node(nodes@, pkt@, i as int, layer),
    decreases nodes@.len() - i, 1int, 0int,
{
    if i >= nodes.len() {
        return None;
    }
    match run_children(nodes, pkt, i, layer, i + 1, false) {
        Some(v) => Some(v),
        None => {
            let node = nodes[i];
            if node.terminates == Terminate::Packet && node.is_packet_end {
                if node.is_terminal {
                    Some(FilterResult::MatchTerminal(i))
                } else {
                    Some(FilterResult::MatchNonTerminal(i))
                }
            } else {
                None
            }
        },
    }
}

} // verus!
