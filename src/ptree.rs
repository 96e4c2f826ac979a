//! The predicate tree: every filter's predicate chain merged into one tree.
//!
//! Nodes live in an arena indexed by their id. A node's children are the nodes
//! whose `parent` is that node, in order of id, which is the order of insertion.
use vstd::prelude::*;
use crate::predicate::{
    chain_error, chain_error_upto, check_chain, layer_after, lemma_error_sticks, on_packet_spec,
    pred_error, FilterError, Predicate, ProtocolName, Terminate,
};

verus! {

/// One node of the predicate tree.
#[derive(Clone, Copy, Debug, PartialEq, Eq, Structural)]
pub struct PNode {
    /// How this node is reached from its parent.
    pub pred: Predicate,
    /// The parent's id; the root is its own parent.
    pub parent: usize,
    pub id: usize,
    /// Reaching this node fully satisfies some filter.
    pub is_terminal: bool,
    /// The packet-level conditions of some filter end at this node.
    pub is_packet_end: bool,
    /// Whether the path to this node can be evaluated from packet bytes alone; whether
    /// the node has a verdict is decided by this together with `is_packet_end`.
    pub terminates: Terminate,
}

/// The merged tree; `nodes[0]` is the root, which stands for the Ethernet layer.
pub struct PTree {
    pub nodes: Vec<PNode>,
}

pub open spec fn root_pred() -> Predicate {
    Predicate::Unary { protocol: ProtocolName::Ethernet }
}

/// A child is resolved at packet level when its parent is and its own predicate is.
pub open spec fn child_terminates(parent: Terminate, pred: Predicate) -> Terminate {
    if parent == Terminate::Packet && on_packet_spec(pred) {
        Terminate::Packet
    } else {
        Terminate::Connection
    }
}

/// Node `j` is resolved at packet level exactly when its parent is and its own predicate is.
pub open spec fn term_ok(nodes: Seq<PNode>, j: int) -> bool {
    nodes[j].terminates == child_terminates(nodes[nodes[j].parent as int].terminates, nodes[j].pred)
}

/// Nodes `a` and `b` are not two children of one node reached by the same predicate.
pub open spec fn distinct_ok(nodes: Seq<PNode>, a: int, b: int) -> bool {
    nodes[a].parent == nodes[b].parent ==> nodes[a].pred != nodes[b].pred
}

/// The layer the packet is at once the predicates on the path to `j` held: the protocol
/// of the last protocol predicate on that path (Ethernet at the root).
pub open spec fn node_layer(nodes: Seq<PNode>, j: int) -> ProtocolName
    decreases j,
{
    if j <= 0 || j >= nodes.len() || nodes[j].parent >= j {
        ProtocolName::Ethernet
    } else {
        match nodes[j].pred {
            Predicate::Unary { protocol } => protocol,
            Predicate::Binary { .. } => node_layer(nodes, nodes[j].parent as int),
        }
    }
}

/// Node `j`'s predicate is well formed after the layer its parent is at.
pub open spec fn pred_ok(nodes: Seq<PNode>, j: int) -> bool {
    pred_error(node_layer(nodes, nodes[j].parent as int), nodes[j].pred) is None
}

/// A terminal node resolved at packet level is a packet-level end, so it has a verdict.
pub open spec fn end_ok(nodes: Seq<PNode>, j: int) -> bool {
    nodes[j].is_terminal && nodes[j].terminates == Terminate::Packet ==> nodes[j].is_packet_end
}

pub open spec fn tree_wf(nodes: Seq<PNode>) -> bool {
    &&& 1 <= nodes.len() < usize::MAX
    &&& nodes[0].parent == 0
    &&& nodes[0].pred == root_pred()
    &&& nodes[0].terminates == Terminate::Packet
    &&& forall|j: int| 0 <= j < nodes.len() ==> #[trigger] nodes[j].id == j
    &&& forall|j: int| 0 < j < nodes.len() ==> #[trigger] nodes[j].parent < j
    &&& forall|j: int| 0 < j < nodes.len() ==> #[trigger] term_ok(nodes, j)
    &&& forall|j: int| 0 <= j < nodes.len() ==> #[trigger] end_ok(nodes, j)
    &&& forall|j: int| 0 < j < nodes.len() ==> #[trigger] pred_ok(nodes, j)
    &&& forall|a: int, b: int| 0 < a < b < nodes.len() ==> #[trigger] distinct_ok(nodes, a, b)
}

/// Is `j` a child of `i`?
pub open spec fn is_child(nodes: Seq<PNode>, i: int, j: int) -> bool {
    0 < j < nodes.len() && nodes[j].parent == i
}

pub open spec fn has_child(nodes: Seq<PNode>, cur: int, pred: Predicate) -> bool {
    exists|j: int| is_child(nodes, cur, j) && #[trigger] nodes[j].pred == pred
}

/// The child of `cur` reached by `pred`, when there is one.
pub open spec fn child_with(nodes: Seq<PNode>, cur: int, pred: Predicate) -> int {
    choose|j: int| is_child(nodes, cur, j) && #[trigger] nodes[j].pred == pred
}

pub open spec fn new_node(nodes: Seq<PNode>, cur: int, pred: Predicate) -> PNode {
    PNode {
        pred,
        parent: cur as usize,
        id: nodes.len() as usize,
        is_terminal: false,
        is_packet_end: false,
        terminates: child_terminates(nodes[cur].terminates, pred),
    }
}

pub open spec fn mark_terminal(nodes: Seq<PNode>, cur: int) -> Seq<PNode> {
    nodes.update(
        cur,
        PNode {
            pred: nodes[cur].pred,
            parent: nodes[cur].parent,
            id: nodes[cur].id,
            is_terminal: true,
            is_packet_end: nodes[cur].is_packet_end,
            terminates: nodes[cur].terminates,
        },
    )
}

pub open spec fn mark_end(nodes: Seq<PNode>, end: int) -> Seq<PNode> {
    nodes.update(
        end,
        PNode {
            pred: nodes[end].pred,
            parent: nodes[end].parent,
            id: nodes[end].id,
            is_terminal: nodes[end].is_terminal,
            is_packet_end: true,
            terminates: nodes[end].terminates,
        },
    )
}

/// The deepest node resolved at packet level so far, after moving to `c`.
pub open spec fn next_end(nodes: Seq<PNode>, end: int, c: int) -> int {
    if nodes[c].terminates == Terminate::Packet {
        c
    } else {
        end
    }
}

/// Inserts `chain[k..]` below `cur`, reusing the existing child for each predicate
/// where there is one; the node the chain ends at becomes terminal, and the deepest
/// node on its path resolved at packet level (`end`, so far) becomes a packet-level
/// end. Yields the new nodes and the node the chain ends at.
pub open spec fn insert_from(
    nodes: Seq<PNode>,
    cur: int,
    end: int,
    chain: Seq<Predicate>,
    k: nat,
) -> (Seq<PNode>, int)
    decreases chain.len() - k,
{
    if k >= chain.len() {
        (mark_terminal(mark_end(nodes, end), cur), cur)
    } else if has_child(nodes, cur, chain[k as int]) {
        let c = child_with(nodes, cur, chain[k as int]);
        insert_from(nodes, c, next_end(nodes, end, c), chain, k + 1)
    } else {
        let grown = nodes.push(new_node(nodes, cur, chain[k as int]));
        let c = nodes.len() as int;
        insert_from(grown, c, next_end(grown, end, c), chain, k + 1)
    }
}

/// The predicates on the way from the root to `j`.
pub open spec fn path(nodes: Seq<PNode>, j: int) -> Seq<Predicate>
    decreases j,
{
    if j <= 0 || j >= nodes.len() || nodes[j].parent >= j {
        Seq::empty()
    } else {
        path(nodes, nodes[j].parent as int).push(nodes[j].pred)
    }
}

/// The tree holding only the root.
pub open spec fn initial_nodes() -> Seq<PNode> {
    seq![
        PNode {
            pred: root_pred(),
            parent: 0,
            id: 0,
            is_terminal: false,
            is_packet_end: false,
            terminates: Terminate::Packet,
        },
    ]
}

/// The tree built by inserting the first `n` chains in order, or the first error.
pub open spec fn build_upto(chains: Seq<Seq<Predicate>>, n: nat) -> Result<Seq<PNode>, FilterError>
    decreases n,
{
    if n == 0 || n > chains.len() {
        Ok(initial_nodes())
    } else {
        match build_upto(chains, (n - 1) as nat) {
            Err(e) => Err(e),
            Ok(nodes) => match chain_error(chains[n - 1]) {
                Some(e) => Err(e),
                None => Ok(insert_from(nodes, 0, 0, chains[n - 1], 0).0),
            },
        }
    }
}

pub open spec fn build_spec(chains: Seq<Seq<Predicate>>) -> Result<Seq<PNode>, FilterError> {
    build_upto(chains, chains.len())
}

pub open spec fn chains_view(chains: Seq<Vec<Predicate>>) -> Seq<Seq<Predicate>> {
    chains.map_values(|c: Vec<Predicate>| c@)
}

/// The number of predicates in the first `n` chains.
pub open spec fn total_len(chains: Seq<Seq<Predicate>>, n: nat) -> nat
    decreases n,
{
    if n == 0 || n > chains.len() {
        0
    } else {
        total_len(chains, (n - 1) as nat) + chains[n - 1].len()
    }
}

proof fn lemma_total_len_grows(chains: Seq<Seq<Predicate>>, m: nat, n: nat)
    requires
        m <= n <= chains.len(),
    ensures
        total_len(chains, m) <= total_len(chains, n),
    decreases n - m,
{
    if m < n {
        lemma_total_len_grows(chains, m, (n - 1) as nat);
    }
}

impl PTree {
    pub open spec fn wf(&self) -> bool {
        tree_wf(self.nodes@)
    }

    /// A tree holding only the root.
    pub fn new() -> (r: PTree)
        ensures
            r.wf(),
            r.nodes@ == seq![
                PNode {
                    pred: root_pred(),
                    parent: 0,
                    id: 0,
                    is_terminal: false,
                    is_packet_end: false,
                    terminates: Terminate::Packet,
                },
            ],
    {
        let mut nodes: Vec<PNode> = Vec::new();
        nodes.push(
            PNode {
                pred: Predicate::Unary { protocol: ProtocolName::Ethernet },
                parent: 0,
                id: 0,
                is_terminal: false,
                is_packet_end: false,
                terminates: Terminate::Packet,
            },
        );
        PTree { nodes }
    }

    /// Builds the tree of a filter set, inserting each chain in order; fails with the
    /// first malformed chain's first error.
    pub fn from_filters(chains: &Vec<Vec<Predicate>>) -> (r: Result<PTree, FilterError>)
        requires
            total_len(chains_view(chains@), chains@.len() as nat) + 1 < usize::MAX,
        ensures
            match r {
                Ok(t) => t.wf() && build_spec(chains_view(chains@)) == Ok::<Seq<PNode>, FilterError>(t.nodes@),
                Err(e) => build_spec(chains_view(chains@)) == Err::<Seq<PNode>, FilterError>(e),
            },
    {
        let ghost cv = chains_view(chains@);
        let mut t = PTree::new();
        let mut k: usize = 0;
        while k < chains.len()
            invariant
                t.wf(),
                0 <= k <= chains@.len(),
                cv == chains_view(chains@),
                total_len(cv, cv.len()) + 1 < usize::MAX,
                build_upto(cv, k as nat) == Ok::<Seq<PNode>, FilterError>(t.nodes@),
                t.nodes@.len() <= 1 + total_len(cv, k as nat),
            decreases chains@.len() - k,
        {
            proof {
                assert(cv[k as int] == chains@[k as int]@);
                lemma_total_len_grows(cv, (k + 1) as nat, cv.len());
                assert(t.nodes@.len() + chains@[k as int]@.len() < usize::MAX);
            }
            match t.insert(&chains[k]) {
                Err(e) => {
                    proof {
                        assert(build_upto(cv, (k + 1) as nat) == Err::<Seq<PNode>, FilterError>(e));
                        lemma_build_error_sticks(cv, (k + 1) as nat, cv.len());
                    }
                    return Err(e);
                },
                Ok(_) => {},
            }
            k = k + 1;
        }
        Ok(t)
    }

    pub fn len(&self) -> (r: usize)
        ensures
            r == self.nodes@.len(),
    {
        self.nodes.len()
    }

    /// The root node.
    pub fn root(&self) -> (r: PNode)
        requires
            self.wf(),
        ensures
            r == self.nodes@[0],
    {
        self.nodes[0]
    }

    /// The ids of the children of `i`, in order.
    pub fn children(&self, i: usize) -> (r: Vec<usize>)
        requires
            self.wf(),
        ensures
            forall|a: int, b: int| 0 <= a < b < r@.len() ==> r@[a] < r@[b],
            forall|a: int| 0 <= a < r@.len() ==> is_child(self.nodes@, i as int, #[trigger] r@[a] as int),
            forall|j: int| is_child(self.nodes@, i as int, j) ==> exists|a: int| 0 <= a < r@.len() && #[trigger] r@[a] == j,
    {
        let mut r: Vec<usize> = Vec::new();
        let mut j: usize = 1;
        while j < self.nodes.len()
            invariant
                self.wf(),
                1 <= j <= self.nodes@.len(),
                forall|a: int, b: int| 0 <= a < b < r@.len() ==> r@[a] < r@[b],
                forall|a: int| 0 <= a < r@.len() ==> r@[a] < j,
                forall|a: int| 0 <= a < r@.len() ==> is_child(self.nodes@, i as int, #[trigger] r@[a] as int),
                forall|x: int| is_child(self.nodes@, i as int, x) && x < j ==> exists|a: int| 0 <= a < r@.len() && #[trigger] r@[a] == x,
            decreases self.nodes@.len() - j,
        {
            let ghost prev = r@;
            if self.nodes[j].parent == i {
                r.push(j);
                proof {
                    assert(r@[r@.len() - 1] == j);
                }
            }
            proof {
                assert forall|x: int| is_child(self.nodes@, i as int, x) && x < j + 1 implies exists|
                    a: int,
                | 0 <= a < r@.len() && #[trigger] r@[a] == x by {
                    if x < j {
                        let a = choose|a: int| 0 <= a < prev.len() && #[trigger] prev[a] == x;
                        assert(r@[a] == prev[a]);
                    } else {
                        assert(r@[r@.len() - 1] == j);
                    }
                }
            }
            j = j + 1;
        }
        r
    }

    fn find_child(&self, cur: usize, pred: Predicate) -> (r: Option<usize>)
        requires
            self.wf(),
            cur < self.nodes@.len(),
        ensures
            match r {
                Some(j) => is_child(self.nodes@, cur as int, j as int) && self.nodes@[j as int].pred
                    == pred,
                None => !has_child(self.nodes@, cur as int, pred),
            },
    {
        let mut j: usize = cur + 1;
        while j < self.nodes.len()
            invariant
                self.wf(),
                cur < j <= self.nodes@.len(),
                forall|x: int|
                    is_child(self.nodes@, cur as int, x) && x < j ==> self.nodes@[x].pred != pred,
            decreases self.nodes@.len() - j,
        {
            if self.nodes[j].parent == cur && self.nodes[j].pred == pred {
                return Some(j);
            }
            j = j + 1;
        }
        None
    }

    /// Inserts a filter's predicate chain, reusing every node whose path is a prefix
    /// of the chain and marking the node the chain ends at as terminal. A malformed
    /// chain is rejected and the tree left as it was.
    pub fn insert(&mut self, chain: &Vec<Predicate>) -> (r: Result<usize, FilterError>)
        requires
            old(self).wf(),
            old(self).nodes@.len() + chain@.len() < usize::MAX,
        ensures
            match r {
                Err(e) => chain_error(chain@) == Some(e) && final(self).nodes@ == old(
                    self,
                ).nodes@,
                Ok(id) => {
                    &&& chain_error(chain@) is None
                    &&& (final(self).nodes@, id as int) == insert_from(
                        old(self).nodes@,
                        0,
                        0,
                        chain@,
                        0,
                    )
                    &&& (id as int) < final(self).nodes@.len()
                    &&& path(final(self).nodes@, id as int) == chain@
                    &&& final(self).nodes@[id as int].is_terminal
                },
            },
            final(self).wf(),
            final(self).nodes@.len() <= old(self).nodes@.len() + chain@.len(),
    {
        if let Some(e) = check_chain(chain) {
            return Err(e);
        }
        proof {
            lemma_insert_path(self.nodes@, chain@);
        }
        let ghost start = self.nodes@;
        let mut cur: usize = 0;
        let mut end: usize = 0;
        let mut k: usize = 0;
        while k < chain.len()
            invariant
                self.wf(),
                0 <= k <= chain@.len(),
                cur < self.nodes@.len(),
                end < self.nodes@.len(),
                self.nodes@[cur as int].terminates == Terminate::Packet ==> end == cur,
                chain_error(chain@) is None,
                node_layer(self.nodes@, cur as int) == layer_after(chain@, k as nat),
                self.nodes@.len() <= start.len() + k,
                start.len() + chain@.len() < usize::MAX,
                insert_from(self.nodes@, cur as int, end as int, chain@, k as nat) == insert_from(
                    start,
                    0,
                    0,
                    chain@,
                    0,
                ),
            decreases chain@.len() - k,
        {
            let pred = chain[k];
            match self.find_child(cur, pred) {
                Some(j) => {
                    proof {
                        let c = child_with(self.nodes@, cur as int, pred);
                        assert(self.nodes@[j as int].pred == pred);
                        assert(has_child(self.nodes@, cur as int, pred));
                        if c != j as int {
                            if c < j {
                                assert(distinct_ok(self.nodes@, c, j as int));
                            } else {
                                assert(distinct_ok(self.nodes@, j as int, c));
                            }
                        }
                    }
                    proof {
                        assert(node_layer(self.nodes@, j as int) == layer_after(chain@, (k + 1) as nat));
                    }
                    cur = j;
                },
                None => {
                    let t = self.nodes[cur].terminates;
                    let terminates = if t == Terminate::Packet && pred.on_packet() {
                        Terminate::Packet
                    } else {
                        Terminate::Connection
                    };
                    let id = self.nodes.len();
                    let ghost before = self.nodes@;
                    self.nodes.push(
                        PNode {
                            pred,
                            parent: cur,
                            id,
                            is_terminal: false,
                            is_packet_end: false,
                            terminates,
                        },
                    );
                    proof {
                        assert(self.nodes@ == before.push(new_node(before, cur as int, pred)));
                        lemma_chain_ok(chain@, k as nat);
                        lemma_push_wf(before, cur as int, pred);
                        assert forall|x: int| 0 <= x < before.len() implies #[trigger] self.nodes@[x].pred
                            == before[x].pred && self.nodes@[x].parent == before[x].parent by {
                            assert(self.nodes@[x] == before[x]);
                        }
                        lemma_path_stable(before, self.nodes@, cur as int);
                        assert(node_layer(self.nodes@, id as int) == layer_after(chain@, (k + 1) as nat));
                    }
                    cur = id;
                },
            }
            if self.nodes[cur].terminates == Terminate::Packet {
                end = cur;
            }
            k = k + 1;
        }
        let node = self.nodes[end];
        let ghost before = self.nodes@;
        self.nodes.set(
            end,
            PNode {
                pred: node.pred,
                parent: node.parent,
                id: node.id,
                is_terminal: node.is_terminal,
                is_packet_end: true,
                terminates: node.terminates,
            },
        );
        proof {
            lemma_mark_end_wf(before, end as int);
            assert(self.nodes@ == mark_end(before, end as int));
        }
        let node = self.nodes[cur];
        let ghost marked = self.nodes@;
        self.nodes.set(
            cur,
            PNode {
                pred: node.pred,
                parent: node.parent,
                id: node.id,
                is_terminal: true,
                is_packet_end: node.is_packet_end,
                terminates: node.terminates,
            },
        );
        proof {
            lemma_mark_wf(marked, cur as int);
            assert(self.nodes@ == mark_terminal(marked, cur as int));
        }
        Ok(cur)
    }
}

/// Once a filter is rejected, building a longer prefix of the set fails the same way.
pub proof fn lemma_build_error_sticks(chains: Seq<Seq<Predicate>>, m: nat, n: nat)
    requires
        m <= n <= chains.len(),
        build_upto(chains, m) is Err,
    ensures
        build_upto(chains, n) == build_upto(chains, m),
    decreases n - m,
{
    if m < n {
        lemma_build_error_sticks(chains, m, (n - 1) as nat);
    }
}

proof fn lemma_push_wf(nodes: Seq<PNode>, cur: int, pred: Predicate)
    requires
        tree_wf(nodes),
        0 <= cur < nodes.len(),
        nodes.len() + 1 < usize::MAX,
        !has_child(nodes, cur, pred),
        pred_error(node_layer(nodes, cur), pred) is None,
    ensures
        tree_wf(nodes.push(new_node(nodes, cur, pred))),
{
    let t = nodes.push(new_node(nodes, cur, pred));
    let n = nodes.len() as int;
    assert forall|i: int| 0 <= i < nodes.len() implies #[trigger] t[i].pred == nodes[i].pred
        && t[i].parent == nodes[i].parent by {
        assert(t[i] == nodes[i]);
    }
    assert forall|j: int| 0 < j < t.len() implies #[trigger] pred_ok(t, j) by {
        if j < n {
            assert(pred_ok(nodes, j));
            assert(t[j] == nodes[j]);
            lemma_path_stable(nodes, t, nodes[j].parent as int);
        } else {
            lemma_path_stable(nodes, t, cur);
        }
    }
    assert forall|j: int| 0 <= j < t.len() implies #[trigger] t[j].id == j by {
        if j < n {
            assert(t[j] == nodes[j]);
        }
    }
    assert forall|j: int| 0 < j < t.len() implies #[trigger] t[j].parent < j by {
        if j < n {
            assert(t[j] == nodes[j]);
        }
    }
    assert forall|j: int| 0 <= j < t.len() implies #[trigger] end_ok(t, j) by {
        if j < n {
            assert(end_ok(nodes, j));
            assert(t[j] == nodes[j]);
        }
    }
    assert forall|j: int| 0 < j < t.len() implies #[trigger] term_ok(t, j) by {
        if j < n {
            assert(term_ok(nodes, j));
            assert(t[j] == nodes[j]);
            assert(nodes[j].parent < j);
            assert(t[nodes[j].parent as int] == nodes[nodes[j].parent as int]);
        } else {
            assert(t[cur] == nodes[cur]);
        }
    }
    assert forall|a: int, b: int| 0 < a < b < t.len() implies #[trigger] distinct_ok(t, a, b) by {
        assert(t[a] == nodes[a]);
        if b == n {
            if t[a].parent == t[b].parent {
                assert(is_child(nodes, cur, a));
            }
        } else {
            assert(distinct_ok(nodes, a, b));
            assert(t[b] == nodes[b]);
        }
    }
}

/// Each predicate of a chain without errors is well formed after the layer before it.
proof fn lemma_chain_ok(chain: Seq<Predicate>, k: nat)
    requires
        chain_error(chain) is None,
        k < chain.len(),
    ensures
        pred_error(layer_after(chain, k), chain[k as int]) is None,
{
    if chain_error_upto(chain, k + 1) is Some {
        lemma_error_sticks(chain, k + 1, chain.len());
    }
}

/// Paths depend only on predicates and parents: a tree that keeps those of every node
/// of `a` keeps the paths of `a`.
proof fn lemma_path_stable(a: Seq<PNode>, b: Seq<PNode>, j: int)
    requires
        a.len() <= b.len(),
        forall|i: int|
            0 <= i < a.len() ==> #[trigger] b[i].pred == a[i].pred && b[i].parent == a[i].parent,
        0 <= j < a.len(),
    ensures
        path(b, j) == path(a, j),
        node_layer(b, j) == node_layer(a, j),
    decreases j,
{
    if j > 0 && a[j].parent < j {
        lemma_path_stable(a, b, a[j].parent as int);
    }
}

/// Inserting `chain[k..]` below `cur`, whose path is `chain[..k]`, ends at a terminal
/// node whose path is the whole chain, and keeps the tree well formed.
proof fn lemma_insert_from_path(
    nodes: Seq<PNode>,
    cur: int,
    end: int,
    chain: Seq<Predicate>,
    k: nat,
)
    requires
        tree_wf(nodes),
        0 <= cur < nodes.len(),
        0 <= end < nodes.len(),
        k <= chain.len(),
        nodes.len() + chain.len() - k < usize::MAX,
        path(nodes, cur) == chain.take(k as int),
        nodes[cur].terminates == Terminate::Packet ==> end == cur,
        chain_error(chain) is None,
        node_layer(nodes, cur) == layer_after(chain, k),
    ensures
        ({
            let r = insert_from(nodes, cur, end, chain, k);
            &&& tree_wf(r.0)
            &&& 0 <= r.1 < r.0.len()
            &&& path(r.0, r.1) == chain
            &&& r.0[r.1].is_terminal
        }),
    decreases chain.len() - k,
{
    if k >= chain.len() {
        let m = mark_end(nodes, end);
        let t = mark_terminal(m, cur);
        lemma_mark_end_wf(nodes, end);
        lemma_mark_wf(m, cur);
        lemma_path_stable(nodes, t, cur);
        assert(chain.take(k as int) =~= chain);
    } else if has_child(nodes, cur, chain[k as int]) {
        let c = child_with(nodes, cur, chain[k as int]);
        assert(nodes[c].parent < c);
        assert(path(nodes, c) == path(nodes, cur).push(chain[k as int]));
        assert(chain.take(k as int).push(chain[k as int]) =~= chain.take((k + 1) as int));
        assert(node_layer(nodes, c) == layer_after(chain, k + 1));
        lemma_insert_from_path(nodes, c, next_end(nodes, end, c), chain, k + 1);
    } else {
        let grown = nodes.push(new_node(nodes, cur, chain[k as int]));
        let c = nodes.len() as int;
        lemma_chain_ok(chain, k);
        lemma_push_wf(nodes, cur, chain[k as int]);
        assert forall|i: int| 0 <= i < nodes.len() implies #[trigger] grown[i].pred == nodes[i].pred
            && grown[i].parent == nodes[i].parent by {
            assert(grown[i] == nodes[i]);
        }
        lemma_path_stable(nodes, grown, cur);
        assert(node_layer(grown, c) == layer_after(chain, k + 1));
        assert(path(grown, c) == path(grown, cur).push(chain[k as int]));
        assert(chain.take(k as int).push(chain[k as int]) =~= chain.take((k + 1) as int));
        lemma_insert_from_path(grown, c, next_end(grown, end, c), chain, k + 1);
    }
}

/// Inserting a chain ends at a terminal node whose path from the root is the chain.
pub proof fn lemma_insert_path(nodes: Seq<PNode>, chain: Seq<Predicate>)
    requires
        tree_wf(nodes),
        chain_error(chain) is None,
        nodes.len() + chain.len() < usize::MAX,
    ensures
        ({
            let r = insert_from(nodes, 0, 0, chain, 0);
            &&& 0 <= r.1 < r.0.len()
            &&& path(r.0, r.1) == chain
            &&& r.0[r.1].is_terminal
        }),
{
    assert(chain.take(0) =~= Seq::<Predicate>::empty());
    lemma_insert_from_path(nodes, 0, 0, chain, 0);
}

proof fn lemma_mark_end_wf(nodes: Seq<PNode>, end: int)
    requires
        tree_wf(nodes),
        0 <= end < nodes.len(),
    ensures
        tree_wf(mark_end(nodes, end)),
{
    let t = mark_end(nodes, end);
    assert forall|i: int| 0 <= i < nodes.len() implies #[trigger] t[i].pred == nodes[i].pred
        && t[i].parent == nodes[i].parent by {
    }
    assert forall|j: int| 0 < j < t.len() implies #[trigger] pred_ok(t, j) by {
        assert(pred_ok(nodes, j));
        lemma_path_stable(nodes, t, t[j].parent as int);
    }
    assert forall|j: int| 0 <= j < t.len() implies #[trigger] t[j].id == j by {
        assert(nodes[j].id == j);
    }
    assert forall|j: int| 0 < j < t.len() implies #[trigger] t[j].parent < j by {
        assert(nodes[j].parent < j);
    }
    assert forall|j: int| 0 < j < t.len() implies #[trigger] term_ok(t, j) by {
        assert(term_ok(nodes, j));
    }
    assert forall|j: int| 0 <= j < t.len() implies #[trigger] end_ok(t, j) by {
        assert(end_ok(nodes, j));
    }
    assert forall|a: int, b: int| 0 < a < b < t.len() implies #[trigger] distinct_ok(t, a, b) by {
        assert(distinct_ok(nodes, a, b));
    }
}

proof fn lemma_mark_wf(nodes: Seq<PNode>, cur: int)
    requires
        tree_wf(nodes),
        0 <= cur < nodes.len(),
        nodes[cur].terminates == Terminate::Packet ==> nodes[cur].is_packet_end,
    ensures
        tree_wf(mark_terminal(nodes, cur)),
{
    let t = mark_terminal(nodes, cur);
    assert forall|i: int| 0 <= i < nodes.len() implies #[trigger] t[i].pred == nodes[i].pred
        && t[i].parent == nodes[i].parent by {
    }
    assert forall|j: int| 0 < j < t.len() implies #[trigger] pred_ok(t, j) by {
        assert(pred_ok(nodes, j));
        lemma_path_stable(nodes, t, t[j].parent as int);
    }
    assert forall|j: int| 0 <= j < t.len() implies #[trigger] t[j].id == j by {
        assert(nodes[j].id == j);
    }
    assert forall|j: int| 0 < j < t.len() implies #[trigger] t[j].parent < j by {
        assert(nodes[j].parent < j);
    }
    assert forall|j: int| 0 < j < t.len() implies #[trigger] term_ok(t, j) by {
        assert(term_ok(nodes, j));
    }
    assert forall|j: int| 0 <= j < t.len() implies #[trigger] end_ok(t, j) by {
        assert(end_ok(nodes, j));
    }
    assert forall|a: int, b: int| 0 < a < b < t.len() implies #[trigger] distinct_ok(t, a, b) by {
        assert(distinct_ok(nodes, a, b));
    }
}

} // verus!
