//! The weighted topology graph: a table of known nodes (role plus learned
//! statistics) and an undirected adjacency relation over small integer node
//! identifiers, with a best-first path search whose interior hops are
//! restricted to relay nodes.
//!
//! Node identifiers are bytes, so both tables are fixed arrays of 256 slots
//! indexed by identifier; an unused identifier holds `None` (or an empty
//! adjacency list).

use vstd::prelude::*;
use vstd::arithmetic::mul::lemma_mul_inequality;
use crate::cost::{
    node_cost_spec, sat_add_spec, sat_add, STAT_SCALE, COST_SCALE, COST_SENTINEL,
    lemma_cost_bounds,
};

verus! {

/// The number of distinct node identifiers (a byte).
pub const ID_SPACE: usize = 256;

/// The role a node plays in the network. Only drones relay traffic, so only
/// drones may serve as interior hops of a route; clients and servers are the
/// endpoints traffic is routed between.
#[derive(Clone, Copy, PartialEq, Eq, Structural, Debug)]
pub enum NodeType {
    Client,
    Drone,
    Server,
}

/// Why a path query failed.
#[derive(Clone, Copy, PartialEq, Eq, Structural, Debug)]
pub enum PathError {
    /// An endpoint is unknown, is a relay (drone), or equals the other one.
    InvalidEndpoint,
    /// Both endpoints are valid but the search exhausted the frontier.
    NoPathFound,
}

/// An ordered route through the network: the hop identifiers from origin to
/// destination inclusive, with a read cursor. The cursor starts at 1, the
/// first hop after the origin, since the origin itself need not be
/// traversed by the caller.
pub struct RouteHeader {
    pub hops: Vec<u8>,
    pub hop_index: usize,
}

/// A known node: its role, its learned statistics (scaled by
/// [`STAT_SCALE`]), and a memo of the best known cumulative cost to reach
/// each destination through this node, filled in by past searches and used
/// as the search heuristic.
pub struct Node {
    pub node_type: NodeType,
    pub congestion: u64,
    pub pdr: u64,
    pub predictions: Vec<Option<u64>>,
}

impl Node {
    /// Statistics stay inside the scale and the memo covers the identifier
    /// space.
    pub closed spec fn wf(self) -> bool {
        &&& self.congestion <= STAT_SCALE
        &&& self.pdr <= STAT_SCALE
        &&& self.predictions.len() == ID_SPACE
    }

    /// A freshly discovered node: zero statistics (unknown, not perfect)
    /// and an empty memo.
    pub fn new(node_type: NodeType) -> (n: Node)
        ensures
            n.wf(),
            n.node_type == node_type,
            n.congestion == 0,
            n.pdr == 0,
            forall|d: int| 0 <= d < ID_SPACE ==> n.predictions[d] is None,
    {
        let mut predictions: Vec<Option<u64>> = Vec::new();
        let mut i: usize = 0;
        while i < ID_SPACE
            invariant
                i <= ID_SPACE,
                predictions.len() == i,
                forall|d: int| 0 <= d < i ==> predictions[d] is None,
            decreases ID_SPACE - i,
        {
            predictions.push(None);
            i = i + 1;
        }
        Node { node_type, congestion: 0, pdr: 0, predictions }
    }

    pub fn update_congestion(&mut self, congestion: u64)
        requires
            old(self).wf(),
            congestion <= STAT_SCALE,
        ensures
            *final(self) == (Node { congestion, ..*old(self) }),
            final(self).wf(),
    {
        self.congestion = congestion;
    }

    pub fn update_pdr(&mut self, pdr: u64)
        requires
            old(self).wf(),
            pdr <= STAT_SCALE,
        ensures
            *final(self) == (Node { pdr, ..*old(self) }),
            final(self).wf(),
    {
        self.pdr = pdr;
    }

    /// The node's traversal cost, from its reliability and congestion.
    pub fn get_weight(&self) -> (w: u64)
        requires
            self.wf(),
        ensures
            w == node_cost_spec(self.pdr, self.congestion),
    {
        let d = self.pdr + (STAT_SCALE - self.congestion);
        if d == 0 {
            COST_SENTINEL
        } else {
            COST_SCALE / d
        }
    }
}

/// Every known node's statistics and memo table are well formed.
pub(crate) open spec fn nodes_wf(nodes: Seq<Option<Node>>) -> bool {
    forall|i: int| 0 <= i < nodes.len() && nodes[i] is Some ==> (#[trigger] nodes[i])->0.wf()
}

/// The adjacency relation is symmetric.
pub(crate) open spec fn adj_symmetric(g: Seq<Vec<u8>>) -> bool {
    forall|a: u8, b: u8| #[trigger] g[a as int]@.contains(b) ==> g[b as int]@.contains(a)
}

/// The topology graph: a node table and an undirected adjacency relation,
/// both indexed by node identifier.
pub struct Graph {
    nodes: Vec<Option<Node>>,
    graph: Vec<Vec<u8>>,
}

impl Graph {
    pub closed spec fn wf(self) -> bool {
        &&& self.nodes.len() == ID_SPACE
        &&& self.graph.len() == ID_SPACE
        &&& nodes_wf(self.nodes@)
        &&& adj_symmetric(self.graph@)
    }

    /// Whether `id` is in the node table.
    pub closed spec fn has_node(self, id: u8) -> bool {
        self.nodes[id as int] is Some
    }

    pub closed spec fn node_at(self, id: u8) -> Node
        recommends
            self.has_node(id),
    {
        self.nodes[id as int]->0
    }

    pub open spec fn role_of(self, id: u8) -> NodeType
        recommends
            self.has_node(id),
    {
        self.node_at(id).node_type
    }

    /// The learned statistics of `id` as (reliability, congestion), and
    /// (0, 0) for an unknown identifier.
    pub open spec fn stats_of(self, id: u8) -> (u64, u64) {
        if self.has_node(id) {
            (self.node_at(id).pdr, self.node_at(id).congestion)
        } else {
            (0u64, 0u64)
        }
    }

    /// The memoized best known cost from `id` to `dest`, if any.
    pub open spec fn memo_of(self, id: u8, dest: u8) -> Option<u64> {
        if self.has_node(id) {
            self.node_at(id).predictions[dest as int]
        } else {
            None
        }
    }

    /// Whether the adjacency relation links `a` to `b`.
    pub closed spec fn has_edge(self, a: u8, b: u8) -> bool {
        self.graph[a as int]@.contains(b)
    }

    /// The traversal cost of `id` under the current statistics.
    pub open spec fn node_cost_of(self, id: u8) -> u64 {
        node_cost_spec(self.stats_of(id).0, self.stats_of(id).1)
    }

    /// The two graphs contain the same nodes, roles and edges.
    pub open spec fn same_structure(self, other: Graph) -> bool {
        &&& forall|id: u8| self.has_node(id) == other.has_node(id)
        &&& forall|id: u8| self.has_node(id) ==> #[trigger] self.role_of(id) == other.role_of(id)
        &&& forall|a: u8, b: u8| self.has_edge(a, b) == other.has_edge(a, b)
    }

    /// The two graphs agree on every node's statistics.
    pub open spec fn same_stats(self, other: Graph) -> bool {
        forall|id: u8| #[trigger] self.stats_of(id) == other.stats_of(id)
    }

    /// The two graphs agree on every cost memo.
    pub open spec fn same_memos(self, other: Graph) -> bool {
        forall|id: u8, dest: u8| #[trigger] self.memo_of(id, dest) == other.memo_of(id, dest)
    }

    /// No node and no edge is known.
    pub open spec fn is_empty(self) -> bool {
        &&& forall|id: u8| !self.has_node(id)
        &&& forall|a: u8, b: u8| !self.has_edge(a, b)
    }

    /// Both endpoints of a requested route must be known, distinct,
    /// non-relay participants.
    pub open spec fn invalid_endpoints(self, start: u8, end: u8) -> bool {
        ||| !self.has_node(start)
        ||| !self.has_node(end)
        ||| self.role_of(start) == NodeType::Drone
        ||| self.role_of(end) == NodeType::Drone
        ||| start == end
    }

    /// `hops` is a route from `start` to `end`: it walks existing edges
    /// between known nodes and every interior hop is a relay.
    pub open spec fn valid_route(self, hops: Seq<u8>, start: u8, end: u8) -> bool {
        &&& hops.len() >= 2
        &&& hops[0] == start
        &&& hops[hops.len() - 1] == end
        &&& forall|i: int| 0 <= i < hops.len() ==> self.has_node(#[trigger] hops[i])
        &&& forall|i: int| 0 < i < hops.len() - 1 ==> self.role_of(#[trigger] hops[i]) == NodeType::Drone
        &&& forall|i: int| 0 <= i < hops.len() - 1 ==> self.has_edge(#[trigger] hops[i], hops[i + 1])
    }

    /// The cumulative cost of the tail of `hops` that starts at position
    /// `i`, including the cost of `hops[i]` itself.
    pub open spec fn route_cost_from(self, hops: Seq<u8>, i: int) -> u64
        decreases hops.len() - i,
    {
        if i < 0 || i >= hops.len() {
            0
        } else {
            sat_add_spec(self.route_cost_from(hops, i + 1), self.node_cost_of(hops[i]))
        }
    }

    fn empty_nodes() -> (v: Vec<Option<Node>>)
        ensures
            v.len() == ID_SPACE,
            forall|i: int| 0 <= i < ID_SPACE ==> v[i] is None,
    {
        let mut v: Vec<Option<Node>> = Vec::new();
        let mut i: usize = 0;
        while i < ID_SPACE
            invariant
                i <= ID_SPACE,
                v.len() == i,
                forall|j: int| 0 <= j < i ==> v[j] is None,
            decreases ID_SPACE - i,
        {
            v.push(None);
            i = i + 1;
        }
        v
    }

    fn empty_adjacency() -> (v: Vec<Vec<u8>>)
        ensures
            v.len() == ID_SPACE,
            forall|i: int| 0 <= i < ID_SPACE ==> (#[trigger] v[i])@.len() == 0,
    {
        let mut v: Vec<Vec<u8>> = Vec::new();
        let mut i: usize = 0;
        while i < ID_SPACE
            invariant
                i <= ID_SPACE,
                v.len() == i,
                forall|j: int| 0 <= j < i ==> (#[trigger] v[j])@.len() == 0,
            decreases ID_SPACE - i,
        {
            v.push(Vec::new());
            i = i + 1;
        }
        v
    }

    pub fn new() -> (g: Graph)
        ensures
            g.wf(),
            g.is_empty(),
    {
        Graph { nodes: Self::empty_nodes(), graph: Self::empty_adjacency() }
    }

    /// Discard all nodes and adjacency, as when a new round's graph is
    /// started.
    pub fn clear(&mut self)
        ensures
            final(self).wf(),
            final(self).is_empty(),
    {
        self.nodes = Self::empty_nodes();
        self.graph = Self::empty_adjacency();
    }

    /// Insert a node with zero statistics if not already present; adding an
    /// already-known node is a no-op, so the first observed role wins.
    pub fn add_node(&mut self, id: u8, node_type: NodeType)
        requires
            old(self).wf(),
        ensures
            final(self).wf(),
            final(self).has_node(id),
            old(self).has_node(id) ==> *final(self) == *old(self),
            !old(self).has_node(id) ==> {
                &&& final(self).role_of(id) == node_type
                &&& final(self).stats_of(id) == (0u64, 0u64)
                &&& forall|d: u8| final(self).memo_of(id, d) is None
                &&& forall|i: u8| i != id ==> final(self).has_node(i) == old(self).has_node(i)
                &&& forall|i: u8| i != id && old(self).has_node(i) ==> final(self).node_at(i) == old(self).node_at(i)
                &&& forall|a: u8, b: u8| final(self).has_edge(a, b) == old(self).has_edge(a, b)
            },
    {
        if self.nodes[id as usize].is_some() {
            return;
        }
        self.nodes[id as usize] = Some(Node::new(node_type));
    }

    /// Insert both directions of adjacency between `n1` and `n2`;
    /// idempotent, and the nodes themselves may be added afterward.
    pub fn add_edge(&mut self, n1: u8, n2: u8)
        requires
            old(self).wf(),
        ensures
            final(self).wf(),
            forall|a: u8, b: u8| final(self).has_edge(a, b) == (
                old(self).has_edge(a, b) || (a == n1 && b == n2) || (a == n2 && b == n1)
            ),
            forall|i: u8| final(self).has_node(i) == old(self).has_node(i),
            forall|i: u8| old(self).has_node(i) ==> final(self).node_at(i) == old(self).node_at(i),
    {
        self.insert_neighbor(n1, n2);
        self.insert_neighbor(n2, n1);
        proof {
            assert forall|a: u8, b: u8| #[trigger] self.graph@[a as int]@.contains(b)
                implies self.graph@[b as int]@.contains(a) by {
                assert(self.has_edge(a, b));
                if old(self).has_edge(a, b) {
                    assert(old(self).has_edge(b, a));
                }
                assert(self.has_edge(b, a));
            }
        }
    }

    /// Record `nbr` in `id`'s adjacency list if it is not yet there.
    fn insert_neighbor(&mut self, id: u8, nbr: u8)
        requires
            old(self).graph.len() == ID_SPACE,
        ensures
            final(self).nodes == old(self).nodes,
            final(self).graph.len() == ID_SPACE,
            forall|a: u8, b: u8| final(self).has_edge(a, b) == (
                old(self).has_edge(a, b) || (a == id && b == nbr)
            ),
    {
        let n = self.graph[id as usize].len();
        let mut k: usize = 0;
        while k < n
            invariant
                *self == *old(self),
                self.graph.len() == ID_SPACE,
                n == self.graph[id as int]@.len(),
                k <= n,
                forall|j: int| 0 <= j < k ==> self.graph[id as int]@[j] != nbr,
            decreases n - k,
        {
            if self.graph[id as usize][k] == nbr {
                proof {
                    assert(self.graph[id as int]@.contains(nbr)) by {
                        assert(self.graph[id as int]@[k as int] == nbr);
                    }
                }
                return;
            }
            k = k + 1;
        }
        proof {
            assert(!self.graph[id as int]@.contains(nbr));
        }
        self.graph[id as usize].push(nbr);
        proof {
            let new_list = self.graph[id as int]@;
            let old_list = old(self).graph[id as int]@;
            assert(new_list == old_list.push(nbr));
            assert(new_list[new_list.len() - 1] == nbr);
            assert(new_list.contains(nbr));
            assert forall|a: u8, b: u8| self.has_edge(a, b) == (
                old(self).has_edge(a, b) || (a == id && b == nbr)
            ) by {
                if a == id {
                    if self.has_edge(a, b) && b != nbr {
                        let j = choose|j: int| 0 <= j < new_list.len() && new_list[j] == b;
                        assert(old_list[j] == b);
                        assert(old(self).has_edge(a, b));
                    }
                    if old(self).has_edge(a, b) {
                        let j = choose|j: int| 0 <= j < old_list.len() && old_list[j] == b;
                        assert(new_list[j] == b);
                        assert(self.has_edge(a, b));
                    }
                } else {
                    assert(self.graph[a as int] == old(self).graph[a as int]);
                }
            }
        }
    }

    /// The statistics of `id`, and (0, 0) for an unknown identifier.
    pub fn get_node_weight(&self, id: u8) -> (r: (u64, u64))
        requires
            self.wf(),
        ensures
            r == self.stats_of(id),
            r.0 <= STAT_SCALE,
            r.1 <= STAT_SCALE,
    {
        match &self.nodes[id as usize] {
            Some(node) => (node.pdr, node.congestion),
            None => (0, 0),
        }
    }

    /// Overwrite both statistics of `id`; a no-op on an unknown identifier.
    pub fn update_node_weight(&mut self, id: u8, weight: (u64, u64))
        requires
            old(self).wf(),
            weight.0 <= STAT_SCALE,
            weight.1 <= STAT_SCALE,
        ensures
            final(self).wf(),
            final(self).same_structure(*old(self)),
            final(self).same_memos(*old(self)),
            old(self).has_node(id) ==> final(self).stats_of(id) == weight,
            !old(self).has_node(id) ==> final(self).stats_of(id) == old(self).stats_of(id),
            forall|i: u8| i != id ==> final(self).stats_of(i) == old(self).stats_of(i),
    {
        match &mut self.nodes[id as usize] {
            Some(node) => {
                node.pdr = weight.0;
                node.congestion = weight.1;
            }
            None => {}
        }
    }

    /// Overwrite the congestion of `id`; a no-op on an unknown identifier.
    pub fn update_node_congestion(&mut self, id: u8, congestion: u64)
        requires
            old(self).wf(),
            congestion <= STAT_SCALE,
        ensures
            final(self).wf(),
            final(self).same_structure(*old(self)),
            final(self).same_memos(*old(self)),
            old(self).has_node(id) ==> final(self).stats_of(id) == (old(self).stats_of(id).0, congestion),
            !old(self).has_node(id) ==> final(self).stats_of(id) == old(self).stats_of(id),
            forall|i: u8| i != id ==> final(self).stats_of(i) == old(self).stats_of(i),
    {
        match &mut self.nodes[id as usize] {
            Some(node) => {
                node.update_congestion(congestion);
            }
            None => {}
        }
    }

    /// The memoized cost from `current` toward `end`, or zero when nothing
    /// is memoized; the search heuristic.
    fn a_star_heuristics(&self, current: u8, end: u8) -> (h: u64)
        requires
            self.wf(),
        ensures
            h == match self.memo_of(current, end) {
                Some(v) => v,
                None => 0u64,
            },
    {
        match &self.nodes[current as usize] {
            Some(node) => {
                match node.predictions[end as usize] {
                    Some(v) => v,
                    None => 0,
                }
            }
            None => 0,
        }
    }

    /// The traversal cost of a known node.
    fn node_weight_of(&self, id: u8) -> (w: u64)
        requires
            self.wf(),
            self.has_node(id),
        ensures
            w == self.node_cost_of(id),
    {
        match &self.nodes[id as usize] {
            Some(node) => node.get_weight(),
            None => {
                proof {
                    assert(false);
                }
                COST_SENTINEL
            }
        }
    }

    /// Write one cost-memo entry of a known node.
    fn set_memo(&mut self, id: u8, dest: u8, val: u64)
        requires
            old(self).wf(),
            old(self).has_node(id),
        ensures
            final(self).wf(),
            final(self).same_structure(*old(self)),
            final(self).same_stats(*old(self)),
            final(self).memo_of(id, dest) == Some(val),
            forall|i: u8, d: u8| !(i == id && d == dest) ==> final(self).memo_of(i, d) == old(self).memo_of(i, d),
    {
        match &mut self.nodes[id as usize] {
            Some(node) => {
                node.predictions[dest as usize] = Some(val);
            }
            None => {}
        }
    }

    /// Overwrite the reliability of `id`; a no-op on an unknown identifier.
    pub fn update_node_pdr(&mut self, id: u8, pdr: u64)
        requires
            old(self).wf(),
            pdr <= STAT_SCALE,
        ensures
            final(self).wf(),
            final(self).same_structure(*old(self)),
            final(self).same_memos(*old(self)),
            old(self).has_node(id) ==> final(self).stats_of(id) == (pdr, old(self).stats_of(id).1),
            !old(self).has_node(id) ==> final(self).stats_of(id) == old(self).stats_of(id),
            forall|i: u8| i != id ==> final(self).stats_of(i) == old(self).stats_of(i),
    {
        match &mut self.nodes[id as usize] {
            Some(node) => {
                node.update_pdr(pdr);
            }
            None => {}
        }
    }

    /// A full owned copy of this graph, used to snapshot the current
    /// topology when a new discovery round begins.
    pub fn duplicate(&self) -> (g: Graph)
        requires
            self.wf(),
        ensures
            g.wf(),
            g.same_structure(*self),
            g.same_stats(*self),
            g.same_memos(*self),
    {
        let mut nodes: Vec<Option<Node>> = Vec::new();
        let mut i: usize = 0;
        while i < ID_SPACE
            invariant
                i <= ID_SPACE,
                nodes@.len() == i,
                self.wf(),
                forall|j: int| 0 <= j < i ==> ((#[trigger] nodes@[j]) is Some
                    == self.nodes@[j] is Some),
                forall|j: int| 0 <= j < i && self.nodes@[j] is Some ==> {
                    &&& (#[trigger] nodes@[j])->0.node_type == self.nodes@[j]->0.node_type
                    &&& nodes@[j]->0.pdr == self.nodes@[j]->0.pdr
                    &&& nodes@[j]->0.congestion == self.nodes@[j]->0.congestion
                    &&& nodes@[j]->0.predictions@ == self.nodes@[j]->0.predictions@
                },
            decreases ID_SPACE - i,
        {
            match &self.nodes[i] {
                Some(n) => {
                    let copied = Node {
                        node_type: n.node_type,
                        congestion: n.congestion,
                        pdr: n.pdr,
                        predictions: copy_memo(&n.predictions),
                    };
                    nodes.push(Some(copied));
                }
                None => {
                    nodes.push(None);
                }
            }
            i = i + 1;
        }
        let mut adjacency: Vec<Vec<u8>> = Vec::new();
        let mut a: usize = 0;
        while a < ID_SPACE
            invariant
                a <= ID_SPACE,
                adjacency@.len() == a,
                self.wf(),
                forall|j: int| 0 <= j < a ==> (#[trigger] adjacency@[j])@ == self.graph@[j]@,
            decreases ID_SPACE - a,
        {
            adjacency.push(copy_hops(&self.graph[a]));
            a = a + 1;
        }
        let g = Graph { nodes, graph: adjacency };
        proof {
            assert forall|x: u8, y: u8| g.has_edge(x, y) == self.has_edge(x, y) by {
                assert(g.graph@[x as int]@ == self.graph@[x as int]@);
            }
            assert forall|x: u8, y: u8| #[trigger] g.graph@[x as int]@.contains(y)
                implies g.graph@[y as int]@.contains(x) by {
                assert(self.graph@[x as int]@.contains(y));
                assert(self.graph@[y as int]@.contains(x));
            }
            assert forall|id: u8| #[trigger] g.stats_of(id) == self.stats_of(id) by {
                assert(g.has_node(id) == self.has_node(id));
            }
            assert forall|id: u8, dest: u8| #[trigger] g.memo_of(id, dest)
                == self.memo_of(id, dest) by {
                assert(g.has_node(id) == self.has_node(id));
                if g.has_node(id) {
                    assert(g.node_at(id).predictions@ == self.node_at(id).predictions@);
                }
            }
        }
        g
    }

    /// Walk the parent chain from `end` back to `start`, producing the
    /// route, and memoize on every node of it the cumulative cost from that
    /// node to `end`, the seed of future searches' heuristic.
    #[verifier::loop_isolation(false)]
    #[verifier::rlimit(100)]
    fn reconstruct_path(
        &mut self,
        came: &Vec<Option<u8>>,
        Ghost(gsc): Ghost<Seq<u64>>,
        start: u8,
        end: u8,
    ) -> (hdr: RouteHeader)
        requires
            old(self).wf(),
            came_ok(*old(self), came@, gsc, start, end),
            came@[end as int] is Some,
            old(self).has_node(start),
            start != end,
            gsc[start as int] == 0,
        ensures
            final(self).wf(),
            final(self).same_structure(*old(self)),
            final(self).same_stats(*old(self)),
            hdr.hop_index == 1,
            old(self).valid_route(hdr.hops@, start, end),
            forall|i: int, j: int| 0 <= i < j < hdr.hops@.len() ==> hdr.hops@[i] != hdr.hops@[j],
            forall|i: int| 0 <= i < hdr.hops@.len() ==> final(self).memo_of(hdr.hops@[i], end)
                == Some(old(self).route_cost_from(hdr.hops@, i)),
            forall|i2: u8, d: u8| !(hdr.hops@.contains(i2) && d == end) ==> final(self).memo_of(
                i2, d) == old(self).memo_of(i2, d),
            old(self).route_cost_from(hdr.hops@, 1) as int <= gsc[end as int],
    {
        let mut rev: Vec<u8> = Vec::new();
        let mut current: u8 = end;
        rev.push(current);
        #[verifier::loop_isolation(true)]
        while came[current as usize].is_some()
            invariant
                came_ok(*old(self), came@, gsc, start, end),
                rev@.len() >= 1,
                rev@[0] == end,
                rev@[rev@.len() - 1] == current,
                current == start || came@[current as int] is Some,
                forall|t: int| 0 <= t < rev@.len() - 1 ==> came@[(#[trigger] rev@[t]) as int]
                    == Some(rev@[t + 1]),
                forall|t1: int, t2: int| 0 <= t1 < t2 < rev@.len() ==> gsc[rev@[t2] as int]
                    < gsc[rev@[t1] as int],
            decreases gsc[current as int],
        {
            let p = came[current as usize].unwrap();
            proof {
                assert(came_entry_ok(*self, came@, gsc, start, end, current));
                assert forall|t1: int| 0 <= t1 < rev@.len() implies gsc[p as int]
                    < gsc[rev@[t1] as int] by {
                    assert(gsc[p as int] < gsc[current as int]);
                    if t1 < rev@.len() - 1 {
                        assert(gsc[current as int] < gsc[rev@[t1] as int]);
                    }
                }
            }
            current = p;
            rev.push(current);
        }
        proof {
            assert(current == start);
            assert(rev@.len() >= 2) by {
                assert(rev@[0] == end);
                assert(rev@[rev@.len() - 1] == start);
            }
        }
        let n = rev.len();
        let mut hops: Vec<u8> = Vec::new();
        let mut i: usize = n;
        #[verifier::loop_isolation(true)]
        while i > 0
            invariant
                n == rev@.len(),
                i <= n,
                hops@.len() == n - i,
                forall|j: int| 0 <= j < hops@.len() ==> hops@[j] == rev@[n - 1 - j],
            decreases i,
        {
            i = i - 1;
            hops.push(rev[i]);
        }
        proof {
            lemma_reconstructed_route(*old(self), gsc, came@, rev@, hops@, start, end);
        }
        let m = hops.len();
        let mut acc: u64 = 0;
        let mut t: usize = m;
        while t > 0
            invariant
                t <= m,
                self.wf(),
                self.same_structure(*old(self)),
                self.same_stats(*old(self)),
                acc == old(self).route_cost_from(hops@, t as int),
                forall|j: int| t <= j < m ==> self.memo_of(#[trigger] hops@[j], end)
                    == Some(old(self).route_cost_from(hops@, j)),
                forall|i2: u8, d: u8| !(hops@.subrange(t as int, m as int).contains(i2)
                    && d == end) ==> self.memo_of(i2, d) == old(self).memo_of(i2, d),
            decreases t,
        {
            t = t - 1;
            let id = hops[t];
            proof {
                assert(old(self).has_node(id));
                assert(self.has_node(id));
            }
            let w = self.node_weight_of(id);
            proof {
                assert(self.stats_of(id) == old(self).stats_of(id));
                assert(w == old(self).node_cost_of(id));
            }
            acc = sat_add(acc, w);
            proof {
                assert(acc == old(self).route_cost_from(hops@, t as int));
            }
            let ghost mid = *self;
            self.set_memo(id, end, acc);
            proof {
                let sub_now = hops@.subrange(t as int, m as int);
                let sub_prev = hops@.subrange(t as int + 1, m as int);
                assert(sub_now[0] == id);
                assert(sub_now.contains(id));
                assert forall|i2: u8, d: u8| !(sub_now.contains(i2) && d == end)
                    implies self.memo_of(i2, d) == old(self).memo_of(i2, d) by {
                    if !(i2 == id && d == end) {
                        if sub_prev.contains(i2) {
                            let j3 = choose|j3: int| 0 <= j3 < sub_prev.len()
                                && sub_prev[j3] == i2;
                            assert(sub_now[j3 + 1] == i2);
                            assert(sub_now.contains(i2));
                        }
                        assert(mid.memo_of(i2, d) == old(self).memo_of(i2, d));
                    }
                }
                assert forall|j: int| t <= j < m implies self.memo_of(#[trigger] hops@[j], end)
                    == Some(old(self).route_cost_from(hops@, j)) by {
                    if j > t {
                        assert(hops@[j] != id);
                        assert(mid.memo_of(hops@[j], end)
                            == Some(old(self).route_cost_from(hops@, j)));
                    }
                }
            }
        }
        proof {
            assert(hops@.subrange(0, m as int) =~= hops@);
        }
        RouteHeader { hops, hop_index: 1 }
    }

    /// Best-first search for the cheapest known route from `start` to
    /// `end`, expanding only relay nodes as interior hops.
    ///
    /// Fails with `InvalidEndpoint` exactly when an endpoint is unknown, is
    /// a relay, or the two coincide. On success the returned header walks
    /// existing edges from `start` to `end` through distinct hops whose
    /// interior is all relays, its cursor stands on the first hop after the
    /// origin, and every node along the route has its cost memo toward
    /// `end` updated to the cumulative cost of the remaining hops; no other
    /// memo, statistic, node or edge changes. `NoPathFound` comes only when
    /// no eligible route whose hop count fits the identifier space exists
    /// (a longer route would repeat a hop), and on failure the graph is
    /// unchanged.
    #[verifier::loop_isolation(false)]
    #[verifier::rlimit(80)]
    pub fn a_star_search(&mut self, start: u8, end: u8) -> (r: Result<RouteHeader, PathError>)
        requires
            old(self).wf(),
        ensures
            final(self).wf(),
            final(self).same_structure(*old(self)),
            final(self).same_stats(*old(self)),
            (r == Err::<RouteHeader, PathError>(PathError::InvalidEndpoint))
                <==> old(self).invalid_endpoints(start, end),
            r is Err ==> final(self).same_memos(*old(self)),
            r == Err::<RouteHeader, PathError>(PathError::NoPathFound) ==> forall|hops: Seq<u8>|
                !(old(self).valid_route(hops, start, end) && hops.len() <= ID_SPACE),
            r matches Ok(hdr) ==> {
                &&& hdr.hop_index == 1
                &&& old(self).valid_route(hdr.hops@, start, end)
                &&& (forall|i: int, j: int| 0 <= i < j < hdr.hops@.len() ==> hdr.hops@[i]
                    != hdr.hops@[j])
                &&& (forall|i: int| 0 <= i < hdr.hops@.len() ==> final(self).memo_of(
                    hdr.hops@[i], end) == Some(old(self).route_cost_from(hdr.hops@, i)))
                &&& (forall|i2: u8, d: u8| !(hdr.hops@.contains(i2) && d == end)
                    ==> final(self).memo_of(i2, d) == old(self).memo_of(i2, d))
                &&& ((forall|v: u8| old(self).memo_of(v, end) is None) ==> (forall|
                    other: Seq<u8>,
                |
                    old(self).valid_route(other, start, end) && other.len() <= ID_SPACE
                        ==> old(self).route_cost_from(hdr.hops@, 1) as int <= old(
                        self).route_cost_from(other, 1)))
            },
    {
        match &self.nodes[start as usize] {
            Some(node) => {
                if node.node_type == NodeType::Drone {
                    return Err(PathError::InvalidEndpoint);
                }
            }
            None => {
                return Err(PathError::InvalidEndpoint);
            }
        }
        match &self.nodes[end as usize] {
            Some(node) => {
                if node.node_type == NodeType::Drone {
                    return Err(PathError::InvalidEndpoint);
                }
            }
            None => {
                return Err(PathError::InvalidEndpoint);
            }
        }
        if start == end {
            return Err(PathError::InvalidEndpoint);
        }

        let mut gsc: Vec<u64> = initial_scores();
        let mut came: Vec<Option<u8>> = initial_parents();
        gsc[start as usize] = 0;
        let h0 = self.a_star_heuristics(start, end);
        let mut frontier: Vec<(u64, u8)> = Vec::new();
        frontier.push((h0, start));
        let ghost zh: bool = forall|v: u8| self.memo_of(v, end) is None;
        proof {
            assert(in_frontier(frontier@, start)) by {
                assert(frontier@[0].1 == start);
            }
            if zh {
                assert(self.memo_of(start, end) is None);
                assert(h0 == 0);
                assert(in_frontier_with(frontier@, start, 0)) by {
                    assert(frontier@[0] == (0u64, start));
                }
                assert forall|j: int| 0 <= j < frontier@.len() implies gsc@[(
                    #[trigger] frontier@[j]).1 as int] <= frontier@[j].0 by {
                    assert(frontier@[j] == (h0, start));
                }
            }
        }

        while frontier.len() != 0
            invariant
                *self == *old(self),
                gsc@.len() == ID_SPACE,
                came@.len() == ID_SPACE,
                gsc@[start as int] == 0,
                came_ok(*self, came@, gsc@, start, end),
                forall|j: int| 0 <= j < frontier@.len() ==> ((#[trigger] frontier@[j]).1 == start
                    || came@[frontier@[j].1 as int] is Some),
                forall|v: u8|
                    gsc@[v as int] < u64::MAX && !in_frontier(frontier@, v) ==> settled(
                        *self, gsc@, end, v),
                gsc@[end as int] < u64::MAX ==> in_frontier(frontier@, end),
                zh ==> forall|j: int|
                    0 <= j < frontier@.len() ==> gsc@[(#[trigger] frontier@[j]).1 as int]
                        <= frontier@[j].0,
                zh ==> forall|v: u8|
                    gsc@[v as int] < u64::MAX ==> in_frontier_with(frontier@, v, gsc@[v as int])
                        || settled(*self, gsc@, end, v),
            decreases 2 * g_sum(gsc@) + frontier@.len(),
        {
            let ghost pre_frontier = frontier@;
            let ghost head_measure: int = 2 * (g_sum(gsc@) as int) + frontier@.len() as int;
            let cur = pop_min(&mut frontier);
            let cur_id = cur.1;
            proof {
                assert(cur_id == start || came@[cur_id as int] is Some) by {
                    let j3 = choose|j3: int| 0 <= j3 < pre_frontier.len()
                        && pre_frontier[j3] == cur;
                    assert(pre_frontier[j3].1 == start
                        || came@[pre_frontier[j3].1 as int] is Some);
                }
                assert forall|j: int| 0 <= j < frontier@.len() implies ((
                    #[trigger] frontier@[j]).1 == start
                    || came@[frontier@[j].1 as int] is Some) by {
                    let e = frontier@[j];
                    assert(pre_frontier.contains(e));
                    let j3 = choose|j3: int| 0 <= j3 < pre_frontier.len()
                        && pre_frontier[j3] == e;
                    assert(pre_frontier[j3].1 == start
                        || came@[pre_frontier[j3].1 as int] is Some);
                }
                if zh {
                    assert forall|j: int| 0 <= j < frontier@.len() implies gsc@[(
                        #[trigger] frontier@[j]).1 as int] <= frontier@[j].0 by {
                        let e = frontier@[j];
                        assert(pre_frontier.contains(e));
                        let j3 = choose|j3: int| 0 <= j3 < pre_frontier.len()
                            && pre_frontier[j3] == e;
                        assert(gsc@[(#[trigger] pre_frontier[j3]).1 as int]
                            <= pre_frontier[j3].0);
                    }
                    assert forall|v: u8| v != cur_id && gsc@[v as int] < u64::MAX
                        implies in_frontier_with(frontier@, v, gsc@[v as int]) || settled(
                        *self, gsc@, end, v) by {
                        if in_frontier_with(pre_frontier, v, gsc@[v as int]) {
                            assert((gsc@[v as int], v) != cur);
                            assert(in_frontier_with(frontier@, v, gsc@[v as int]));
                        }
                    }
                }
            }
            if cur_id == end {
                let ghost fe = cur.0;
                proof {
                    if zh {
                        assert(gsc@[end as int] <= fe) by {
                            assert(pre_frontier.contains(cur));
                            let j3 = choose|j3: int| 0 <= j3 < pre_frontier.len()
                                && pre_frontier[j3] == cur;
                            assert(gsc@[(#[trigger] pre_frontier[j3]).1 as int]
                                <= pre_frontier[j3].0);
                        }
                        assert forall|other: Seq<u8>|
                            old(self).valid_route(other, start, end) && other.len() <= ID_SPACE
                                implies gsc@[end as int] as int <= old(self).route_cost_from(
                                other, 1) by {
                            assert(other[0] == start);
                            lemma_popped_destination_minimal(
                                *old(self), gsc@, pre_frontier, fe, start, end, other, 0);
                        }
                    }
                }
                let hdr = self.reconstruct_path(&came, Ghost(gsc@), start, end);
                return Ok(hdr);
            }
            proof {
                assert forall|v: u8|
                    v != cur_id && gsc@[v as int] < u64::MAX && !in_frontier(frontier@, v)
                        implies settled(*self, gsc@, end, v) by {
                    if in_frontier(pre_frontier, v) {
                        assert(in_frontier(frontier@, v));
                    }
                }
            }
            let cg = gsc[cur_id as usize];
            let deg = self.graph[cur_id as usize].len();
            let mut k: usize = 0;
            while k < deg
                invariant
                    *self == *old(self),
                    k <= deg,
                    deg == self.graph[cur_id as int]@.len(),
                    gsc@.len() == ID_SPACE,
                    came@.len() == ID_SPACE,
                    gsc@[start as int] == 0,
                    cg == gsc@[cur_id as int],
                    cur_id == start || came@[cur_id as int] is Some,
                    came_ok(*self, came@, gsc@, start, end),
                    forall|j: int| 0 <= j < frontier@.len() ==> ((#[trigger] frontier@[j]).1
                        == start || came@[frontier@[j].1 as int] is Some),
                    2 * g_sum(gsc@) + frontier@.len() < head_measure,
                    forall|v: u8|
                        v != cur_id && gsc@[v as int] < u64::MAX && !in_frontier(frontier@, v)
                            ==> settled(*self, gsc@, end, v),
                    gsc@[end as int] < u64::MAX ==> in_frontier(frontier@, end),
                    forall|k2: int|
                        0 <= k2 < k ==> {
                            let w = (#[trigger] self.graph[cur_id as int]@[k2]);
                            (self.has_node(w) && (w == end || self.role_of(w) == NodeType::Drone))
                                ==> gsc@[w as int] <= cg + self.node_cost_of(w)
                        },
                    zh ==> forall|j: int|
                        0 <= j < frontier@.len() ==> gsc@[(#[trigger] frontier@[j]).1 as int]
                            <= frontier@[j].0,
                    zh ==> forall|v: u8|
                        v != cur_id && gsc@[v as int] < u64::MAX ==> in_frontier_with(
                            frontier@, v, gsc@[v as int]) || settled(*self, gsc@, end, v),
                decreases deg - k,
            {
                let nbr = self.graph[cur_id as usize][k];
                match &self.nodes[nbr as usize] {
                    Some(node) => {
                        if node.node_type == NodeType::Drone || nbr == end {
                            proof {
                                assert(node.wf());
                                lemma_cost_bounds(node.pdr, node.congestion);
                            }
                            let w = node.get_weight();
                            let tentative = sat_add(cg, w);
                            if tentative < gsc[nbr as usize] {
                                proof {
                                    assert(tentative >= cg);
                                    assert(nbr != cur_id);
                                    assert(nbr != start);
                                    assert(tentative < u64::MAX);
                                    assert(w >= 1) by {
                                        lemma_cost_bounds(node.pdr, node.congestion);
                                    }
                                    assert(tentative == cg + w);
                                    assert(cg < tentative);
                                }
                                let ghost came0 = came@;
                                let ghost gsc0 = gsc@;
                                came[nbr as usize] = Some(cur_id);
                                gsc[nbr as usize] = tentative;
                                proof {
                                    lemma_g_sum_update(gsc0, nbr as int, tentative);
                                    assert(self.graph[cur_id as int]@.contains(nbr)) by {
                                        assert(self.graph[cur_id as int]@[k as int] == nbr);
                                    }
                                    assert(w == self.node_cost_of(nbr));
                                    assert(came_entry_ok(*self, came@, gsc@, start, end, nbr));
                                    assert forall|id: u8| (#[trigger] came@[id as int]) is Some
                                        implies came_entry_ok(*self, came@, gsc@, start, end, id)
                                        by {
                                        if id != nbr {
                                            assert(came0[id as int] is Some);
                                            assert(came_entry_ok(
                                                *self, came0, gsc0, start, end, id));
                                            let p = came0[id as int]->0;
                                            if p == nbr {
                                                assert(gsc@[p as int] == tentative);
                                                assert(tentative < gsc0[nbr as int]);
                                            }
                                        }
                                    }
                                }
                                let ghost frontier0 = frontier@;
                                let h = self.a_star_heuristics(nbr, end);
                                let f = sat_add(tentative, h);
                                frontier.push((f, nbr));
                                proof {
                                    assert(in_frontier(frontier@, nbr)) by {
                                        assert(frontier@[frontier@.len() - 1].1 == nbr);
                                    }
                                    if zh {
                                        assert(self.memo_of(nbr, end) is None);
                                        assert(h == 0);
                                        assert(f == tentative);
                                        assert(in_frontier_with(
                                            frontier@, nbr, gsc@[nbr as int])) by {
                                            assert(frontier@[frontier@.len() - 1] == (
                                                tentative, nbr));
                                        }
                                        assert forall|j2: int| 0 <= j2 < frontier@.len()
                                            implies gsc@[(#[trigger] frontier@[j2]).1 as int]
                                            <= frontier@[j2].0 by {
                                            if j2 < frontier0.len() {
                                                assert(frontier@[j2] == frontier0[j2]);
                                                assert(gsc0[(
                                                    #[trigger] frontier0[j2]).1 as int]
                                                    <= frontier0[j2].0);
                                                assert(gsc@[frontier0[j2].1 as int]
                                                    <= gsc0[frontier0[j2].1 as int]);
                                            }
                                        }
                                        assert forall|v: u8|
                                            v != cur_id && gsc@[v as int] < u64::MAX
                                                implies in_frontier_with(
                                                frontier@, v, gsc@[v as int]) || settled(
                                                *self, gsc@, end, v) by {
                                            if v != nbr {
                                                assert(gsc@[v as int] == gsc0[v as int]);
                                                if in_frontier_with(
                                                    frontier0, v, gsc0[v as int]) {
                                                    let j3 = choose|j3: int|
                                                        0 <= j3 < frontier0.len() && #[trigger]
                                                        frontier0[j3] == (gsc0[v as int], v);
                                                    assert(frontier@[j3] == (
                                                        gsc@[v as int], v));
                                                    assert(in_frontier_with(
                                                        frontier@, v, gsc@[v as int]));
                                                } else {
                                                    assert(settled(*self, gsc0, end, v));
                                                    assert forall|w2: u8| eligible_step(
                                                        *self, end, v, w2)
                                                        implies gsc@[w2 as int]
                                                        <= gsc@[v as int] + self.node_cost_of(
                                                        w2) by {
                                                        assert(gsc0[w2 as int]
                                                            <= gsc0[v as int]
                                                            + self.node_cost_of(w2));
                                                        assert(gsc@[w2 as int]
                                                            <= gsc0[w2 as int]);
                                                    }
                                                }
                                            }
                                        }
                                    }
                                    assert forall|v: u8| in_frontier(frontier0, v)
                                        implies in_frontier(frontier@, v) by {
                                        let j = choose|j: int| 0 <= j < frontier0.len() && (
                                            #[trigger] frontier0[j]).1 == v;
                                        assert(frontier@[j].1 == v);
                                    }
                                    assert forall|v: u8|
                                        v != cur_id && gsc@[v as int] < u64::MAX && !in_frontier(
                                            frontier@, v) implies settled(
                                        *self, gsc@, end, v) by {
                                        assert(v != nbr);
                                        assert(!in_frontier(frontier0, v));
                                        assert(gsc0[v as int] < u64::MAX);
                                        assert(settled(*self, gsc0, end, v));
                                        assert forall|w: u8| eligible_step(*self, end, v, w)
                                            implies gsc@[w as int] <= gsc@[v as int]
                                            + self.node_cost_of(w) by {
                                            assert(gsc0[w as int] <= gsc0[v as int]
                                                + self.node_cost_of(w));
                                            assert(gsc@[w as int] <= gsc0[w as int]);
                                        }
                                    }
                                    assert forall|k2: int| 0 <= k2 < k implies {
                                        let w = (#[trigger] self.graph[cur_id as int]@[k2]);
                                        (self.has_node(w) && (w == end || self.role_of(w)
                                            == NodeType::Drone)) ==> gsc@[w as int] <= cg
                                            + self.node_cost_of(w)
                                    } by {
                                        let w = self.graph[cur_id as int]@[k2];
                                        assert(gsc@[w as int] <= gsc0[w as int]);
                                    }
                                }
                            }
                        }
                    }
                    None => {}
                }
                proof {
                    let w = self.graph[cur_id as int]@[k as int];
                    if self.has_node(w) && (w == end || self.role_of(w) == NodeType::Drone) {
                        assert(gsc@[w as int] <= cg + self.node_cost_of(w));
                    }
                }
                k = k + 1;
            }
            proof {
                assert(settled(*self, gsc@, end, cur_id)) by {
                    assert forall|w: u8| eligible_step(*self, end, cur_id, w)
                        implies gsc@[w as int] <= gsc@[cur_id as int] + self.node_cost_of(
                        w) by {
                        let k2 = choose|k2: int|
                            0 <= k2 < self.graph[cur_id as int]@.len() && self.graph[
                            cur_id as int]@[k2] == w;
                        assert((#[trigger] self.graph[cur_id as int]@[k2]) == w);
                    }
                }
                assert forall|v: u8|
                    gsc@[v as int] < u64::MAX && !in_frontier(frontier@, v) implies settled(
                    *self, gsc@, end, v) by {
                }
                if zh {
                    assert forall|v: u8| gsc@[v as int] < u64::MAX implies in_frontier_with(
                        frontier@, v, gsc@[v as int]) || settled(*self, gsc@, end, v) by {
                    }
                }
            }
        }
        proof {
            assert forall|hops: Seq<u8>|
                !(self.valid_route(hops, start, end) && hops.len() <= ID_SPACE) by {
                if self.valid_route(hops, start, end) && hops.len() <= ID_SPACE {
                    assert(gsc@[end as int] == u64::MAX) by {
                        if gsc@[end as int] < u64::MAX {
                            assert(in_frontier(frontier@, end));
                        }
                    }
                    lemma_route_cost_bound(
                        *self, gsc@, frontier@, start, end, hops, hops.len() - 1);
                    assert(hops[hops.len() - 1] == end);
                    lemma_mul_inequality(hops.len() as int, ID_SPACE as int, COST_SENTINEL as int);
                }
            }
        }
        Err(PathError::NoPathFound)
    }
}


/// Whether `v` still has a live entry in the search frontier.
pub(crate) open spec fn in_frontier(frontier: Seq<(u64, u8)>, v: u8) -> bool {
    exists|j: int| 0 <= j < frontier.len() && (#[trigger] frontier[j]).1 == v
}

/// Whether the frontier holds an entry for `v` carrying exactly the
/// f-score `f`.
pub(crate) open spec fn in_frontier_with(frontier: Seq<(u64, u8)>, v: u8, f: u64) -> bool {
    exists|j: int| 0 <= j < frontier.len() && #[trigger] frontier[j] == (f, v)
}

/// The search may step from `v` to `w`: the edge exists, `w` is known, and
/// `w` is the destination or a relay.
pub(crate) open spec fn eligible_step(g: Graph, end: u8, v: u8, w: u8) -> bool {
    &&& g.has_edge(v, w)
    &&& g.has_node(w)
    &&& (w == end || g.role_of(w) == NodeType::Drone)
}

/// `v` has propagated its tentative cost to every eligible neighbor.
pub(crate) open spec fn settled(g: Graph, gsc: Seq<u64>, end: u8, v: u8) -> bool {
    forall|w: u8|
        #[trigger] eligible_step(g, end, v, w) ==> gsc[w as int] <= gsc[v as int]
            + g.node_cost_of(w)
}

/// What the search records about every node that has a parent in `came`:
/// the parent chain strictly descends in accumulated cost (so it is acyclic
/// and bottoms out at `start`), follows existing edges, and accepts only the
/// destination or relay nodes.
pub(crate) open spec fn came_entry_ok(
    g: Graph,
    came: Seq<Option<u8>>,
    gsc: Seq<u64>,
    start: u8,
    end: u8,
    id: u8,
) -> bool {
    let p = came[id as int]->0;
    &&& gsc[id as int] < u64::MAX
    &&& gsc[p as int] < gsc[id as int]
    &&& gsc[id as int] as int >= gsc[p as int] + g.node_cost_of(id)
    &&& (p == start || came[p as int] is Some)
    &&& g.has_edge(p, id)
    &&& g.has_node(id)
    &&& (id == end || g.role_of(id) == NodeType::Drone)
}

pub(crate) open spec fn came_ok(
    g: Graph,
    came: Seq<Option<u8>>,
    gsc: Seq<u64>,
    start: u8,
    end: u8,
) -> bool {
    &&& came.len() == ID_SPACE
    &&& gsc.len() == ID_SPACE
    &&& came[start as int] is None
    &&& forall|id: u8| (#[trigger] came[id as int]) is Some ==> came_entry_ok(
        g, came, gsc, start, end, id,
    )
}

/// The sum of all tentative costs; every accepted relaxation strictly
/// lowers it, which bounds the search.
pub(crate) open spec fn g_sum(s: Seq<u64>) -> nat
    decreases s.len(),
{
    if s.len() == 0 {
        0
    } else {
        (s[0] + g_sum(s.drop_first())) as nat
    }
}

proof fn lemma_g_sum_update(s: Seq<u64>, i: int, v: u64)
    requires
        0 <= i < s.len(),
    ensures
        g_sum(s.update(i, v)) + s[i] == g_sum(s) + v,
    decreases s.len(),
{
    if i == 0 {
        assert(s.update(0, v).drop_first() =~= s.drop_first());
    } else {
        assert(s.update(i, v).drop_first() =~= s.drop_first().update(i - 1, v));
        lemma_g_sum_update(s.drop_first(), i - 1, v);
    }
}

fn copy_memo(src: &Vec<Option<u64>>) -> (v: Vec<Option<u64>>)
    ensures
        v@ == src@,
{
    let mut v: Vec<Option<u64>> = Vec::new();
    let mut i: usize = 0;
    while i < src.len()
        invariant
            i <= src@.len(),
            v@.len() == i,
            forall|j: int| 0 <= j < i ==> v@[j] == src@[j],
        decreases src@.len() - i,
    {
        v.push(src[i]);
        i = i + 1;
    }
    proof {
        assert(v@ =~= src@);
    }
    v
}

fn copy_hops(src: &Vec<u8>) -> (v: Vec<u8>)
    ensures
        v@ == src@,
{
    let mut v: Vec<u8> = Vec::new();
    let mut i: usize = 0;
    while i < src.len()
        invariant
            i <= src@.len(),
            v@.len() == i,
            forall|j: int| 0 <= j < i ==> v@[j] == src@[j],
        decreases src@.len() - i,
    {
        v.push(src[i]);
        i = i + 1;
    }
    proof {
        assert(v@ =~= src@);
    }
    v
}

fn initial_scores() -> (v: Vec<u64>)
    ensures
        v@.len() == ID_SPACE,
        forall|i: int| 0 <= i < ID_SPACE ==> v@[i] == u64::MAX,
{
    let mut v: Vec<u64> = Vec::new();
    let mut i: usize = 0;
    while i < ID_SPACE
        invariant
            i <= ID_SPACE,
            v@.len() == i,
            forall|j: int| 0 <= j < i ==> v@[j] == u64::MAX,
        decreases ID_SPACE - i,
    {
        v.push(u64::MAX);
        i = i + 1;
    }
    v
}

fn initial_parents() -> (v: Vec<Option<u8>>)
    ensures
        v@.len() == ID_SPACE,
        forall|i: int| 0 <= i < ID_SPACE ==> v@[i] is None,
{
    let mut v: Vec<Option<u8>> = Vec::new();
    let mut i: usize = 0;
    while i < ID_SPACE
        invariant
            i <= ID_SPACE,
            v@.len() == i,
            forall|j: int| 0 <= j < i ==> v@[j] is None,
        decreases ID_SPACE - i,
    {
        v.push(None);
        i = i + 1;
    }
    v
}

/// Remove and return a frontier entry with the least f-score.
#[verifier::loop_isolation(false)]
fn pop_min(frontier: &mut Vec<(u64, u8)>) -> (r: (u64, u8))
    requires
        old(frontier)@.len() > 0,
    ensures
        old(frontier)@.contains(r),
        final(frontier)@.len() == old(frontier)@.len() - 1,
        forall|j: int| 0 <= j < final(frontier)@.len() ==> old(frontier)@.contains(
            #[trigger] final(frontier)@[j],
        ),
        forall|j: int| 0 <= j < old(frontier)@.len() ==> r.0 <= (#[trigger] old(frontier)@[j]).0,
        forall|v: u8|
            v != r.1 && in_frontier(old(frontier)@, v) ==> in_frontier(final(frontier)@, v),
        forall|f: u64, v: u8|
            (f, v) != r && in_frontier_with(old(frontier)@, v, f) ==> in_frontier_with(
                final(frontier)@, v, f),
{
    let mut best: usize = 0;
    let mut k: usize = 1;
    while k < frontier.len()
        invariant
            1 <= k <= frontier@.len(),
            best < k,
            forall|j: int| 0 <= j < k ==> frontier@[best as int].0 <= (#[trigger] frontier@[j]).0,
        decreases frontier@.len() - k,
    {
        if frontier[k].0 < frontier[best].0 {
            best = k;
        }
        k = k + 1;
    }
    let ghost pre = frontier@;
    let r = frontier.swap_remove(best);
    proof {
        assert(pre.contains(r)) by {
            assert(pre[best as int] == r);
        }
        assert forall|j: int| 0 <= j < frontier@.len() implies pre.contains(
            #[trigger] frontier@[j],
        ) by {
            if j == best {
                assert(frontier@[j] == pre[pre.len() - 1]);
            } else {
                assert(frontier@[j] == pre[j]);
            }
        }
        assert forall|v: u8| v != r.1 && in_frontier(pre, v) implies in_frontier(
            frontier@, v) by {
            let j = choose|j: int| 0 <= j < pre.len() && (#[trigger] pre[j]).1 == v;
            if j == pre.len() - 1 {
                assert(j != best);
                assert(frontier@[best as int] == pre[j]);
            } else if j == best {
                assert(false);
            } else {
                assert(frontier@[j] == pre[j]);
            }
        }
        assert forall|f: u64, v: u8| (f, v) != r && in_frontier_with(pre, v, f)
            implies in_frontier_with(frontier@, v, f) by {
            let j = choose|j: int| 0 <= j < pre.len() && #[trigger] pre[j] == (f, v);
            if j == pre.len() - 1 {
                assert(j != best);
                assert(frontier@[best as int] == pre[j]);
            } else if j == best {
                assert(false);
            } else {
                assert(frontier@[j] == pre[j]);
            }
        }
    }
    r
}

/// Along any eligible route out of `start`, a finished search has bounded
/// every node's tentative cost by the hop count times the largest node cost.
proof fn lemma_route_cost_bound(
    g: Graph,
    gsc: Seq<u64>,
    frontier: Seq<(u64, u8)>,
    start: u8,
    end: u8,
    hops: Seq<u8>,
    i: int,
)
    requires
        g.wf(),
        gsc.len() == ID_SPACE,
        gsc[start as int] == 0,
        frontier.len() == 0,
        forall|v: u8|
            gsc[v as int] < u64::MAX && !in_frontier(frontier, v) ==> settled(g, gsc, end, v),
        g.valid_route(hops, start, end),
        hops.len() <= ID_SPACE,
        0 <= i < hops.len(),
    ensures
        gsc[hops[i] as int] <= (i + 1) * (COST_SENTINEL as int),
    decreases i,
{
    if i == 0 {
        assert(hops[0] == start);
    } else {
        lemma_route_cost_bound(g, gsc, frontier, start, end, hops, i - 1);
        let v = hops[i - 1];
        let w = hops[i];
        lemma_mul_inequality(i, ID_SPACE as int, COST_SENTINEL as int);
        assert(gsc[v as int] < u64::MAX);
        assert(!in_frontier(frontier, v));
        assert(settled(g, gsc, end, v));
        assert(eligible_step(g, end, v, w)) by {
            assert(g.has_edge(hops[i - 1], hops[i]));
            assert(g.has_node(hops[i]));
            if i < hops.len() - 1 {
                assert(g.role_of(hops[i]) == NodeType::Drone);
            } else {
                assert(w == end);
            }
        }
        assert(gsc[w as int] <= gsc[v as int] + g.node_cost_of(w));
        assert(g.node_cost_of(w) <= COST_SENTINEL) by {
            assert(g.nodes@[w as int] is Some);
            assert(g.nodes@[w as int]->0.wf());
            lemma_cost_bounds(g.stats_of(w).0, g.stats_of(w).1);
        }
    }
}

/// What the reversal of a finished parent-chain walk yields: a valid route
/// from `start` to `end` with pairwise distinct hops, whose tail cost is
/// bounded by the destination's tentative cost.
proof fn lemma_reconstructed_route(
    g: Graph,
    gsc: Seq<u64>,
    came: Seq<Option<u8>>,
    rev: Seq<u8>,
    h: Seq<u8>,
    start: u8,
    end: u8,
)
    requires
        came_ok(g, came, gsc, start, end),
        came[end as int] is Some,
        g.has_node(start),
        start != end,
        gsc[start as int] == 0,
        rev.len() >= 1,
        rev[0] == end,
        rev[rev.len() - 1] == start,
        forall|t: int|
            0 <= t < rev.len() - 1 ==> came[(#[trigger] rev[t]) as int] == Some(rev[t + 1]),
        forall|t1: int, t2: int|
            0 <= t1 < t2 < rev.len() ==> gsc[rev[t2] as int] < gsc[rev[t1] as int],
        h.len() == rev.len(),
        forall|j: int| 0 <= j < h.len() ==> h[j] == rev[rev.len() - 1 - j],
    ensures
        h.len() >= 2,
        h[0] == start,
        h[h.len() - 1] == end,
        g.valid_route(h, start, end),
        forall|j1: int, j2: int| 0 <= j1 < j2 < h.len() ==> h[j1] != h[j2],
        g.route_cost_from(h, 1) as int <= gsc[end as int],
{
    let n = rev.len() as int;
    assert(h[0] == start);
    assert(h[n - 1] == end);
    assert(n >= 2);
    // every chain element but the last has a parent entry
    assert forall|j: int| 0 <= j < n implies g.has_node(#[trigger] h[j]) by {
        let t = n - 1 - j;
        if t < n - 1 {
            assert(came[rev[t] as int] is Some);
            assert(came_entry_ok(g, came, gsc, start, end, rev[t]));
        } else {
            assert(h[j] == start);
        }
    }
    assert forall|j: int| 0 < j < n - 1 implies g.role_of(#[trigger] h[j])
        == NodeType::Drone by {
        let t = n - 1 - j;
        assert(came[rev[t] as int] is Some);
        assert(came_entry_ok(g, came, gsc, start, end, rev[t]));
        assert(rev[t] != rev[0]) by {
            assert(gsc[rev[t] as int] < gsc[rev[0] as int]);
        }
    }
    assert forall|j: int| 0 <= j < n - 1 implies g.has_edge(#[trigger] h[j], h[j + 1]) by {
        let t = n - 1 - j;
        assert(came[rev[t - 1] as int] == Some(rev[t]));
        assert(came_entry_ok(g, came, gsc, start, end, rev[t - 1]));
        assert(h[j] == rev[t] && h[j + 1] == rev[t - 1]);
    }
    assert(g.valid_route(h, start, end));
    assert forall|j1: int, j2: int| 0 <= j1 < j2 < n implies h[j1] != h[j2] by {
        assert(gsc[rev[n - 1 - j1] as int] < gsc[rev[n - 1 - j2] as int]);
    }
    assert forall|t: int|
        1 <= t < n implies gsc[(#[trigger] h[t]) as int] as int >= gsc[h[t - 1] as int]
        + g.node_cost_of(h[t]) by {
        let t2 = n - 1 - t;
        assert(came[rev[t2] as int] == Some(rev[t2 + 1]));
        assert(came_entry_ok(g, came, gsc, start, end, rev[t2]));
        assert(h[t] == rev[t2] && h[t - 1] == rev[t2 + 1]);
    }
    lemma_chain_bounds_route_cost(g, gsc, h, 1);
}

/// Every node's traversal cost in a well-formed graph is positive and at
/// most the sentinel.
proof fn lemma_node_cost_in_range(g: Graph, id: u8)
    requires
        g.wf(),
    ensures
        1 <= g.node_cost_of(id) <= COST_SENTINEL,
{
    if g.has_node(id) {
        assert(g.nodes@[id as int] is Some);
        assert(g.nodes@[id as int]->0.wf());
        lemma_cost_bounds(g.stats_of(id).0, g.stats_of(id).1);
    } else {
        lemma_cost_bounds(0, 0);
    }
}

/// For routes that fit the identifier space, the saturating tail cost never
/// clamps: it unfolds exactly and stays under the hop count times the
/// largest node cost.
proof fn lemma_route_cost_exact(g: Graph, hops: Seq<u8>, i: int)
    requires
        g.wf(),
        hops.len() <= ID_SPACE,
        0 <= i < hops.len(),
    ensures
        g.route_cost_from(hops, i) as int == g.node_cost_of(hops[i]) + g.route_cost_from(
            hops, i + 1),
        g.route_cost_from(hops, i) as int <= (hops.len() - i) * (COST_SENTINEL as int),
    decreases hops.len() - i,
{
    lemma_node_cost_in_range(g, hops[i]);
    lemma_mul_inequality(hops.len() - i, ID_SPACE as int, COST_SENTINEL as int);
    if i == hops.len() - 1 {
        assert(g.route_cost_from(hops, i + 1) == 0);
    } else {
        lemma_route_cost_exact(g, hops, i + 1);
    }
}

/// The tail cost of a parent chain whose relaxations are recorded in `gsc`
/// is bounded by the destination's tentative cost.
proof fn lemma_chain_bounds_route_cost(g: Graph, gsc: Seq<u64>, hops: Seq<u8>, j: int)
    requires
        hops.len() >= 2,
        forall|t: int|
            1 <= t < hops.len() ==> gsc[(#[trigger] hops[t]) as int] as int >= gsc[hops[t
                - 1] as int] + g.node_cost_of(hops[t]),
        1 <= j <= hops.len(),
    ensures
        g.route_cost_from(hops, j) as int <= gsc[hops[hops.len() - 1] as int] - gsc[hops[j
            - 1] as int],
    decreases hops.len() - j,
{
    if j < hops.len() {
        lemma_chain_bounds_route_cost(g, gsc, hops, j + 1);
    }
}

/// When the search pops the destination with the least f-score `fe` while
/// the heuristic is zero everywhere, the destination's tentative cost is no
/// larger than the cost of any eligible route that fits the identifier
/// space: the walk follows the route, using that every reached node either
/// still has its exact entry in the frontier (so `fe` undercuts it) or has
/// already propagated its cost one hop further.
proof fn lemma_popped_destination_minimal(
    g: Graph,
    gsc: Seq<u64>,
    frontier: Seq<(u64, u8)>,
    fe: u64,
    start: u8,
    end: u8,
    other: Seq<u8>,
    j: int,
)
    requires
        g.wf(),
        gsc.len() == ID_SPACE,
        g.valid_route(other, start, end),
        other.len() <= ID_SPACE,
        forall|jj: int|
            0 <= jj < frontier.len() ==> gsc[(#[trigger] frontier[jj]).1 as int]
                <= frontier[jj].0,
        forall|jj: int| 0 <= jj < frontier.len() ==> fe <= (#[trigger] frontier[jj]).0,
        forall|v: u8|
            gsc[v as int] < u64::MAX ==> in_frontier_with(frontier, v, gsc[v as int])
                || settled(g, gsc, end, v),
        gsc[end as int] <= fe,
        0 <= j < other.len(),
        gsc[other[j] as int] as int <= g.route_cost_from(other, 1) - g.route_cost_from(
            other, j + 1),
    ensures
        gsc[end as int] as int <= g.route_cost_from(other, 1),
    decreases other.len() - j,
{
    let v = other[j];
    if j == other.len() - 1 {
        assert(v == end);
    } else {
        let rc1 = g.route_cost_from(other, 1) as int;
        assert(gsc[v as int] as int <= rc1);
        lemma_route_cost_exact(g, other, 1);
        lemma_mul_inequality(other.len() - 1, ID_SPACE as int, COST_SENTINEL as int);
        assert(gsc[v as int] < u64::MAX);
        if in_frontier_with(frontier, v, gsc[v as int]) {
            let jj = choose|jj: int|
                0 <= jj < frontier.len() && #[trigger] frontier[jj] == (gsc[v as int], v);
            assert(fe <= frontier[jj].0);
            assert(gsc[end as int] as int <= gsc[v as int] as int);
        } else {
            assert(settled(g, gsc, end, v));
            let w = other[j + 1];
            assert(eligible_step(g, end, v, w)) by {
                assert(g.has_edge(other[j], other[j + 1]));
                assert(g.has_node(other[j + 1]));
                if j + 1 < other.len() - 1 {
                    assert(g.role_of(other[j + 1]) == NodeType::Drone);
                } else {
                    assert(w == end);
                }
            }
            assert(gsc[w as int] <= gsc[v as int] + g.node_cost_of(w));
            lemma_route_cost_exact(g, other, j + 1);
            lemma_popped_destination_minimal(g, gsc, frontier, fe, start, end, other, j + 1);
        }
    }
}

} // verus!
