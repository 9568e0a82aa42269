//! The routing coordinator: owns the current and previous topology
//! snapshots and the durable per-node reliability and congestion tallies,
//! translates discovery responses and delivery signals into graph updates,
//! and answers the best-path query.
//!
//! A new discovery round rebuilds the graph from scratch but carries
//! forward the previously learned statistics: the raw tallies survive every
//! rebuild, and a rebuilt node is seeded with the last known statistics of
//! its identifier.

use vstd::prelude::*;
use crate::graph::{Graph, NodeType, PathError, RouteHeader, ID_SPACE};
use crate::cost::{
    reliability_of, normalized_congestion, sat_inc_spec, sat_inc, reliability_ratio,
    scaled_ratio,
};

verus! {

/// One traced discovery response: the round it belongs to and the ordered
/// path of (identifier, role) observations it reports.
pub struct FloodResponse {
    pub flood_id: u64,
    pub path_trace: Vec<(u8, NodeType)>,
}

/// Whether `id` appears anywhere in the trace.
pub open spec fn occurs(trace: Seq<(u8, NodeType)>, id: u8) -> bool {
    exists|j: int| 0 <= j < trace.len() && (#[trigger] trace[j]).0 == id
}

/// Whether the trace links `a` and `b` as distinct consecutive
/// observations, in either order.
pub open spec fn trace_edge(trace: Seq<(u8, NodeType)>, a: u8, b: u8) -> bool {
    exists|k: int|
        0 <= k < trace.len() - 1 && (#[trigger] trace[k]).0 != trace[k + 1].0 && ((trace[k].0
            == a && trace[k + 1].0 == b) || (trace[k].0 == b && trace[k + 1].0 == a))
}

/// `role` is the role carried by the first observation of `id` in the
/// trace: the first observation of a role wins.
pub open spec fn first_observed_role(trace: Seq<(u8, NodeType)>, id: u8, role: NodeType) -> bool {
    exists|j: int|
        0 <= j < trace.len() && (#[trigger] trace[j]).0 == id && trace[j].1 == role && (forall|
            j2: int,
        | 0 <= j2 < j ==> (#[trigger] trace[j2]).0 != id)
}

/// How often `id` appears in a hop list.
pub open spec fn count_in(s: Seq<u8>, id: u8) -> nat
    decreases s.len(),
{
    if s.len() == 0 {
        0
    } else {
        count_in(s.drop_last(), id) + (if s.last() == id {
            1nat
        } else {
            0nat
        })
    }
}

/// A tally raised by `c` observations, saturating at the top of the type.
pub open spec fn sat_count(a: u64, c: nat) -> u64 {
    if a + c > u64::MAX {
        u64::MAX
    } else {
        (a + c) as u64
    }
}

/// The largest tally in the table.
pub open spec fn seq_max(s: Seq<u64>) -> u64
    decreases s.len(),
{
    if s.len() == 0 {
        0
    } else if s.last() >= seq_max(s.drop_last()) {
        s.last()
    } else {
        seq_max(s.drop_last())
    }
}

proof fn lemma_seq_max_bound(s: Seq<u64>, i: int)
    requires
        0 <= i < s.len(),
    ensures
        s[i] <= seq_max(s),
    decreases s.len(),
{
    if i < s.len() - 1 {
        lemma_seq_max_bound(s.drop_last(), i);
    }
}

/// The routing coordinator.
pub struct RoutingHandler {
    graph: Graph,
    old_graph: Graph,
    current_flood_id: u64,
    pdr: Vec<(u64, u64)>,
    congestion: Vec<u64>,
}

impl RoutingHandler {
    pub closed spec fn wf(self) -> bool {
        &&& self.graph.wf()
        &&& self.old_graph.wf()
        &&& self.pdr.len() == ID_SPACE
        &&& self.congestion.len() == ID_SPACE
    }

    /// The topology snapshot of the round currently being assembled.
    pub closed spec fn cur(self) -> Graph {
        self.graph
    }

    /// The topology snapshot of the previous round.
    pub closed spec fn prev(self) -> Graph {
        self.old_graph
    }

    /// The identifier of the discovery round currently being assembled.
    pub closed spec fn flood_id(self) -> u64 {
        self.current_flood_id
    }

    /// The running success tally of `id`.
    pub closed spec fn acks(self, id: u8) -> u64 {
        self.pdr[id as int].0
    }

    /// The running failure tally of `id`.
    pub closed spec fn nacks(self, id: u8) -> u64 {
        self.pdr[id as int].1
    }

    /// The whole congestion tally table.
    pub closed spec fn tallies(self) -> Seq<u64> {
        self.congestion@
    }

    /// The running observed-hop tally of `id`.
    pub open spec fn tally(self, id: u8) -> u64 {
        self.tallies()[id as int]
    }

    pub fn new() -> (h: RoutingHandler)
        ensures
            h.wf(),
            h.flood_id() == u64::MAX,
            h.cur().is_empty(),
            h.prev().is_empty(),
            forall|id: u8| #[trigger] h.acks(id) == 0 && h.nacks(id) == 0,
            forall|id: u8| #[trigger] h.tally(id) == 0,
            h.tallies().len() == ID_SPACE,
    {
        let mut pdr: Vec<(u64, u64)> = Vec::new();
        let mut congestion: Vec<u64> = Vec::new();
        let mut i: usize = 0;
        while i < ID_SPACE
            invariant
                i <= ID_SPACE,
                pdr@.len() == i,
                congestion@.len() == i,
                forall|j: int| 0 <= j < i ==> pdr@[j] == (0u64, 0u64),
                forall|j: int| 0 <= j < i ==> congestion@[j] == 0u64,
            decreases ID_SPACE - i,
        {
            pdr.push((0, 0));
            congestion.push(0);
            i = i + 1;
        }
        RoutingHandler {
            graph: Graph::new(),
            old_graph: Graph::new(),
            current_flood_id: u64::MAX,
            pdr,
            congestion,
        }
    }

    /// The learned statistics of `id` in the current topology snapshot,
    /// (0, 0) for an identifier the current round has not seen.
    pub fn node_stats(&self, id: u8) -> (r: (u64, u64))
        requires
            self.wf(),
        ensures
            r == self.cur().stats_of(id),
    {
        self.graph.get_node_weight(id)
    }

    /// Fold one discovery response into the topology.
    ///
    /// A response of a new round snapshots the current graph as the
    /// previous one, clears the current graph, and adopts the new round
    /// identifier — even when its trace is empty. Every node of the trace
    /// is added (the first observed role wins over later ones), every
    /// distinct consecutive pair is connected, and a node whose current
    /// statistics are still (0, 0) is seeded from the previous snapshot, so
    /// a rebuilt graph keeps what earlier rounds learned. The raw tallies
    /// are untouched.
    #[verifier::loop_isolation(false)]
    #[verifier::rlimit(60)]
    pub fn update_graph(&mut self, flood: FloodResponse)
        requires
            old(self).wf(),
        ensures
            final(self).wf(),
            final(self).tallies().len() == ID_SPACE,
            final(self).flood_id() == flood.flood_id,
            forall|i: u8| #[trigger] final(self).acks(i) == old(self).acks(i) && final(self).nacks(i) == old(self).nacks(i),
            forall|i: u8| #[trigger] final(self).tally(i) == old(self).tally(i),
            // the previous snapshot
            flood.flood_id != old(self).flood_id() ==> final(self).prev().same_structure(
                old(self).cur(),
            ) && final(self).prev().same_stats(old(self).cur()) && final(self).prev().same_memos(
                old(self).cur(),
            ),
            flood.flood_id == old(self).flood_id() ==> final(self).prev() == old(self).prev(),
            // membership of the rebuilt or extended current snapshot
            forall|id: u8|
                #[trigger] final(self).cur().has_node(id) == (occurs(flood.path_trace@, id) || (
                flood.flood_id == old(self).flood_id() && old(self).cur().has_node(id))),
            // roles: an existing node keeps its role, a new one takes the
            // first observed role of the trace
            forall|id: u8|
                flood.flood_id == old(self).flood_id() && old(self).cur().has_node(id)
                    ==> #[trigger] final(self).cur().role_of(id) == old(self).cur().role_of(id),
            forall|id: u8|
                occurs(flood.path_trace@, id) && !(flood.flood_id == old(self).flood_id() && old(self).cur().has_node(id)) ==> first_observed_role(
                    flood.path_trace@,
                    id,
                    #[trigger] final(self).cur().role_of(id),
                ),
            // edges
            forall|a: u8, b: u8|
                #[trigger] final(self).cur().has_edge(a, b) == (trace_edge(
                    flood.path_trace@, a, b) || (flood.flood_id == old(self).flood_id() && old(self).cur().has_edge(a, b))),
            // statistics: what a node of the trace carries afterwards
            forall|id: u8|
                occurs(flood.path_trace@, id) ==> #[trigger] final(self).cur().stats_of(id) == (
                if flood.flood_id == old(self).flood_id() && old(self).cur().stats_of(id) != (
                    0u64,
                    0u64,
                ) {
                    old(self).cur().stats_of(id)
                } else if flood.flood_id != old(self).flood_id() {
                    old(self).cur().stats_of(id)
                } else {
                    old(self).prev().stats_of(id)
                }),
            forall|id: u8|
                !occurs(flood.path_trace@, id) ==> #[trigger] final(self).cur().stats_of(id) == (
                if flood.flood_id != old(self).flood_id() {
                    (0u64, 0u64)
                } else {
                    old(self).cur().stats_of(id)
                }),
            // memos: kept nodes keep them, rebuilt nodes start empty
            forall|id: u8, dest: u8|
                #[trigger] final(self).cur().memo_of(id, dest) == (if flood.flood_id == old(self).flood_id() && old(self).cur().has_node(id) {
                    old(self).cur().memo_of(id, dest)
                } else {
                    None
                }),
    {
        if self.current_flood_id != flood.flood_id {
            self.old_graph = self.graph.duplicate();
            self.graph.clear();
            self.current_flood_id = flood.flood_id;
        }
        let ghost g0 = self.graph;
        let ghost s0 = self.old_graph;
        let ghost trace = flood.path_trace@;
        let len = flood.path_trace.len();
        if len == 0 {
            proof {
                assert(trace.take(0) =~= trace);
            }
            return;
        }
        let mut k: usize = 0;
        while k < len
            invariant
                k <= len,
                len == trace.len(),
                trace == flood.path_trace@,
                self.graph.wf(),
                self.old_graph == s0,
                self.current_flood_id == flood.flood_id,
                self.pdr == old(self).pdr,
                self.congestion == old(self).congestion,
                forall|id: u8|
                    #[trigger] self.graph.has_node(id) == (occurs(trace.take(k as int), id)
                        || g0.has_node(id)),
                forall|id: u8|
                    g0.has_node(id) ==> #[trigger] self.graph.role_of(id) == g0.role_of(id),
                forall|id: u8|
                    occurs(trace.take(k as int), id) && !g0.has_node(id) ==> first_observed_role(
                        trace.take(k as int),
                        id,
                        #[trigger] self.graph.role_of(id),
                    ),
                forall|a: u8, b: u8|
                    #[trigger] self.graph.has_edge(a, b) == (trace_edge(trace.take(k as int), a, b)
                        || g0.has_edge(a, b)),
                forall|id: u8|
                    occurs(trace.take(k as int), id) ==> #[trigger] self.graph.stats_of(id) == (
                    if g0.stats_of(id) != (0u64, 0u64) {
                        g0.stats_of(id)
                    } else {
                        s0.stats_of(id)
                    }),
                forall|id: u8|
                    !occurs(trace.take(k as int), id) ==> #[trigger] self.graph.stats_of(id)
                        == g0.stats_of(id),
                forall|id: u8, dest: u8|
                    #[trigger] self.graph.memo_of(id, dest) == (if g0.has_node(id) {
                        g0.memo_of(id, dest)
                    } else {
                        None
                    }),
            decreases len - k,
        {
            let ghost pre = trace.take(k as int);
            let ghost post = trace.take(k as int + 1);
            proof {
                assert(post.drop_last() =~= pre);
                assert(post.last() == trace[k as int]);
                assert forall|id: u8| occurs(post, id) == (occurs(pre, id) || trace[k as int].0
                    == id) by {
                    if occurs(post, id) {
                        let j = choose|j: int| 0 <= j < post.len() && post[j].0 == id;
                        if j < k {
                            assert(pre[j].0 == id);
                            assert(occurs(pre, id));
                        }
                    }
                    if occurs(pre, id) {
                        let j = choose|j: int| 0 <= j < pre.len() && pre[j].0 == id;
                        assert(post[j].0 == id);
                    }
                    if trace[k as int].0 == id {
                        assert(post[k as int].0 == id);
                    }
                }
                assert forall|a: u8, b: u8| trace_edge(post, a, b) == (trace_edge(pre, a, b) || (
                    k >= 1 && trace[k as int - 1].0 != trace[k as int].0 && ((trace[k as int
                        - 1].0 == a && trace[k as int].0 == b) || (trace[k as int - 1].0 == b
                        && trace[k as int].0 == a)))) by {
                    if trace_edge(post, a, b) {
                        let j = choose|j: int|
                            0 <= j < post.len() - 1 && (#[trigger] post[j]).0 != post[j + 1].0
                                && ((post[j].0 == a && post[j + 1].0 == b) || (post[j].0 == b
                                && post[j + 1].0 == a));
                        if j < k - 1 {
                            assert(pre[j] == post[j] && pre[j + 1] == post[j + 1]);
                            assert(trace_edge(pre, a, b));
                        } else {
                            assert(j == k - 1);
                            assert(post[j] == trace[k as int - 1]);
                            assert(post[j + 1] == trace[k as int]);
                        }
                    }
                    if trace_edge(pre, a, b) {
                        let j = choose|j: int|
                            0 <= j < pre.len() - 1 && (#[trigger] pre[j]).0 != pre[j + 1].0
                                && ((pre[j].0 == a && pre[j + 1].0 == b) || (pre[j].0 == b
                                && pre[j + 1].0 == a));
                        assert(post[j] == pre[j] && post[j + 1] == pre[j + 1]);
                        assert(trace_edge(post, a, b));
                    }
                    if k >= 1 && trace[k as int - 1].0 != trace[k as int].0 && ((trace[k as int
                        - 1].0 == a && trace[k as int].0 == b) || (trace[k as int - 1].0 == b
                        && trace[k as int].0 == a)) {
                        assert(post[k - 1] == trace[k as int - 1]);
                        assert(post[k as int] == trace[k as int]);
                        assert((#[trigger] post[k - 1]).0 != post[k as int].0);
                        assert(trace_edge(post, a, b));
                    }
                }
            }
            let pair = flood.path_trace[k];
            let id = pair.0;
            let node_type = pair.1;
            let ghost mid0 = self.graph;
            self.graph.add_node(id, node_type);
            let ghost added = self.graph;
            let wcur = self.graph.get_node_weight(id);
            if wcur.0 == 0 && wcur.1 == 0 {
                let wprev = self.old_graph.get_node_weight(id);
                self.graph.update_node_weight(id, wprev);
            }
            let ghost seeded = self.graph;
            if k > 0 {
                let prev_pair = flood.path_trace[k - 1];
                let pid = prev_pair.0;
                if id != pid {
                    self.graph.add_edge(id, pid);
                }
            }
            proof {
                assert forall|id2: u8| g0.has_node(id2) implies #[trigger] self.graph.role_of(
                    id2) == g0.role_of(id2) by {
                    assert(mid0.role_of(id2) == g0.role_of(id2));
                    assert(mid0.has_node(id2));
                    assert(added.role_of(id2) == mid0.role_of(id2)) by {
                        if id2 != id {
                            assert(added.node_at(id2) == mid0.node_at(id2));
                        }
                    }
                    assert(seeded.role_of(id2) == added.role_of(id2));
                    assert(self.graph.node_at(id2) == seeded.node_at(id2));
                }
                assert forall|id2: u8, dest: u8| #[trigger] self.graph.memo_of(id2, dest) == (
                    if g0.has_node(id2) {
                        g0.memo_of(id2, dest)
                    } else {
                        None
                    }) by {
                    assert(mid0.memo_of(id2, dest) == (if g0.has_node(id2) {
                        g0.memo_of(id2, dest)
                    } else {
                        None
                    }));
                    assert(added.memo_of(id2, dest) == mid0.memo_of(id2, dest)) by {
                        if id2 == id && !mid0.has_node(id2) {
                            assert(added.memo_of(id2, dest) is None);
                        } else if id2 != id && mid0.has_node(id2) {
                            assert(added.node_at(id2) == mid0.node_at(id2));
                        }
                    }
                    assert(seeded.memo_of(id2, dest) == added.memo_of(id2, dest));
                    assert(self.graph.memo_of(id2, dest) == seeded.memo_of(id2, dest)) by {
                        assert(self.graph.has_node(id2) == seeded.has_node(id2));
                        if seeded.has_node(id2) {
                            assert(self.graph.node_at(id2) == seeded.node_at(id2));
                        }
                    }
                }
                assert forall|id2: u8| id2 != id implies #[trigger] self.graph.stats_of(id2)
                    == mid0.stats_of(id2) by {
                    assert(self.graph.stats_of(id2) == seeded.stats_of(id2)) by {
                        assert(self.graph.has_node(id2) == seeded.has_node(id2));
                        if seeded.has_node(id2) {
                            assert(self.graph.node_at(id2) == seeded.node_at(id2));
                        }
                    }
                    assert(seeded.stats_of(id2) == mid0.stats_of(id2)) by {
                        if mid0.has_node(id2) {
                            assert(mid0.has_node(id2));
                        }
                    }
                }
                assert(self.graph.stats_of(id) == (if g0.stats_of(id) != (0u64, 0u64) {
                    g0.stats_of(id)
                } else {
                    s0.stats_of(id)
                })) by {
                    assert(self.graph.stats_of(id) == seeded.stats_of(id)) by {
                        assert(self.graph.has_node(id) == seeded.has_node(id));
                        if seeded.has_node(id) {
                            assert(self.graph.node_at(id) == seeded.node_at(id));
                        }
                    }
                    if occurs(pre, id) {
                        assert(mid0.stats_of(id) == (if g0.stats_of(id) != (0u64, 0u64) {
                            g0.stats_of(id)
                        } else {
                            s0.stats_of(id)
                        }));
                    } else {
                        assert(mid0.stats_of(id) == g0.stats_of(id));
                    }
                }
                assert forall|id2: u8| occurs(post, id2) implies #[trigger] self.graph.stats_of(
                    id2) == (if g0.stats_of(id2) != (0u64, 0u64) {
                    g0.stats_of(id2)
                } else {
                    s0.stats_of(id2)
                }) by {
                    if id2 != id {
                        assert(occurs(pre, id2));
                        assert(mid0.stats_of(id2) == (if g0.stats_of(id2) != (0u64, 0u64) {
                            g0.stats_of(id2)
                        } else {
                            s0.stats_of(id2)
                        }));
                    }
                }
                assert forall|id2: u8| !occurs(post, id2) implies #[trigger] self.graph.stats_of(
                    id2) == g0.stats_of(id2) by {
                    assert(id2 != id);
                    assert(!occurs(pre, id2));
                    assert(mid0.stats_of(id2) == g0.stats_of(id2));
                }
                // role of a node first seen at position k
                if !occurs(pre, id) && !g0.has_node(id) {
                    assert(first_observed_role(post, id, self.graph.role_of(id))) by {
                        assert(post[k as int].0 == id && post[k as int].1 == node_type);
                        assert(forall|j2: int| 0 <= j2 < k ==> (#[trigger] post[j2]).0 != id);
                        assert(!mid0.has_node(id));
                        assert(added.role_of(id) == node_type);
                        assert(seeded.role_of(id) == added.role_of(id));
                        assert(self.graph.node_at(id) == seeded.node_at(id));
                        assert(self.graph.role_of(id) == node_type);
                    }
                }
                assert forall|id2: u8|
                    occurs(pre, id2) && !g0.has_node(id2) implies first_observed_role(
                    post, id2, #[trigger] self.graph.role_of(id2)) by {
                    assert(first_observed_role(pre, id2, mid0.role_of(id2)));
                    let j = choose|j: int|
                        0 <= j < pre.len() && pre[j].0 == id2 && pre[j].1 == mid0.role_of(id2)
                            && (forall|j2: int| 0 <= j2 < j ==> (#[trigger] pre[j2]).0 != id2);
                    assert(post[j].0 == id2 && post[j].1 == mid0.role_of(id2));
                    assert(forall|j2: int| 0 <= j2 < j ==> (#[trigger] post[j2]).0 != id2);
                    assert(mid0.has_node(id2));
                    assert(added.role_of(id2) == mid0.role_of(id2)) by {
                        if id2 != id {
                            assert(added.node_at(id2) == mid0.node_at(id2));
                        }
                    }
                    assert(seeded.role_of(id2) == added.role_of(id2));
                    assert(self.graph.node_at(id2) == seeded.node_at(id2));
                    assert(self.graph.role_of(id2) == mid0.role_of(id2));
                }
            }
            k = k + 1;
        }
        proof {
            assert(trace.take(len as int) =~= trace);
        }
    }

    /// Record one failed delivery through `id` and refresh the node's
    /// reliability in the current graph from the tallies.
    pub fn node_nack(&mut self, id: u8)
        requires
            old(self).wf(),
        ensures
            final(self).wf(),
            final(self).tallies().len() == ID_SPACE,
            final(self).flood_id() == old(self).flood_id(),
            final(self).prev() == old(self).prev(),
            final(self).nacks(id) == sat_inc_spec(old(self).nacks(id)),
            final(self).acks(id) == old(self).acks(id),
            forall|i: u8|
                i != id ==> #[trigger] final(self).acks(i) == old(self).acks(i) && final(self).nacks(i) == old(self).nacks(i),
            forall|i: u8| #[trigger] final(self).tally(i) == old(self).tally(i),
            final(self).cur().same_structure(old(self).cur()),
            final(self).cur().same_memos(old(self).cur()),
            old(self).cur().has_node(id) ==> final(self).cur().stats_of(id) == (
                reliability_of(final(self).acks(id), final(self).nacks(id)),
                old(self).cur().stats_of(id).1,
            ),
            !old(self).cur().has_node(id) ==> final(self).cur().stats_of(id) == old(self).cur().stats_of(id),
            forall|i: u8|
                i != id ==> #[trigger] final(self).cur().stats_of(i) == old(self).cur().stats_of(
                    i,
                ),
    {
        let entry = self.pdr[id as usize];
        let a = entry.0;
        let n = sat_inc(entry.1);
        self.pdr[id as usize] = (a, n);
        let rel = reliability_ratio(a, n);
        self.graph.update_node_pdr(id, rel);
    }

    /// Record one acknowledged delivery along every hop of `hops` and
    /// refresh each known hop's reliability in the current graph.
    #[verifier::loop_isolation(false)]
    pub fn nodes_ack(&mut self, hops: &Vec<u8>)
        requires
            old(self).wf(),
        ensures
            final(self).wf(),
            final(self).tallies().len() == ID_SPACE,
            final(self).flood_id() == old(self).flood_id(),
            final(self).prev() == old(self).prev(),
            forall|i: u8|
                #[trigger] final(self).acks(i) == sat_count(
                    old(self).acks(i),
                    count_in(hops@, i),
                ),
            forall|i: u8| #[trigger] final(self).nacks(i) == old(self).nacks(i),
            forall|i: u8| #[trigger] final(self).tally(i) == old(self).tally(i),
            final(self).cur().same_structure(old(self).cur()),
            final(self).cur().same_memos(old(self).cur()),
            forall|i: u8|
                hops@.contains(i) && old(self).cur().has_node(i)
                    ==> #[trigger] final(self).cur().stats_of(i) == (
                    reliability_of(final(self).acks(i), final(self).nacks(i)),
                    old(self).cur().stats_of(i).1,
                ),
            forall|i: u8|
                !hops@.contains(i) || !old(self).cur().has_node(i) ==> #[trigger] final(self).cur().stats_of(i) == old(self).cur().stats_of(i),
    {
        if hops.is_empty() {
            proof {
                assert(hops@.take(0) =~= hops@);
            }
            return;
        }
        let len = hops.len();
        let mut k: usize = 0;
        while k < len
            invariant
                k <= len,
                len == hops@.len(),
                self.graph.wf(),
                self.pdr.len() == ID_SPACE,
                self.old_graph == old(self).old_graph,
                self.congestion == old(self).congestion,
                self.current_flood_id == old(self).current_flood_id,
                forall|i: u8|
                    #[trigger] self.acks(i) == sat_count(
                        old(self).acks(i),
                        count_in(hops@.take(k as int), i),
                    ),
                forall|i: u8| #[trigger] self.nacks(i) == old(self).nacks(i),
                self.graph.same_structure(old(self).graph),
                self.graph.same_memos(old(self).graph),
                forall|i: u8|
                    hops@.take(k as int).contains(i) && old(self).graph.has_node(i)
                        ==> #[trigger] self.graph.stats_of(i) == (
                        reliability_of(self.acks(i), self.nacks(i)),
                        old(self).graph.stats_of(i).1,
                    ),
                forall|i: u8|
                    !hops@.take(k as int).contains(i) || !old(self).graph.has_node(i)
                        ==> #[trigger] self.graph.stats_of(i) == old(self).graph.stats_of(i),
            decreases len - k,
        {
            let ghost pre = hops@.take(k as int);
            let ghost post = hops@.take(k as int + 1);
            proof {
                assert(post.drop_last() =~= pre);
                assert(post.last() == hops@[k as int]);
                assert forall|i: u8| post.contains(i) == (pre.contains(i) || hops@[k as int]
                    == i) by {
                    if post.contains(i) {
                        let j = choose|j: int| 0 <= j < post.len() && post[j] == i;
                        if j < k {
                            assert(pre[j] == i);
                        }
                    }
                    if pre.contains(i) {
                        let j = choose|j: int| 0 <= j < pre.len() && pre[j] == i;
                        assert(post[j] == i);
                    }
                    if hops@[k as int] == i {
                        assert(post[k as int] == i);
                    }
                }
                assert forall|i: u8| count_in(post, i) == count_in(pre, i) + (if hops@[k as int]
                    == i {
                    1nat
                } else {
                    0nat
                }) by {}
            }
            let id = hops[k];
            let ghost before = *self;
            let entry = self.pdr[id as usize];
            let a = sat_inc(entry.0);
            let n = entry.1;
            self.pdr[id as usize] = (a, n);
            let rel = reliability_ratio(a, n);
            self.graph.update_node_pdr(id, rel);
            proof {
                assert forall|i: u8| #[trigger] self.acks(i) == sat_count(
                    old(self).acks(i),
                    count_in(post, i),
                ) by {
                    assert(before.acks(i) == sat_count(old(self).acks(i), count_in(pre, i)));
                    if i != id {
                        assert(self.pdr@[i as int] == before.pdr@[i as int]);
                    }
                }
                assert forall|i: u8| #[trigger] self.nacks(i) == old(self).nacks(i) by {
                    assert(before.nacks(i) == old(self).nacks(i));
                    if i != id {
                        assert(self.pdr@[i as int] == before.pdr@[i as int]);
                    }
                }
                assert forall|i: u8| post.contains(i) && old(self).graph.has_node(i)
                    implies #[trigger] self.graph.stats_of(i) == (
                    reliability_of(self.acks(i), self.nacks(i)),
                    old(self).graph.stats_of(i).1,
                ) by {
                    assert(before.graph.has_node(i) == old(self).graph.has_node(i));
                    if i == id {
                        assert(before.graph.stats_of(i).1 == old(self).graph.stats_of(i).1);
                    } else {
                        assert(self.graph.stats_of(i) == before.graph.stats_of(i));
                        assert(self.acks(i) == before.acks(i));
                        assert(self.nacks(i) == before.nacks(i));
                        if pre.contains(i) {
                            assert(before.graph.stats_of(i) == (
                                reliability_of(before.acks(i), before.nacks(i)),
                                old(self).graph.stats_of(i).1,
                            ));
                        }
                    }
                }
                assert forall|i: u8| !post.contains(i) || !old(self).graph.has_node(i)
                    implies #[trigger] self.graph.stats_of(i) == old(self).graph.stats_of(i) by {
                    assert(before.graph.has_node(i) == old(self).graph.has_node(i));
                    assert(!pre.contains(i) || !old(self).graph.has_node(i));
                    assert(before.graph.stats_of(i) == old(self).graph.stats_of(i));
                    if i != id {
                        assert(self.graph.stats_of(i) == before.graph.stats_of(i));
                    }
                }
            }
            k = k + 1;
        }
        proof {
            assert(hops@.take(len as int) =~= hops@);
        }
    }

    /// Record one observed traversal of every hop of `hops`, then rewrite
    /// the congestion of every observed node as its tally normalized by the
    /// current maximum tally: the busiest node always reads full scale.
    #[verifier::loop_isolation(false)]
    pub fn nodes_congestion(&mut self, hops: &Vec<u8>)
        requires
            old(self).wf(),
        ensures
            final(self).wf(),
            final(self).tallies().len() == ID_SPACE,
            final(self).flood_id() == old(self).flood_id(),
            final(self).prev() == old(self).prev(),
            forall|i: u8|
                #[trigger] final(self).tally(i) == sat_count(
                    old(self).tally(i),
                    count_in(hops@, i),
                ),
            forall|i: u8| #[trigger] final(self).acks(i) == old(self).acks(i) && final(self).nacks(i) == old(self).nacks(i),
            final(self).cur().same_structure(old(self).cur()),
            final(self).cur().same_memos(old(self).cur()),
            hops@.len() == 0 ==> final(self).cur().same_stats(old(self).cur()),
            hops@.len() > 0 ==> forall|i: u8|
                final(self).tally(i) >= 1 && old(self).cur().has_node(i) ==> #[trigger] final(self).cur().stats_of(i) == (
                    old(self).cur().stats_of(i).0,
                    normalized_congestion(final(self).tally(i), seq_max(final(self).tallies())),
                ),
            hops@.len() > 0 ==> forall|i: u8|
                final(self).tally(i) == 0 || !old(self).cur().has_node(i) ==> #[trigger] final(self).cur().stats_of(i) == old(self).cur().stats_of(i),
    {
        if hops.is_empty() {
            proof {
                assert(hops@.take(0) =~= hops@);
            }
            return;
        }
        let len = hops.len();
        let mut k: usize = 0;
        while k < len
            invariant
                k <= len,
                len == hops@.len(),
                self.graph == old(self).graph,
                self.old_graph == old(self).old_graph,
                self.current_flood_id == old(self).current_flood_id,
                self.pdr == old(self).pdr,
                self.congestion.len() == ID_SPACE,
                forall|i: u8|
                    #[trigger] self.tally(i) == sat_count(
                        old(self).tally(i),
                        count_in(hops@.take(k as int), i),
                    ),
            decreases len - k,
        {
            let ghost pre = hops@.take(k as int);
            let ghost post = hops@.take(k as int + 1);
            proof {
                assert(post.drop_last() =~= pre);
                assert(post.last() == hops@[k as int]);
            }
            let id = hops[k];
            let ghost before = *self;
            let t = sat_inc(self.congestion[id as usize]);
            self.congestion[id as usize] = t;
            proof {
                assert forall|i: u8| #[trigger] self.tally(i) == sat_count(
                    old(self).tally(i),
                    count_in(post, i),
                ) by {
                    assert(before.tally(i) == sat_count(old(self).tally(i), count_in(pre, i)));
                    if i != id {
                        assert(self.congestion@[i as int] == before.congestion@[i as int]);
                    }
                }
            }
            k = k + 1;
        }
        proof {
            assert(hops@.take(len as int) =~= hops@);
            assert(count_in(hops@, hops@[0]) >= 1) by {
                lemma_count_first(hops@);
            }
            assert(self.tally(hops@[0]) >= 1);
        }
        // the maximum tally over the whole table
        let mut maxv: u64 = 0;
        let mut i: usize = 0;
        while i < ID_SPACE
            invariant
                i <= ID_SPACE,
                self.congestion.len() == ID_SPACE,
                maxv == seq_max(self.congestion@.take(i as int)),
            decreases ID_SPACE - i,
        {
            proof {
                assert(self.congestion@.take(i as int + 1).drop_last() =~= self.congestion@.take(
                    i as int,
                ));
            }
            let t = self.congestion[i];
            if t > maxv {
                maxv = t;
            }
            i = i + 1;
        }
        proof {
            assert(self.congestion@.take(ID_SPACE as int) =~= self.congestion@);
            lemma_seq_max_bound(self.congestion@, hops@[0] as int);
            assert(maxv >= 1);
        }
        // rewrite every observed node's congestion, normalized by maxv
        let ghost mid = *self;
        let mut id2: usize = 0;
        while id2 < ID_SPACE
            invariant
                id2 <= ID_SPACE,
                maxv == seq_max(mid.tallies()),
                maxv >= 1,
                self.graph.wf(),
                self.old_graph == mid.old_graph,
                self.current_flood_id == mid.current_flood_id,
                self.pdr == mid.pdr,
                self.congestion == mid.congestion,
                self.graph.same_structure(mid.graph),
                self.graph.same_memos(mid.graph),
                forall|i3: u8|
                    (i3 as int) < id2 && mid.tally(i3) >= 1 && mid.graph.has_node(i3)
                        ==> #[trigger] self.graph.stats_of(i3) == (
                        mid.graph.stats_of(i3).0,
                        normalized_congestion(mid.tally(i3), maxv),
                    ),
                forall|i3: u8|
                    (i3 as int) >= id2 || mid.tally(i3) == 0 || !mid.graph.has_node(i3)
                        ==> #[trigger] self.graph.stats_of(i3) == mid.graph.stats_of(i3),
            decreases ID_SPACE - id2,
        {
            let t = self.congestion[id2];
            if t > 0 {
                proof {
                    lemma_seq_max_bound(mid.tallies(), id2 as int);
                }
                let c = scaled_ratio(t, maxv);
                self.graph.update_node_congestion(id2 as u8, c);
            }
            id2 = id2 + 1;
        }
        proof {
            assert forall|i: u8| #[trigger] self.tally(i) == sat_count(
                old(self).tally(i),
                count_in(hops@, i),
            ) by {
                assert(mid.tally(i) == sat_count(old(self).tally(i), count_in(hops@, i)));
                assert(self.congestion@[i as int] == mid.congestion@[i as int]);
            }
        }
    }

    /// The best known route from `start` to `end`, as the ordered hops
    /// after the origin; `None` when the endpoints are invalid or no
    /// eligible route was found. While no cost is memoized toward `end`
    /// (so the search heuristic is zero and the search degenerates to
    /// Dijkstra), the returned route costs no more than any eligible route.
    pub fn best_path(&mut self, start: u8, end: u8) -> (r: Option<Vec<u8>>)
        requires
            old(self).wf(),
        ensures
            final(self).wf(),
            final(self).tallies().len() == ID_SPACE,
            final(self).flood_id() == old(self).flood_id(),
            final(self).prev() == old(self).prev(),
            forall|i: u8| #[trigger] final(self).acks(i) == old(self).acks(i) && final(self).nacks(i) == old(self).nacks(i),
            forall|i: u8| #[trigger] final(self).tally(i) == old(self).tally(i),
            final(self).cur().same_structure(old(self).cur()),
            final(self).cur().same_stats(old(self).cur()),
            old(self).cur().invalid_endpoints(start, end) ==> r is None,
            r matches Some(v) ==> ({
                let full = seq![start] + v@;
                &&& !old(self).cur().invalid_endpoints(start, end)
                &&& v@.len() >= 1
                &&& v@[v@.len() - 1] == end
                &&& old(self).cur().valid_route(full, start, end)
                &&& (forall|i: int, j: int| 0 <= i < j < full.len() ==> full[i] != full[j])
                &&& (forall|i: int|
                    0 <= i < full.len() ==> final(self).cur().memo_of(full[i], end) == Some(
                        old(self).cur().route_cost_from(full, i)))
                &&& (forall|i2: u8, d: u8|
                    !(full.contains(i2) && d == end) ==> final(self).cur().memo_of(i2, d) == old(
                        self).cur().memo_of(i2, d))
                &&& ((forall|v2: u8| old(self).cur().memo_of(v2, end) is None) ==> (forall|
                    other: Seq<u8>,
                |
                    old(self).cur().valid_route(other, start, end) && other.len() <= ID_SPACE
                        ==> old(self).cur().route_cost_from(full, 1) as int <= old(
                        self).cur().route_cost_from(other, 1)))
            }),
            r is None ==> final(self).cur().same_memos(old(self).cur()),
            r is None ==> old(self).cur().invalid_endpoints(start, end) || (forall|hops: Seq<u8>|
                !(old(self).cur().valid_route(hops, start, end) && hops.len() <= ID_SPACE)),
    {
        match self.graph.a_star_search(start, end) {
            Ok(hdr) => {
                let mut hops = hdr.hops;
                let ghost full = hops@;
                hops.remove(0);
                proof {
                    assert(seq![start] + hops@ =~= full);
                }
                Some(hops)
            }
            Err(e) => {
                proof {
                    if e != PathError::InvalidEndpoint {
                        assert(e == PathError::NoPathFound);
                    }
                }
                None
            }
        }
    }
}

proof fn lemma_count_first(s: Seq<u8>)
    requires
        s.len() >= 1,
    ensures
        count_in(s, s[0]) >= 1,
    decreases s.len(),
{
    if s.len() > 1 {
        assert(s.drop_last()[0] == s[0]);
        lemma_count_first(s.drop_last());
    }
}

} // verus!
