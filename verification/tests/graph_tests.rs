use relay_routing::graph::{Graph, Node, NodeType, PathError};

#[test]
fn fresh_node_has_unknown_stats_and_unit_cost() {
    let n = Node::new(NodeType::Drone);
    assert_eq!(n.pdr, 0);
    assert_eq!(n.congestion, 0);
    // cost = 1_000_000 / (0 + (1000 - 0))
    assert_eq!(n.get_weight(), 1000);
}

#[test]
fn perfect_reliability_gives_minimum_cost() {
    let mut n = Node::new(NodeType::Drone);
    n.update_pdr(1000);
    assert_eq!(n.get_weight(), 500);
}

#[test]
fn degenerate_cost_uses_sentinel() {
    let mut n = Node::new(NodeType::Drone);
    n.update_pdr(0);
    n.update_congestion(1000);
    assert_eq!(n.get_weight(), 2_000_000);
}

#[test]
fn congestion_raises_cost() {
    let mut n = Node::new(NodeType::Drone);
    n.update_congestion(500);
    assert_eq!(n.get_weight(), 2000);
    let mut m = Node::new(NodeType::Drone);
    m.update_congestion(800);
    assert_eq!(m.get_weight(), 5000);
    assert!(m.get_weight() > n.get_weight());
}

#[test]
fn reliability_never_raises_cost() {
    // monotonicity of the cost formula, sampled
    let mut low = Node::new(NodeType::Drone);
    low.update_pdr(200);
    let mut high = Node::new(NodeType::Drone);
    high.update_pdr(800);
    assert!(high.get_weight() <= low.get_weight());
}

#[test]
fn unknown_node_weight_is_zero() {
    let g = Graph::new();
    assert_eq!(g.get_node_weight(77), (0, 0));
}

#[test]
fn stats_update_round_trip() {
    let mut g = Graph::new();
    g.add_node(4, NodeType::Drone);
    g.update_node_weight(4, (700, 300));
    assert_eq!(g.get_node_weight(4), (700, 300));
    g.update_node_pdr(4, 650);
    assert_eq!(g.get_node_weight(4), (650, 300));
    g.update_node_congestion(4, 1000);
    assert_eq!(g.get_node_weight(4), (650, 1000));
}

#[test]
fn stats_update_on_unknown_id_is_noop() {
    let mut g = Graph::new();
    g.update_node_weight(9, (500, 500));
    assert_eq!(g.get_node_weight(9), (0, 0));
}

#[test]
fn add_node_first_role_wins() {
    let mut g = Graph::new();
    g.add_node(1, NodeType::Client);
    g.add_node(2, NodeType::Client);
    g.add_edge(1, 2);
    // re-adding with a different role must not change the stored role
    g.add_node(1, NodeType::Drone);
    let r = g.a_star_search(1, 2).unwrap();
    assert_eq!(r.hops, vec![1, 2]);
    assert_eq!(r.hop_index, 1);
}

#[test]
fn search_rejects_unknown_start() {
    let mut g = Graph::new();
    g.add_node(9, NodeType::Client);
    assert!(matches!(g.a_star_search(0, 9), Err(PathError::InvalidEndpoint)));
}

#[test]
fn search_rejects_unknown_end() {
    let mut g = Graph::new();
    g.add_node(0, NodeType::Client);
    assert!(matches!(g.a_star_search(0, 9), Err(PathError::InvalidEndpoint)));
}

#[test]
fn search_rejects_relay_endpoints() {
    let mut g = Graph::new();
    g.add_node(0, NodeType::Drone);
    g.add_node(9, NodeType::Client);
    g.add_edge(0, 9);
    assert!(matches!(g.a_star_search(0, 9), Err(PathError::InvalidEndpoint)));
    assert!(matches!(g.a_star_search(9, 0), Err(PathError::InvalidEndpoint)));
}

#[test]
fn search_rejects_equal_endpoints() {
    let mut g = Graph::new();
    g.add_node(3, NodeType::Client);
    assert!(matches!(g.a_star_search(3, 3), Err(PathError::InvalidEndpoint)));
}

#[test]
fn search_finds_relay_chain() {
    let mut g = Graph::new();
    g.add_node(0, NodeType::Client);
    g.add_node(1, NodeType::Drone);
    g.add_node(2, NodeType::Drone);
    g.add_node(9, NodeType::Server);
    g.add_edge(0, 1);
    g.add_edge(1, 2);
    g.add_edge(2, 9);
    let r = g.a_star_search(0, 9).unwrap();
    assert_eq!(r.hops, vec![0, 1, 2, 9]);
    assert_eq!(r.hop_index, 1);
}

#[test]
fn search_skips_non_relay_interior() {
    // the only interior candidate is a client, so no route is eligible
    let mut g = Graph::new();
    g.add_node(0, NodeType::Client);
    g.add_node(3, NodeType::Client);
    g.add_node(9, NodeType::Client);
    g.add_edge(0, 3);
    g.add_edge(3, 9);
    assert!(matches!(g.a_star_search(0, 9), Err(PathError::NoPathFound)));
}

#[test]
fn destination_is_always_eligible() {
    let mut g = Graph::new();
    g.add_node(0, NodeType::Client);
    g.add_node(9, NodeType::Client);
    g.add_edge(0, 9);
    let r = g.a_star_search(0, 9).unwrap();
    assert_eq!(r.hops, vec![0, 9]);
}

#[test]
fn search_reports_no_path_in_disconnected_graph() {
    let mut g = Graph::new();
    g.add_node(0, NodeType::Client);
    g.add_node(9, NodeType::Client);
    g.add_node(1, NodeType::Drone);
    g.add_edge(0, 1);
    assert!(matches!(g.a_star_search(0, 9), Err(PathError::NoPathFound)));
}

#[test]
fn search_prefers_cheaper_relays() {
    let mut g = Graph::new();
    g.add_node(0, NodeType::Client);
    g.add_node(1, NodeType::Drone);
    g.add_node(2, NodeType::Drone);
    g.add_node(9, NodeType::Client);
    g.add_edge(0, 1);
    g.add_edge(1, 9);
    g.add_edge(0, 2);
    g.add_edge(2, 9);
    // relay 2 is perfectly reliable, relay 1 is congested
    g.update_node_weight(2, (1000, 0));
    g.update_node_weight(1, (0, 900));
    let r = g.a_star_search(0, 9).unwrap();
    assert_eq!(r.hops, vec![0, 2, 9]);
}

#[test]
fn clear_discards_everything() {
    let mut g = Graph::new();
    g.add_node(5, NodeType::Drone);
    g.update_node_pdr(5, 400);
    g.clear();
    assert_eq!(g.get_node_weight(5), (0, 0));
}

#[test]
fn largest_identifier_is_usable() {
    let mut g = Graph::new();
    g.add_node(255, NodeType::Client);
    g.add_node(0, NodeType::Client);
    g.add_edge(255, 0);
    let r = g.a_star_search(255, 0).unwrap();
    assert_eq!(r.hops, vec![255, 0]);
}
