use relay_routing::graph::NodeType;
use relay_routing::routing_handler::{FloodResponse, RoutingHandler};

fn flood(flood_id: u64, path_trace: Vec<(u8, NodeType)>) -> FloodResponse {
    FloodResponse { flood_id, path_trace }
}

#[test]
fn best_path_follows_discovered_trace() {
    let mut routing = RoutingHandler::new();
    routing.update_graph(flood(
        1,
        vec![
            (0, NodeType::Client),
            (1, NodeType::Drone),
            (2, NodeType::Drone),
            (9, NodeType::Client),
        ],
    ));
    // the origin is excluded: the first returned hop follows the origin
    assert_eq!(routing.best_path(0, 9), Some(vec![1, 2, 9]));
}

#[test]
fn failures_redirect_to_alternative_route() {
    let mut routing = RoutingHandler::new();
    routing.update_graph(flood(
        1,
        vec![
            (0, NodeType::Client),
            (1, NodeType::Drone),
            (2, NodeType::Drone),
            (9, NodeType::Client),
        ],
    ));
    assert_eq!(routing.best_path(0, 9), Some(vec![1, 2, 9]));
    // an alternative route of equal topology through relays 3 and 4
    routing.update_graph(flood(
        1,
        vec![
            (0, NodeType::Client),
            (3, NodeType::Drone),
            (4, NodeType::Drone),
            (9, NodeType::Client),
        ],
    ));
    // all four relays deliver once, then relay 1 starts failing
    routing.nodes_ack(&vec![1, 2, 3, 4]);
    routing.node_nack(1);
    assert_eq!(routing.best_path(0, 9), Some(vec![3, 4, 9]));
}

#[test]
fn congestion_normalizes_against_busiest_node() {
    let mut routing = RoutingHandler::new();
    routing.update_graph(flood(
        1,
        vec![
            (0, NodeType::Client),
            (1, NodeType::Drone),
            (2, NodeType::Drone),
            (3, NodeType::Drone),
        ],
    ));
    routing.nodes_congestion(&vec![1, 2, 2, 3]);
    // node 2 carries the maximum tally and reads exactly full scale
    assert_eq!(routing.node_stats(2).1, 1000);
    assert_eq!(routing.node_stats(1).1, 500);
    assert_eq!(routing.node_stats(3).1, 500);
}

#[test]
fn congestion_rewrites_all_observed_nodes() {
    let mut routing = RoutingHandler::new();
    routing.update_graph(flood(
        1,
        vec![(0, NodeType::Client), (1, NodeType::Drone), (2, NodeType::Drone)],
    ));
    routing.nodes_congestion(&vec![1]);
    assert_eq!(routing.node_stats(1).1, 1000);
    // a later sample renormalizes every observed node, not only its hops
    routing.nodes_congestion(&vec![2, 2]);
    assert_eq!(routing.node_stats(1).1, 500);
    assert_eq!(routing.node_stats(2).1, 1000);
}

#[test]
fn rollover_preserves_learned_statistics() {
    let mut routing = RoutingHandler::new();
    routing.update_graph(flood(1, vec![(5, NodeType::Client), (6, NodeType::Drone)]));
    routing.nodes_ack(&vec![5]);
    assert_eq!(routing.node_stats(5), (1000, 0));
    // a discovery of a new round rebuilds the graph, carrying stats forward
    routing.update_graph(flood(2, vec![(5, NodeType::Client), (7, NodeType::Drone)]));
    assert_eq!(routing.node_stats(5), (1000, 0));
    // node 6 was not rediscovered in round 2
    assert_eq!(routing.node_stats(6), (0, 0));
}

#[test]
fn empty_trace_still_rolls_the_round_over() {
    let mut routing = RoutingHandler::new();
    routing.update_graph(flood(1, vec![(5, NodeType::Client), (6, NodeType::Drone)]));
    routing.nodes_ack(&vec![5]);
    routing.update_graph(flood(2, vec![]));
    // the current graph was cleared by the rollover
    assert_eq!(routing.node_stats(5), (0, 0));
    // rediscovery in the same round seeds from the previous snapshot
    routing.update_graph(flood(2, vec![(5, NodeType::Client), (6, NodeType::Drone)]));
    assert_eq!(routing.node_stats(5), (1000, 0));
}

#[test]
fn empty_signals_are_noops() {
    let mut routing = RoutingHandler::new();
    routing.update_graph(flood(1, vec![(0, NodeType::Client), (1, NodeType::Drone)]));
    routing.nodes_ack(&vec![1]);
    routing.nodes_ack(&vec![]);
    routing.nodes_congestion(&vec![]);
    assert_eq!(routing.node_stats(1), (1000, 0));
}

#[test]
fn failure_rate_lowers_reliability() {
    let mut routing = RoutingHandler::new();
    routing.update_graph(flood(1, vec![(0, NodeType::Client), (1, NodeType::Drone)]));
    routing.nodes_ack(&vec![1]);
    routing.node_nack(1);
    // one success and one failure: reliability one half
    assert_eq!(routing.node_stats(1), (500, 0));
    routing.node_nack(1);
    // one success and two failures, rounded down
    assert_eq!(routing.node_stats(1), (333, 0));
}

#[test]
fn signals_for_unknown_nodes_leave_the_graph_alone() {
    let mut routing = RoutingHandler::new();
    routing.update_graph(flood(1, vec![(0, NodeType::Client), (1, NodeType::Drone)]));
    routing.node_nack(42);
    routing.nodes_congestion(&vec![42]);
    assert_eq!(routing.node_stats(42), (0, 0));
    assert_eq!(routing.node_stats(1), (0, 0));
}

#[test]
fn best_path_rejects_invalid_endpoints() {
    let mut routing = RoutingHandler::new();
    routing.update_graph(flood(
        1,
        vec![(0, NodeType::Client), (1, NodeType::Drone), (9, NodeType::Client)],
    ));
    assert_eq!(routing.best_path(0, 0), None);
    assert_eq!(routing.best_path(0, 77), None);
    assert_eq!(routing.best_path(0, 1), None);
}

#[test]
fn best_path_reports_missing_route() {
    let mut routing = RoutingHandler::new();
    routing.update_graph(flood(1, vec![(0, NodeType::Client), (1, NodeType::Drone)]));
    routing.update_graph(flood(1, vec![(9, NodeType::Client)]));
    assert_eq!(routing.best_path(0, 9), None);
}

#[test]
fn independent_handlers_do_not_share_state() {
    let mut a = RoutingHandler::new();
    let mut b = RoutingHandler::new();
    a.update_graph(flood(1, vec![(0, NodeType::Client), (1, NodeType::Drone)]));
    a.nodes_ack(&vec![1]);
    b.update_graph(flood(1, vec![(0, NodeType::Client), (1, NodeType::Drone)]));
    assert_eq!(a.node_stats(1), (1000, 0));
    assert_eq!(b.node_stats(1), (0, 0));
}
