use media_client::packet::{FloodResponse, NodeKind, RoutingHeader};
use media_client::router::{Router, RoutingError};

fn response(trace: Vec<(u8, NodeKind)>) -> FloodResponse {
    FloodResponse { flood_id: 0, path_trace: trace }
}

fn diamond() -> Router {
    // 1 - 2 - 7 and 1 - 3 - 7
    let mut router = Router::new(1, NodeKind::Client);
    router.handle_flood_response(&response(vec![
        (1, NodeKind::Client),
        (2, NodeKind::Drone),
        (7, NodeKind::Server),
    ]));
    router.handle_flood_response(&response(vec![
        (1, NodeKind::Client),
        (3, NodeKind::Drone),
        (7, NodeKind::Server),
    ]));
    router
}

#[test]
fn new_router_knows_only_itself() {
    let router = Router::new(5, NodeKind::Client);
    assert_eq!(router.get_id(), 5);
    assert_eq!(router.kind_at(5), Some(NodeKind::Client));
    assert_eq!(router.kind_at(6), None);
    assert_eq!(router.drops_at(5, 6), None);
    assert_eq!(router.get_server_list(), Vec::<u8>::new());
    assert_eq!(
        router.get_source_routing_header(5),
        Ok(RoutingHeader { hop_index: 0, hops: vec![5] })
    );
    assert_eq!(router.get_source_routing_header(6), Err(RoutingError::Unreachable(6)));
}

#[test]
fn flood_response_builds_the_graph() {
    let router = diamond();
    assert_eq!(router.kind_at(2), Some(NodeKind::Drone));
    assert_eq!(router.kind_at(7), Some(NodeKind::Server));
    assert_eq!(router.kind_at(1), Some(NodeKind::Client));
    assert_eq!(router.drops_at(1, 2), Some(0));
    assert_eq!(router.drops_at(2, 1), Some(0));
    assert_eq!(router.drops_at(3, 7), Some(0));
    assert_eq!(router.drops_at(2, 3), None);
    assert_eq!(router.get_server_list(), vec![7]);
}

#[test]
fn flood_response_is_idempotent() {
    let mut router = diamond();
    router.dropped_fragment(2);
    let trace = response(vec![(1, NodeKind::Client), (2, NodeKind::Drone), (7, NodeKind::Server)]);
    router.handle_flood_response(&trace);
    router.handle_flood_response(&trace);
    // the known links keep their drop counts
    assert_eq!(router.drops_at(1, 2), Some(1));
    assert_eq!(router.drops_at(2, 7), Some(1));
    assert_eq!(router.drops_at(1, 3), Some(0));
}

#[test]
fn the_router_never_changes_what_it_is_itself() {
    let mut router = Router::new(1, NodeKind::Client);
    router.handle_flood_response(&response(vec![(1, NodeKind::Drone), (2, NodeKind::Drone)]));
    assert_eq!(router.kind_at(1), Some(NodeKind::Client));
    assert_eq!(router.drops_at(1, 2), Some(0));
}

#[test]
fn equal_routes_tie_break_by_smaller_identifier() {
    let router = diamond();
    assert_eq!(
        router.get_source_routing_header(7),
        Ok(RoutingHeader { hop_index: 1, hops: vec![1, 2, 7] })
    );
}

#[test]
fn drops_make_a_link_dearer() {
    let mut router = diamond();
    router.dropped_fragment(2);
    assert_eq!(router.drops_at(1, 2), Some(1));
    assert_eq!(router.drops_at(2, 7), Some(1));
    assert_eq!(router.drops_at(1, 3), Some(0));
    assert_eq!(
        router.get_source_routing_header(7),
        Ok(RoutingHeader { hop_index: 1, hops: vec![1, 3, 7] })
    );
}

#[test]
fn a_longer_route_wins_over_a_flaky_short_one() {
    // 1 - 2 - 7 with drops, 1 - 3 - 4 - 7 without
    let mut router = Router::new(1, NodeKind::Client);
    router.handle_flood_response(&response(vec![
        (1, NodeKind::Client),
        (2, NodeKind::Drone),
        (7, NodeKind::Server),
    ]));
    router.dropped_fragment(2);
    router.handle_flood_response(&response(vec![
        (1, NodeKind::Client),
        (3, NodeKind::Drone),
        (4, NodeKind::Drone),
        (7, NodeKind::Server),
    ]));
    // cost of the short route: 2 + 2 = 4; of the long one: 3
    assert_eq!(
        router.get_source_routing_header(7),
        Ok(RoutingHeader { hop_index: 1, hops: vec![1, 3, 4, 7] })
    );
}

#[test]
fn servers_and_clients_do_not_relay() {
    // 1 - 7 - 8: the only way to 8 leads through server 7
    let mut router = Router::new(1, NodeKind::Client);
    router.handle_flood_response(&response(vec![
        (1, NodeKind::Client),
        (7, NodeKind::Server),
        (8, NodeKind::Server),
    ]));
    assert_eq!(
        router.get_source_routing_header(7),
        Ok(RoutingHeader { hop_index: 1, hops: vec![1, 7] })
    );
    assert_eq!(router.get_source_routing_header(8), Err(RoutingError::Unreachable(8)));
    assert_eq!(router.get_server_list(), vec![7, 8]);
}

#[test]
fn a_crashed_drone_leaves_the_graph() {
    let mut router = diamond();
    assert_eq!(router.drone_crashed(2), Ok(()));
    assert_eq!(router.kind_at(2), None);
    assert_eq!(router.drops_at(1, 2), None);
    assert_eq!(router.drops_at(7, 2), None);
    assert_eq!(
        router.get_source_routing_header(7),
        Ok(RoutingHeader { hop_index: 1, hops: vec![1, 3, 7] })
    );
    assert_eq!(router.drone_crashed(2), Err(RoutingError::UnknownNode(2)));
    assert_eq!(router.drone_crashed(1), Err(RoutingError::UnknownNode(1)));
    assert_eq!(router.drone_crashed(3), Ok(()));
    assert_eq!(router.get_source_routing_header(7), Err(RoutingError::Unreachable(7)));
}

#[test]
fn neighbours_come_and_go() {
    let mut router = Router::new(1, NodeKind::Client);
    router.add_neighbour(2);
    assert_eq!(router.kind_at(2), Some(NodeKind::Drone));
    assert_eq!(router.drops_at(1, 2), Some(0));
    assert_eq!(
        router.get_source_routing_header(2),
        Ok(RoutingHeader { hop_index: 1, hops: vec![1, 2] })
    );
    router.remove_neighbour(2);
    assert_eq!(router.drops_at(1, 2), None);
    assert_eq!(router.kind_at(2), Some(NodeKind::Drone));
    assert_eq!(router.get_source_routing_header(2), Err(RoutingError::Unreachable(2)));
    // adding this node itself changes nothing
    router.add_neighbour(1);
    assert_eq!(router.drops_at(1, 1), None);
}

#[test]
fn clearing_keeps_this_node_only() {
    let mut router = diamond();
    router.clear_routing_table();
    assert_eq!(router.kind_at(1), Some(NodeKind::Client));
    assert_eq!(router.kind_at(2), None);
    assert_eq!(router.kind_at(7), None);
    assert_eq!(router.drops_at(1, 2), None);
    assert_eq!(router.get_server_list(), Vec::<u8>::new());
}

#[test]
fn flood_requests_share_one_fresh_identifier() {
    let mut router = Router::new(1, NodeKind::Client);
    let first = router.get_flood_request();
    let batch = router.get_flood_requests(3);
    assert_eq!(batch.len(), 3);
    assert_eq!(batch[0], batch[1]);
    assert_eq!(batch[1], batch[2]);
    assert_ne!(first, batch[0]);
    match (&first.pack_type, &batch[0].pack_type) {
        (
            media_client::packet::PacketType::FloodRequest(a),
            media_client::packet::PacketType::FloodRequest(b),
        ) => {
            assert_eq!(a.flood_id, 0);
            assert_eq!(b.flood_id, 1);
            assert_eq!(b.initiator_id, 1);
            assert_eq!(b.path_trace, vec![(1, NodeKind::Client)]);
        }
        _ => panic!("not a flood request"),
    }
    assert_eq!(router.get_flood_requests(0).len(), 0);
}

#[test]
fn among_equal_routes_the_one_that_arrives_from_the_nearest_node_wins() {
    // 1 - 9 - 7 with one drop at 9 costs 4, as 1 - 3 - 4 - 5 - 7 does
    let mut router = Router::new(1, NodeKind::Client);
    router.handle_flood_response(&response(vec![
        (1, NodeKind::Client),
        (3, NodeKind::Drone),
        (4, NodeKind::Drone),
        (5, NodeKind::Drone),
        (7, NodeKind::Server),
    ]));
    router.handle_flood_response(&response(vec![
        (1, NodeKind::Client),
        (9, NodeKind::Drone),
        (7, NodeKind::Server),
    ]));
    router.dropped_fragment(9);
    // 7 is reached from 9, which is at 2, not from 5, which is at 3
    assert_eq!(
        router.get_source_routing_header(7),
        Ok(RoutingHeader { hop_index: 1, hops: vec![1, 9, 7] })
    );
    // one more drop, and the long way is the cheaper one
    router.dropped_fragment(9);
    assert_eq!(
        router.get_source_routing_header(7),
        Ok(RoutingHeader { hop_index: 1, hops: vec![1, 3, 4, 5, 7] })
    );
}

#[test]
fn among_equally_near_nodes_the_smaller_identifier_wins() {
    // 7 is reached at cost 2 over 6 and over 4
    let mut router = Router::new(1, NodeKind::Client);
    for drone in [6u8, 4u8] {
        router.handle_flood_response(&response(vec![
            (1, NodeKind::Client),
            (drone, NodeKind::Drone),
            (7, NodeKind::Server),
        ]));
    }
    assert_eq!(
        router.get_source_routing_header(7),
        Ok(RoutingHeader { hop_index: 1, hops: vec![1, 4, 7] })
    );
}
