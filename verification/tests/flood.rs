use media_client::media_client::MediaClient;
use media_client::message::{Action, MediaClientEvent};
use media_client::packet::{
    FloodRequest, FloodResponse, NodeKind, Packet, PacketType, RoutingHeader,
};

#[test]
fn test_get_flood_response() {
    let mock_client = MediaClient::new(128, Vec::new());

    let flood_request = FloodRequest {
        flood_id: 123,
        initiator_id: 129,
        path_trace: vec![
            (1, NodeKind::Drone),
            (2, NodeKind::Drone),
            (3, NodeKind::Drone),
            (4, NodeKind::Drone),
            (5, NodeKind::Drone),
        ],
    };

    let flood_response = mock_client.get_flood_response(flood_request, 256);
    let expect = Packet {
        routing_header: RoutingHeader { hop_index: 1, hops: vec![128, 5, 4, 3, 2, 1, 129] },
        session_id: 256,
        pack_type: PacketType::FloodResponse(FloodResponse {
            flood_id: 123,
            path_trace: vec![
                (1, NodeKind::Drone),
                (2, NodeKind::Drone),
                (3, NodeKind::Drone),
                (4, NodeKind::Drone),
                (5, NodeKind::Drone),
                (128, NodeKind::Client),
            ],
        }),
    };

    assert_eq!(flood_response, expect);
}

#[test]
fn flood_response_does_not_repeat_the_initiator() {
    let client = MediaClient::new(9, Vec::new());
    let request = FloodRequest {
        flood_id: 4,
        initiator_id: 1,
        path_trace: vec![(1, NodeKind::Client), (2, NodeKind::Drone)],
    };
    let response = client.get_flood_response(request, 0);
    assert_eq!(response.routing_header, RoutingHeader { hop_index: 1, hops: vec![9, 2, 1] });
}

#[test]
fn flood_request_is_answered_through_the_neighbour() {
    let mut client = MediaClient::new(128, vec![5]);
    let request = Packet::new_flood_request(
        RoutingHeader::empty_route(),
        256,
        FloodRequest { flood_id: 123, initiator_id: 129, path_trace: vec![(5, NodeKind::Drone)] },
    );
    let actions = client.handle_packet(request);
    assert_eq!(actions.len(), 1);
    match &actions[0] {
        Action::Send { neighbour, packet } => {
            assert_eq!(*neighbour, 5);
            assert_eq!(packet.routing_header.hops, vec![128, 5, 129]);
            assert_eq!(packet.routing_header.hop_index, 1);
            assert_eq!(packet.session_id, 256);
        }
        other => panic!("unexpected action {:?}", other),
    }
}

#[test]
fn flood_response_without_link_goes_to_the_controller() {
    // the next hop, 42, is not among the neighbours any more
    let mut client = MediaClient::new(128, vec![42, 7]);
    client.handle_command(media_client::message::MediaClientCommand::RemoveSender(42));
    let response = Packet::new_flood_response(
        RoutingHeader::with_first_hop(vec![128, 42, 129]),
        3,
        FloodResponse { flood_id: 1, path_trace: vec![(42, NodeKind::Drone), (128, NodeKind::Client)] },
    );
    let expected = response.clone();
    let action = client.send_packet(response, None);
    assert_eq!(action, Some(Action::Notify(MediaClientEvent::ControllerShortcut(expected))));
}

#[test]
fn start_floods_every_neighbour_once() {
    let mut client = MediaClient::new(1, vec![9, 4, 4]);
    assert_eq!(client.neighbours(), vec![4, 9]);
    let actions = client.start();
    assert_eq!(actions.len(), 3);
    let mut ids = Vec::new();
    for action in &actions[..2] {
        match action {
            Action::Send { neighbour, packet } => {
                ids.push(*neighbour);
                match &packet.pack_type {
                    PacketType::FloodRequest(request) => {
                        assert_eq!(request.flood_id, 0);
                        assert_eq!(request.initiator_id, 1);
                        assert_eq!(request.path_trace, vec![(1, NodeKind::Client)]);
                    }
                    other => panic!("unexpected payload {:?}", other),
                }
            }
            other => panic!("unexpected action {:?}", other),
        }
    }
    assert_eq!(ids, vec![4, 9]);
    // the first flood is given two seconds, any later one ten milliseconds
    assert_eq!(actions[2], Action::Settle { millis: 2000 });
    // the next flood has a new identifier
    let again = client.handle_command(media_client::message::MediaClientCommand::InitFlooding);
    assert_eq!(again[2], Action::Settle { millis: 10 });
    match &again[0] {
        Action::Send { packet, .. } => match &packet.pack_type {
            PacketType::FloodRequest(request) => assert_eq!(request.flood_id, 1),
            other => panic!("unexpected payload {:?}", other),
        },
        other => panic!("unexpected action {:?}", other),
    }
}
