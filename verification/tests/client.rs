use media_client::assembler::Assembler;
use media_client::media_client::{has_id, insert_id, remove_id, sorted_snapshot, MediaClient};
use media_client::message::{
    Action, ClientMessage, MediaClientCommand, MediaClientEvent, Message, MessageContent,
    ServerMessage, ServerType,
};
use media_client::message_handler::HighLevelMessageHandler;
use media_client::packet::{
    Ack, FloodResponse, Fragment, Nack, NackType, NodeKind, Packet, PacketType, RoutingHeader,
};
use media_client::packet_cache::PacketCache;

/// A client 1 with the drone 2 as its neighbour and the server 7 behind it.
fn client_with_server() -> MediaClient {
    let mut client = MediaClient::new(1, vec![2]);
    let trace = vec![(1, NodeKind::Client), (2, NodeKind::Drone), (7, NodeKind::Server)];
    let response = Packet::new_flood_response(
        RoutingHeader::with_first_hop(vec![7, 2, 1]),
        0,
        FloodResponse { flood_id: 0, path_trace: trace },
    );
    assert_eq!(client.handle_packet(response), Vec::new());
    client
}

fn message_of(action: &Action) -> (u8, u64, Message) {
    match action {
        Action::Send { neighbour, packet } => match &packet.pack_type {
            PacketType::MsgFragment(fragment) => {
                let mut assembler = Assembler::new();
                let message = assembler
                    .process_fragment(fragment.clone(), packet.session_id, 0)
                    .expect("one fragment holds the message");
                (*neighbour, packet.session_id, message)
            }
            other => panic!("unexpected payload {:?}", other),
        },
        other => panic!("unexpected action {:?}", other),
    }
}

#[test]
fn fragment_happy_path() {
    let mut factory = HighLevelMessageHandler::new(1, NodeKind::Client);
    let header = RoutingHeader::with_first_hop(vec![1, 2, 7]);
    let packets = factory.get_message_from_message_content(
        MessageContent::FromClient(ClientMessage::GetFilesList),
        &header,
    );
    assert_eq!(packets.len(), 1);
    assert_eq!(packets[0].session_id, 0);
    assert_eq!(packets[0].get_fragment_index(), 0);
    assert_eq!(packets[0].routing_header, header);
    let mut cache = PacketCache::new();
    cache.insert_packet(&packets[0]);
    assert_eq!(cache.len(), 1);
    assert_eq!(cache.take_packet((0, 0)), Some(packets[0].clone()));
    assert_eq!(cache.len(), 0);
    // the next message opens the next session
    let more = factory.get_message_from_message_content(
        MessageContent::FromClient(ClientMessage::GetServerType),
        &header,
    );
    assert_eq!(more[0].session_id, 1);
}

#[test]
fn asking_caches_and_an_ack_evicts() {
    let mut client = client_with_server();
    let actions = client.handle_command(MediaClientCommand::AskServerType(7));
    assert_eq!(actions.len(), 1);
    let (neighbour, session, message) = message_of(&actions[0]);
    assert_eq!(neighbour, 2);
    assert_eq!(session, 0);
    assert_eq!(message, Message::new_client_message(0, 1, 7, ClientMessage::GetServerType));
    match &actions[0] {
        Action::Send { packet, .. } => {
            assert_eq!(packet.routing_header, RoutingHeader { hop_index: 1, hops: vec![1, 2, 7] });
        }
        other => panic!("unexpected action {:?}", other),
    }
    assert_eq!(client.in_flight(), 1);
    // an ack for another fragment changes nothing
    let stray = Packet::new_ack(RoutingHeader::with_first_hop(vec![7, 2, 1]), 0, 5);
    assert_eq!(client.handle_packet(stray), Vec::new());
    assert_eq!(client.in_flight(), 1);
    let ack = Packet {
        routing_header: RoutingHeader::with_first_hop(vec![7, 2, 1]),
        session_id: 0,
        pack_type: PacketType::Ack(Ack { fragment_index: 0 }),
    };
    assert_eq!(client.handle_packet(ack), Vec::new());
    assert_eq!(client.in_flight(), 0);
}

#[test]
fn asking_for_the_file_list_sends_and_caches_one_fragment() {
    let mut client = client_with_server();
    let actions = client.handle_command(MediaClientCommand::AskFilesList(7));
    // the request alone leaves: one fragment, on the link to the first hop
    assert_eq!(actions.len(), 1);
    let (neighbour, session, list) = message_of(&actions[0]);
    assert_eq!((neighbour, session), (2, 0));
    assert_eq!(list, Message::new_client_message(0, 1, 7, ClientMessage::GetFilesList));
    match &actions[0] {
        Action::Send { packet, .. } => {
            assert_eq!(packet.get_fragment_index(), 0);
            assert_eq!(packet.routing_header, RoutingHeader { hop_index: 1, hops: vec![1, 2, 7] });
            match &packet.pack_type {
                PacketType::MsgFragment(fragment) => assert_eq!(fragment.total_n_fragments, 1),
                other => panic!("unexpected payload {:?}", other),
            }
        }
        other => panic!("unexpected action {:?}", other),
    }
    // it is cached under session 0, fragment 0, and the matching ack evicts it
    assert_eq!(client.in_flight(), 1);
    let ack = Packet::new_ack(RoutingHeader::with_first_hop(vec![7, 2, 1]), 0, 0);
    assert_eq!(client.handle_packet(ack), Vec::new());
    assert_eq!(client.in_flight(), 0);
}

#[test]
fn asking_for_a_file_sends_the_request_alone() {
    let mut client = client_with_server();
    client.handle_command(MediaClientCommand::AskFilesList(7));
    let actions = client.handle_command(MediaClientCommand::AskForFile(7, "a".to_string()));
    assert_eq!(actions.len(), 1);
    let (_, session, file) = message_of(&actions[0]);
    assert_eq!(session, 1);
    assert_eq!(file, Message::new_client_message(1, 1, 7, ClientMessage::GetFile("a".to_string())));
    assert_eq!(client.in_flight(), 2);
}

#[test]
fn asking_an_unreachable_server_tells_the_controller() {
    let mut client = client_with_server();
    let actions = client.handle_command(MediaClientCommand::AskFilesList(8));
    assert_eq!(actions, vec![Action::Notify(MediaClientEvent::UnreachableNode(8))]);
    assert_eq!(client.in_flight(), 0);
}

#[test]
fn server_list_is_reported_and_probed() {
    let mut client = client_with_server();
    let actions = client.handle_command(MediaClientCommand::GetServerList);
    assert_eq!(actions.len(), 2);
    assert_eq!(actions[0], Action::Notify(MediaClientEvent::ServerList(vec![7])));
    let (_, _, probe) = message_of(&actions[1]);
    assert_eq!(probe, Message::new_client_message(0, 1, 7, ClientMessage::GetServerType));
}

#[test]
fn senders_are_added_and_removed_once() {
    let mut client = MediaClient::new(1, Vec::new());
    assert_eq!(
        client.handle_command(MediaClientCommand::AddSender(4)),
        vec![Action::Notify(MediaClientEvent::AddedSender(4))]
    );
    assert_eq!(client.handle_command(MediaClientCommand::AddSender(4)), Vec::new());
    assert_eq!(client.neighbours(), vec![4]);
    assert_eq!(
        client.handle_command(MediaClientCommand::RemoveSender(4)),
        vec![Action::Notify(MediaClientEvent::RemovedSender(4))]
    );
    assert_eq!(client.handle_command(MediaClientCommand::RemoveSender(4)), Vec::new());
    assert_eq!(client.neighbours(), Vec::<u8>::new());
    let flood = client.handle_command(MediaClientCommand::InitFlooding);
    assert_eq!(flood, vec![Action::Settle { millis: 10 }]);
}

#[test]
fn unexpected_recipient() {
    let mut client = client_with_server();
    let fragment = Fragment { fragment_index: 3, total_n_fragments: 5, data: vec![1, 2, 3] };
    let packet = Packet::new_fragment(
        RoutingHeader { hop_index: 2, hops: vec![7, 2, 200] },
        11,
        fragment,
    );
    let actions = client.handle_packet(packet);
    let nack = Packet::new_nack(
        RoutingHeader { hop_index: 1, hops: vec![200, 2, 7] },
        11,
        Nack { fragment_index: 3, nack_type: NackType::UnexpectedRecipient(1) },
    );
    assert_eq!(actions, vec![Action::Send { neighbour: 2, packet: nack }]);
    // the fragment did not reach the assembler: the session starts afresh
    let whole = Fragment { fragment_index: 0, total_n_fragments: 1, data: vec![0; 11] };
    let packet = Packet::new_fragment(RoutingHeader { hop_index: 2, hops: vec![7, 2, 1] }, 11, whole);
    let actions = client.handle_packet(packet);
    assert_eq!(
        actions,
        vec![Action::Send {
            neighbour: 2,
            packet: Packet::new_ack(RoutingHeader { hop_index: 1, hops: vec![1, 2, 7] }, 11, 0),
        }]
    );
}

#[test]
fn a_fragment_with_a_hop_index_out_of_range_is_refused() {
    let mut client = client_with_server();
    let fragment = Fragment { fragment_index: 0, total_n_fragments: 1, data: vec![0; 11] };
    let packet = Packet::new_fragment(RoutingHeader { hop_index: 3, hops: vec![7, 2, 1] }, 11, fragment);
    let actions = client.handle_packet(packet);
    assert_eq!(actions.len(), 1);
    match &actions[0] {
        Action::Send { packet, .. } => match &packet.pack_type {
            PacketType::Nack(nack) => {
                assert_eq!(nack.nack_type, NackType::UnexpectedRecipient(1));
            }
            other => panic!("unexpected payload {:?}", other),
        },
        other => panic!("unexpected action {:?}", other),
    }
}

fn deliver(client: &mut MediaClient, message: &Message, hops: Vec<u8>) -> Vec<Action> {
    let assembler = Assembler::new();
    let fragments = assembler.fragment_message(message);
    let last = hops.len() - 1;
    let mut actions = Vec::new();
    for fragment in fragments {
        let packet = Packet::new_fragment(
            RoutingHeader { hop_index: last, hops: hops.clone() },
            message.session_id,
            fragment,
        );
        actions.extend(client.handle_packet(packet));
    }
    actions
}

#[test]
fn reference_resolution() {
    let mut client = client_with_server();
    // two media servers, 8 and 9, behind the same drone
    for server in [8u8, 9u8] {
        let trace = vec![(1, NodeKind::Client), (2, NodeKind::Drone), (server, NodeKind::Server)];
        client.handle_packet(Packet::new_flood_response(
            RoutingHeader::with_first_hop(vec![server, 2, 1]),
            0,
            FloodResponse { flood_id: 0, path_trace: trace },
        ));
        let kind = Message::new_server_message(
            0,
            server,
            1,
            ServerMessage::ServerType(ServerType::Media),
        );
        let actions = deliver(&mut client, &kind, vec![server, 2, 1]);
        assert_eq!(actions.len(), 2);
        assert_eq!(
            actions[1],
            Action::Notify(MediaClientEvent::ReceivedServerType(server, ServerType::Media))
        );
    }
    let text = Message::new_server_message(1, 7, 1, ServerMessage::ServerType(ServerType::Text));
    deliver(&mut client, &text, vec![7, 2, 1]);
    assert_eq!(client.media_servers(), vec![8, 9]);

    let content = "<img src='m1'><img src='m2'>".to_string();
    let file = Message::new_server_message(
        5,
        7,
        1,
        ServerMessage::File { file_id: "a".to_string(), size: content.len(), content: content.clone() },
    );
    let actions = deliver(&mut client, &file, vec![7, 2, 1]);
    // the ack, then one request to each media server in turn
    assert_eq!(actions.len(), 3);
    let (_, _, first) = message_of(&actions[1]);
    let (_, _, second) = message_of(&actions[2]);
    assert_eq!(first, Message::new_client_message(0, 1, 8, ClientMessage::GetMedia("m1".to_string())));
    assert_eq!(second, Message::new_client_message(1, 1, 9, ClientMessage::GetMedia("m2".to_string())));
    assert_eq!(client.in_flight(), 2);

    let m1 = Message::new_server_message(6, 8, 1, ServerMessage::Media("m1".into(), "b1".into()));
    let actions = deliver(&mut client, &m1, vec![8, 2, 1]);
    assert_eq!(actions.len(), 1);
    let m2 = Message::new_server_message(7, 9, 1, ServerMessage::Media("m2".into(), "b2".into()));
    let actions = deliver(&mut client, &m2, vec![9, 2, 1]);
    assert_eq!(actions.len(), 2);
    assert_eq!(
        actions[1],
        Action::Notify(MediaClientEvent::CompleteBundle {
            source_id: 7,
            file_id: "a".to_string(),
            content,
            media_content: vec![
                ("m1".to_string(), "b1".to_string()),
                ("m2".to_string(), "b2".to_string())
            ],
        })
    );
    // the same media again completes nothing
    let actions = deliver(&mut client, &Message::new_server_message(8, 9, 1, ServerMessage::Media("m2".into(), "b2".into())), vec![9, 2, 1]);
    assert_eq!(actions.len(), 1);
}

#[test]
fn a_file_without_references_is_a_bundle_at_once() {
    let mut client = client_with_server();
    let file = Message::new_server_message(
        5,
        7,
        1,
        ServerMessage::File { file_id: "plain".to_string(), size: 5, content: "hello".to_string() },
    );
    let actions = client.handle_message(file);
    assert_eq!(
        actions,
        vec![Action::Notify(MediaClientEvent::CompleteBundle {
            source_id: 7,
            file_id: "plain".to_string(),
            content: "hello".to_string(),
            media_content: Vec::new(),
        })]
    );
}

#[test]
fn a_list_of_files_is_reported_and_the_servers_probed() {
    let mut client = client_with_server();
    let list = Message::new_server_message(
        5,
        7,
        1,
        ServerMessage::FilesList(vec!["a".to_string(), "b".to_string()]),
    );
    let actions = client.handle_message(list);
    assert_eq!(actions.len(), 2);
    assert_eq!(
        actions[0],
        Action::Notify(MediaClientEvent::ReceivedFileList(
            7,
            1,
            vec!["a".to_string(), "b".to_string()]
        ))
    );
    let (_, _, probe) = message_of(&actions[1]);
    assert_eq!(probe, Message::new_client_message(0, 1, 7, ClientMessage::GetServerType));
    // a message from another client is ignored
    let stray = Message::new_client_message(0, 3, 1, ClientMessage::GetFilesList);
    assert_eq!(client.handle_message(stray), Vec::new());
}

fn nack(kind: NackType) -> Packet {
    Packet::new_nack(
        RoutingHeader { hop_index: 1, hops: vec![2, 1] },
        0,
        Nack { fragment_index: 0, nack_type: kind },
    )
}

fn is_flood(action: &Action) -> bool {
    match action {
        Action::Send { packet, .. } => matches!(packet.pack_type, PacketType::FloodRequest(_)),
        _ => false,
    }
}

#[test]
fn retry_escalation() {
    let mut client = client_with_server();
    let sent = client.handle_command(MediaClientCommand::AskServerType(7));
    let first_packet = match &sent[0] {
        Action::Send { packet, .. } => packet.clone(),
        other => panic!("unexpected action {:?}", other),
    };
    // up to the fifth nack the fragment is sent again and nothing more
    for _ in 1..=5 {
        let actions = client.handle_packet(nack(NackType::Dropped));
        assert_eq!(actions, vec![Action::Send { neighbour: 2, packet: first_packet.clone() }]);
    }
    // from the sixth on the network is flooded before the fragment leaves
    for _ in 6..=10 {
        let actions = client.handle_packet(nack(NackType::Dropped));
        assert_eq!(actions.len(), 3);
        assert!(is_flood(&actions[0]));
        assert_eq!(actions[1], Action::Settle { millis: 10 });
        assert_eq!(actions[2], Action::Send { neighbour: 2, packet: first_packet.clone() });
    }
    // the eleventh takes the drone that dropped the fragment out of the graph:
    // no route is left, and the fragment leaves on its old one
    let actions = client.handle_packet(nack(NackType::Dropped));
    assert_eq!(actions.len(), 4);
    assert!(is_flood(&actions[0]));
    assert_eq!(actions[1], Action::Settle { millis: 10 });
    assert_eq!(actions[2], Action::Notify(MediaClientEvent::UnreachableNode(7)));
    assert_eq!(actions[3], Action::Send { neighbour: 2, packet: first_packet.clone() });
    assert_eq!(
        client.handle_command(MediaClientCommand::AskServerType(7)),
        vec![Action::Notify(MediaClientEvent::UnreachableNode(7))]
    );
    assert_eq!(client.in_flight(), 1);
}

#[test]
fn a_nack_takes_another_route_where_there_is_one() {
    let mut client = client_with_server();
    client.handle_command(MediaClientCommand::AddSender(3));
    let trace = vec![(1, NodeKind::Client), (3, NodeKind::Drone), (7, NodeKind::Server)];
    client.handle_packet(Packet::new_flood_response(
        RoutingHeader::with_first_hop(vec![7, 3, 1]),
        0,
        FloodResponse { flood_id: 0, path_trace: trace },
    ));
    let sent = client.handle_command(MediaClientCommand::AskServerType(7));
    match &sent[0] {
        Action::Send { neighbour, .. } => assert_eq!(*neighbour, 2),
        other => panic!("unexpected action {:?}", other),
    }
    // a drop at 2 makes the way over 3 the cheaper one
    let actions = client.handle_packet(nack(NackType::Dropped));
    assert_eq!(actions.len(), 1);
    match &actions[0] {
        Action::Send { neighbour, packet } => {
            assert_eq!(*neighbour, 3);
            assert_eq!(packet.routing_header, RoutingHeader { hop_index: 1, hops: vec![1, 3, 7] });
            assert_eq!(packet.session_id, 0);
        }
        other => panic!("unexpected action {:?}", other),
    }
    // a routing error at 3 takes 3 out
    let actions = client.handle_packet(nack(NackType::ErrorInRouting(3)));
    match &actions[0] {
        Action::Send { neighbour, .. } => assert_eq!(*neighbour, 2),
        other => panic!("unexpected action {:?}", other),
    }
}

#[test]
fn nacks_that_lead_to_no_resend() {
    let mut client = client_with_server();
    assert_eq!(
        client.handle_packet(nack(NackType::DestinationIsDrone)),
        vec![Action::Notify(MediaClientEvent::DestinationIsDrone)]
    );
    assert_eq!(
        client.handle_packet(nack(NackType::UnexpectedRecipient(2))),
        vec![Action::Notify(MediaClientEvent::ErrorPacketCache(0, 0))]
    );
    assert_eq!(
        client.handle_nack(Nack { fragment_index: 4, nack_type: NackType::Dropped }, 9, 2),
        vec![Action::Notify(MediaClientEvent::ErrorPacketCache(9, 4))]
    );
}

#[test]
fn a_refused_packet_is_reported_by_its_kind() {
    let client = client_with_server();
    let fragment = Packet::new_fragment(
        RoutingHeader::with_first_hop(vec![1, 2, 7]),
        0,
        Fragment { fragment_index: 0, total_n_fragments: 1, data: Vec::new() },
    );
    assert_eq!(
        client.send_failed(fragment.clone()),
        Action::Notify(MediaClientEvent::SendError(fragment.clone()))
    );
    let ack = Packet::new_ack(RoutingHeader::with_first_hop(vec![1, 2, 7]), 0, 0);
    assert_eq!(
        client.send_failed(ack.clone()),
        Action::Notify(MediaClientEvent::ControllerShortcut(ack.clone()))
    );
    assert_eq!(
        client.send_controller(MediaClientEvent::DestinationIsDrone),
        Action::Notify(MediaClientEvent::DestinationIsDrone)
    );
    // a fragment whose next hop is no neighbour cannot leave
    let lost = Packet::new_fragment(
        RoutingHeader::with_first_hop(vec![1, 5, 7]),
        0,
        Fragment { fragment_index: 0, total_n_fragments: 1, data: Vec::new() },
    );
    assert_eq!(
        client.send_packet(lost, None),
        Some(Action::Notify(MediaClientEvent::UnreachableNode(5)))
    );
    assert_eq!(client.send_packet(ack.clone(), None), Some(Action::Send { neighbour: 2, packet: ack }));
    // a flood request needs the link it is meant for
    let request = Packet::new_flood_request(
        RoutingHeader::empty_route(),
        0,
        media_client::packet::FloodRequest { flood_id: 0, initiator_id: 1, path_trace: Vec::new() },
    );
    assert_eq!(client.send_packet(request.clone(), None), None);
    assert_eq!(
        client.send_packet(request.clone(), Some(2)),
        Some(Action::Send { neighbour: 2, packet: request })
    );
}

#[test]
fn sets_of_nodes_are_read_in_ascending_order() {
    let mut ids = std::collections::HashSet::new();
    assert!(insert_id(&mut ids, 5));
    assert!(insert_id(&mut ids, 2));
    assert!(insert_id(&mut ids, 255));
    assert!(insert_id(&mut ids, 0));
    assert!(!insert_id(&mut ids, 5));
    assert!(has_id(&ids, 255));
    assert!(!has_id(&ids, 3));
    assert_eq!(sorted_snapshot(&ids), vec![0, 2, 5, 255]);
    assert!(remove_id(&mut ids, 5));
    assert!(!remove_id(&mut ids, 5));
    assert_eq!(sorted_snapshot(&ids), vec![0, 2, 255]);
}

#[test]
fn every_server_is_asked_for_its_type() {
    let mut client = client_with_server();
    // a second server, 9, that no route leads to, and a third, 8, behind 2
    client.handle_packet(Packet::new_flood_response(
        RoutingHeader::with_first_hop(vec![8, 2, 1]),
        0,
        FloodResponse {
            flood_id: 0,
            path_trace: vec![(1, NodeKind::Client), (2, NodeKind::Drone), (8, NodeKind::Server)],
        },
    ));
    client.handle_packet(Packet::new_flood_response(
        RoutingHeader::with_first_hop(vec![9, 7, 2, 1]),
        0,
        FloodResponse {
            flood_id: 0,
            path_trace: vec![(7, NodeKind::Server), (9, NodeKind::Server)],
        },
    ));
    let actions = client.ask_media_server();
    assert_eq!(actions.len(), 2);
    let (_, first_session, first) = message_of(&actions[0]);
    let (_, second_session, second) = message_of(&actions[1]);
    assert_eq!((first_session, second_session), (0, 1));
    assert_eq!(first, Message::new_client_message(0, 1, 7, ClientMessage::GetServerType));
    assert_eq!(second, Message::new_client_message(1, 1, 8, ClientMessage::GetServerType));
    assert_eq!(client.in_flight(), 2);
    assert_eq!(client.get_id(), 1);
}

#[test]
fn a_nack_for_an_unknown_fragment_leaves_the_graph_alone() {
    let mut client = client_with_server();
    // nothing was sent: each of these nacks is reported and nothing more
    assert_eq!(
        client.handle_packet(nack(NackType::ErrorInRouting(2))),
        vec![Action::Notify(MediaClientEvent::ErrorPacketCache(0, 0))]
    );
    assert_eq!(
        client.handle_packet(nack(NackType::Dropped)),
        vec![Action::Notify(MediaClientEvent::ErrorPacketCache(0, 0))]
    );
    // drone 2 is still in the graph, and its links count no drop
    let actions = client.handle_command(MediaClientCommand::AskServerType(7));
    match &actions[0] {
        Action::Send { neighbour, packet } => {
            assert_eq!(*neighbour, 2);
            assert_eq!(packet.routing_header.hops, vec![1, 2, 7]);
        }
        other => panic!("unexpected action {:?}", other),
    }
}

#[test]
fn resending_reports_an_unknown_fragment() {
    let mut client = client_with_server();
    let mut out = Vec::new();
    client.resend_for_nack(3, 4, 2, &mut out);
    assert_eq!(out, vec![Action::Notify(MediaClientEvent::ErrorPacketCache(3, 4))]);
}

#[test]
fn a_file_is_handled_by_what_the_search_found() {
    let file = |content: &str| {
        Message::new_server_message(
            5,
            7,
            1,
            ServerMessage::File {
                file_id: "a".to_string(),
                size: content.len(),
                content: content.to_string(),
            },
        )
    };
    // no answer: the file is a bundle at once, though its text names a media
    let mut client = client_with_server();
    let actions = client.handle_message_with(file("<img src='m1'>"), None);
    assert_eq!(
        actions,
        vec![Action::Notify(MediaClientEvent::CompleteBundle {
            source_id: 7,
            file_id: "a".to_string(),
            content: "<img src='m1'>".to_string(),
            media_content: Vec::new(),
        })]
    );
    assert_eq!(client.in_flight(), 0);
    // an answer: each media it names is asked for; no media server is known,
    // so the request goes to node 0, to which no route leads
    let found = Some(vec![(None, "m1".to_string()), (None, "m2".to_string())]);
    let actions = client.handle_message_with(file("no markup at all"), found);
    assert_eq!(actions, Vec::new());
    // the file waits: its media complete it
    let first = Message::new_server_message(6, 8, 1, ServerMessage::Media("m1".into(), "b1".into()));
    assert_eq!(client.handle_message(first), Vec::new());
    let second = Message::new_server_message(7, 8, 1, ServerMessage::Media("m2".into(), "b2".into()));
    assert_eq!(
        client.handle_message(second),
        vec![Action::Notify(MediaClientEvent::CompleteBundle {
            source_id: 7,
            file_id: "a".to_string(),
            content: "no markup at all".to_string(),
            media_content: vec![
                ("m1".to_string(), "b1".to_string()),
                ("m2".to_string(), "b2".to_string())
            ],
        })]
    );
    // for a message that brings no file the answer is not read
    let kind = Message::new_server_message(8, 8, 1, ServerMessage::ServerType(ServerType::Media));
    let found = Some(vec![(None, "m9".to_string())]);
    assert_eq!(
        client.handle_message_with(kind, found),
        vec![Action::Notify(MediaClientEvent::ReceivedServerType(8, ServerType::Media))]
    );
}
