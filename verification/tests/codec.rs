use media_client::codec::{decode_message, encode_message};
use media_client::message::{ClientMessage, Message, ServerMessage, ServerType};

fn round_trip(message: Message) {
    let bytes = encode_message(&message);
    assert_eq!(decode_message(&bytes), Some(message));
}

#[test]
fn every_kind_of_message_reads_back() {
    round_trip(Message::new_client_message(0, 1, 2, ClientMessage::GetServerType));
    round_trip(Message::new_client_message(1, 1, 2, ClientMessage::GetFilesList));
    round_trip(Message::new_client_message(2, 1, 2, ClientMessage::GetFile("index.html".into())));
    round_trip(Message::new_client_message(u64::MAX, 255, 0, ClientMessage::GetMedia("".into())));
    round_trip(Message::new_server_message(3, 2, 1, ServerMessage::ServerType(ServerType::Chat)));
    round_trip(Message::new_server_message(3, 2, 1, ServerMessage::ServerType(ServerType::Text)));
    round_trip(Message::new_server_message(3, 2, 1, ServerMessage::ServerType(ServerType::Media)));
    round_trip(Message::new_server_message(4, 2, 1, ServerMessage::FilesList(Vec::new())));
    round_trip(Message::new_server_message(
        4,
        2,
        1,
        ServerMessage::FilesList(vec!["a".into(), "".into(), "caf\u{e9} \u{1f600}".into()]),
    ));
    round_trip(Message::new_server_message(
        5,
        2,
        1,
        ServerMessage::File { file_id: "a".into(), size: 12345, content: "<img src='m'>".into() },
    ));
    round_trip(Message::new_server_message(
        6,
        2,
        1,
        ServerMessage::Media("m1".into(), "AAECAw==".into()),
    ));
}

#[test]
fn the_byte_form_is_as_described() {
    let message = Message::new_client_message(0x0102, 3, 4, ClientMessage::GetFile("ab".into()));
    assert_eq!(
        encode_message(&message),
        vec![0, 0, 0, 0, 0, 0, 1, 2, 3, 4, 2, 0, 0, 0, 0, 0, 0, 0, 2, b'a', b'b']
    );
    let reply = Message::new_server_message(1, 3, 4, ServerMessage::ServerType(ServerType::Media));
    assert_eq!(encode_message(&reply), vec![0, 0, 0, 0, 0, 0, 0, 1, 3, 4, 4, 2]);
    let text = Message::new_client_message(0, 0, 0, ClientMessage::GetMedia("\u{e9}".into()));
    assert_eq!(
        encode_message(&text),
        vec![0, 0, 0, 0, 0, 0, 0, 0, 0, 0, 3, 0, 0, 0, 0, 0, 0, 0, 2, 0xc3, 0xa9]
    );
}

#[test]
fn what_is_no_message_is_refused() {
    assert_eq!(decode_message(&Vec::new()), None);
    assert_eq!(decode_message(&vec![0; 10]), None);
    // an unknown kind of content
    assert_eq!(decode_message(&vec![0, 0, 0, 0, 0, 0, 0, 0, 1, 2, 8]), None);
    // bytes after the end
    assert_eq!(decode_message(&vec![0, 0, 0, 0, 0, 0, 0, 0, 1, 2, 0, 0]), None);
    // a text shorter than its length says
    assert_eq!(
        decode_message(&vec![0, 0, 0, 0, 0, 0, 0, 0, 1, 2, 2, 0, 0, 0, 0, 0, 0, 0, 3, b'a', b'b']),
        None
    );
    // a text that is not UTF-8
    assert_eq!(
        decode_message(&vec![0, 0, 0, 0, 0, 0, 0, 0, 1, 2, 2, 0, 0, 0, 0, 0, 0, 0, 1, 0xff]),
        None
    );
    // a server type that does not exist
    assert_eq!(decode_message(&vec![0, 0, 0, 0, 0, 0, 0, 0, 1, 2, 4, 3]), None);
    // a list that promises more texts than there are bytes
    assert_eq!(
        decode_message(&vec![
            0, 0, 0, 0, 0, 0, 0, 0, 1, 2, 5, 255, 255, 255, 255, 255, 255, 255, 255, 0, 0, 0, 0, 0,
            0, 0, 0
        ]),
        None
    );
}
