use media_client::assembler::{fragment_bytes, Assembler, FRAGMENT_SIZE};
use media_client::message::{ClientMessage, Message, MessageContent, ServerMessage};
use media_client::packet::Fragment;

fn bytes(n: usize) -> Vec<u8> {
    (0..n).map(|i| (i % 251) as u8).collect()
}

#[test]
fn fragment_counts() {
    assert_eq!(FRAGMENT_SIZE, 128);
    assert_eq!(fragment_bytes(&bytes(0)).len(), 1);
    assert_eq!(fragment_bytes(&bytes(1)).len(), 1);
    assert_eq!(fragment_bytes(&bytes(128)).len(), 1);
    assert_eq!(fragment_bytes(&bytes(129)).len(), 2);
    assert_eq!(fragment_bytes(&bytes(256)).len(), 2);
    assert_eq!(fragment_bytes(&bytes(257)).len(), 3);
}

#[test]
fn fragments_carry_index_total_and_their_slice() {
    let message = bytes(300);
    let fragments = fragment_bytes(&message);
    assert_eq!(fragments.len(), 3);
    assert_eq!(
        fragments[0],
        Fragment { fragment_index: 0, total_n_fragments: 3, data: message[..128].to_vec() }
    );
    assert_eq!(
        fragments[1],
        Fragment { fragment_index: 1, total_n_fragments: 3, data: message[128..256].to_vec() }
    );
    assert_eq!(
        fragments[2],
        Fragment { fragment_index: 2, total_n_fragments: 3, data: message[256..].to_vec() }
    );
    let empty = fragment_bytes(&Vec::new());
    assert_eq!(empty[0], Fragment { fragment_index: 0, total_n_fragments: 1, data: Vec::new() });
}

#[test]
fn reassembly_in_order() {
    let message = bytes(300);
    let mut assembler = Assembler::new();
    let fragments = fragment_bytes(&message);
    assert_eq!(assembler.reassemble(fragments[0].clone(), 1, 9), None);
    assert_eq!(assembler.reassemble(fragments[1].clone(), 1, 9), None);
    assert_eq!(assembler.reassemble(fragments[2].clone(), 1, 9), Some(message));
}

#[test]
fn reassembly_out_of_order_with_duplicates() {
    let message = bytes(500);
    let mut assembler = Assembler::new();
    let fragments = fragment_bytes(&message);
    assert_eq!(fragments.len(), 4);
    assert_eq!(assembler.reassemble(fragments[3].clone(), 1, 9), None);
    assert_eq!(assembler.reassemble(fragments[1].clone(), 1, 9), None);
    assert_eq!(assembler.reassemble(fragments[3].clone(), 1, 9), None);
    assert_eq!(assembler.reassemble(fragments[0].clone(), 1, 9), None);
    assert_eq!(assembler.reassemble(fragments[1].clone(), 1, 9), None);
    assert_eq!(assembler.reassemble(fragments[2].clone(), 1, 9), Some(message));
    // the message is handed out once
    assert_eq!(assembler.reassemble(fragments[2].clone(), 1, 9), None);
    assert_eq!(assembler.reassemble(fragments[0].clone(), 1, 9), None);
}

#[test]
fn sessions_are_kept_apart_by_session_and_source() {
    let first = bytes(200);
    let second: Vec<u8> = bytes(200).into_iter().rev().collect();
    let mut assembler = Assembler::new();
    let a = fragment_bytes(&first);
    let b = fragment_bytes(&second);
    assert_eq!(assembler.reassemble(a[0].clone(), 1, 9), None);
    assert_eq!(assembler.reassemble(b[0].clone(), 1, 8), None);
    assert_eq!(assembler.reassemble(b[1].clone(), 2, 9), None);
    assert_eq!(assembler.reassemble(a[1].clone(), 1, 9), Some(first));
    assert_eq!(assembler.reassemble(b[1].clone(), 1, 8), Some(second));
}

#[test]
fn malformed_fragments_are_dropped() {
    let mut assembler = Assembler::new();
    let bad_index = Fragment { fragment_index: 2, total_n_fragments: 2, data: vec![1] };
    assert_eq!(assembler.reassemble(bad_index, 1, 9), None);
    let no_total = Fragment { fragment_index: 0, total_n_fragments: 0, data: vec![1] };
    assert_eq!(assembler.reassemble(no_total, 1, 9), None);
    let first = Fragment { fragment_index: 0, total_n_fragments: 2, data: vec![1] };
    assert_eq!(assembler.reassemble(first, 1, 9), None);
    // another total for the same session is not accepted
    let other_total = Fragment { fragment_index: 1, total_n_fragments: 3, data: vec![2] };
    assert_eq!(assembler.reassemble(other_total, 1, 9), None);
    // a repeated index keeps the first data
    let repeat = Fragment { fragment_index: 0, total_n_fragments: 2, data: vec![7] };
    assert_eq!(assembler.reassemble(repeat, 1, 9), None);
    let last = Fragment { fragment_index: 1, total_n_fragments: 2, data: vec![2] };
    assert_eq!(assembler.reassemble(last, 1, 9), Some(vec![1, 2]));
}

#[test]
fn a_huge_total_costs_nothing() {
    let mut assembler = Assembler::new();
    let far = Fragment { fragment_index: u64::MAX - 1, total_n_fragments: u64::MAX, data: vec![1] };
    assert_eq!(assembler.reassemble(far, 1, 9), None);
}

#[test]
fn messages_survive_fragmentation() {
    let content = "x".repeat(1000);
    let message = Message::new_server_message(
        4,
        7,
        1,
        ServerMessage::File { file_id: "a".to_string(), size: 1000, content },
    );
    let mut assembler = Assembler::new();
    let fragments = assembler.fragment_message(&message);
    assert!(fragments.len() > 1);
    let mut result = None;
    for fragment in fragments.into_iter().rev() {
        assert_eq!(result, None);
        result = assembler.process_fragment(fragment, 4, 7);
    }
    assert_eq!(result, Some(message));
}

#[test]
fn a_small_message_is_one_fragment() {
    let message = Message::new_client_message(0, 1, 7, ClientMessage::GetFilesList);
    let assembler = Assembler::new();
    let fragments = assembler.fragment_message(&message);
    assert_eq!(fragments.len(), 1);
    assert_eq!(fragments[0].fragment_index, 0);
    assert_eq!(fragments[0].total_n_fragments, 1);
    assert_eq!(fragments[0].data, vec![0, 0, 0, 0, 0, 0, 0, 0, 1, 7, 1]);
}

#[test]
fn bytes_that_are_no_message_are_dropped() {
    let mut assembler = Assembler::new();
    let junk = Fragment { fragment_index: 0, total_n_fragments: 1, data: vec![1, 2, 3] };
    assert_eq!(assembler.process_fragment(junk, 1, 9), None);
    // the session is finished all the same
    let again = Fragment { fragment_index: 0, total_n_fragments: 1, data: vec![0; 11] };
    assert_eq!(assembler.process_fragment(again, 1, 9), None);
    let content = MessageContent::FromClient(ClientMessage::GetServerType);
    let good = Message { session_id: 0, source_id: 0, destination_id: 0, content };
    let fresh = Fragment { fragment_index: 0, total_n_fragments: 1, data: vec![0; 11] };
    assert_eq!(assembler.process_fragment(fresh, 2, 9), Some(good));
}
