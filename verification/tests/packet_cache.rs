use media_client::packet::{Fragment, Packet, RoutingHeader};
use media_client::packet_cache::PacketCache;

fn fragment_packet(session: u64, index: u64) -> Packet {
    Packet::new_fragment(
        RoutingHeader::with_first_hop(vec![1, 2, 7]),
        session,
        Fragment { fragment_index: index, total_n_fragments: 3, data: vec![1, 2, 3] },
    )
}

#[test]
fn cache_counts_requests() {
    let mut cache = PacketCache::new();
    cache.insert_packet(&fragment_packet(4, 1));
    let (packet, count) = cache.get_value((4, 1)).unwrap();
    assert_eq!(packet, fragment_packet(4, 1));
    assert_eq!(count, 1);
    let (_, count) = cache.get_value((4, 1)).unwrap();
    assert_eq!(count, 2);
    assert!(cache.get_value((4, 2)).is_none());
}

#[test]
fn only_fragments_are_cached() {
    let mut cache = PacketCache::new();
    cache.insert_packet(&Packet::new_ack(RoutingHeader::with_first_hop(vec![1, 2]), 4, 1));
    cache.insert(&Packet::new_ack(RoutingHeader::with_first_hop(vec![1, 2]), 4, 1));
    cache.insert_value(&(Packet::new_ack(RoutingHeader::with_first_hop(vec![1, 2]), 4, 1), 3));
    assert_eq!(cache.len(), 0);
    assert_eq!(cache.get_packet((4, 1)), None);
}

#[test]
fn an_entry_lives_until_it_is_taken() {
    let mut cache = PacketCache::new();
    cache.insert(&fragment_packet(4, 1));
    cache.insert(&fragment_packet(4, 2));
    cache.insert(&fragment_packet(5, 1));
    assert_eq!(cache.len(), 3);
    assert_eq!(cache.get(4, 2), Some(fragment_packet(4, 2)));
    assert_eq!(cache.get_packet((4, 2)), Some(fragment_packet(4, 2)));
    assert_eq!(cache.get_value((4, 2)), Some((fragment_packet(4, 2), 3)));
    assert_eq!(cache.take(4, 2), Some(fragment_packet(4, 2)));
    assert_eq!(cache.take(4, 2), None);
    assert!(cache.remove(5, 1));
    assert!(!cache.remove(5, 1));
    assert_eq!(cache.take_packet((4, 1)), Some(fragment_packet(4, 1)));
    assert_eq!(cache.len(), 0);
}

#[test]
fn inserting_again_starts_the_count_anew() {
    let mut cache = PacketCache::new();
    cache.insert_value(&(fragment_packet(4, 1), u64::MAX - 1));
    assert_eq!(cache.get_value((4, 1)), Some((fragment_packet(4, 1), u64::MAX)));
    // the count stays at its largest value
    assert_eq!(cache.get_value((4, 1)), Some((fragment_packet(4, 1), u64::MAX)));
    cache.insert_packet(&fragment_packet(4, 1));
    assert_eq!(cache.get_value((4, 1)), Some((fragment_packet(4, 1), 1)));
    assert_eq!(cache.len(), 1);
}

#[test]
fn looking_counts_no_request() {
    let mut cache = PacketCache::new();
    assert!(!cache.contains_key((4, 1)));
    cache.insert_packet(&fragment_packet(4, 1));
    assert!(cache.contains_key((4, 1)));
    assert!(!cache.contains_key((4, 2)));
    assert_eq!(cache.get_value((4, 1)), Some((fragment_packet(4, 1), 1)));
}
