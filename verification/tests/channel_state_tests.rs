use udpnet::packet::Packet;
use udpnet::peerdata::{has_elapsed, ChannelState, PeerData, PEER_TIMEOUT_MS, RECEIVED_MEMORY_MS};
use udpnet::stored::{StoredPacket, StoredPacketIdentifier, StoredPackets, RESEND_AFTER_MS};

fn packet_with(b: u8) -> Packet {
    let mut p = Packet::new();
    p.push_bytes(&[b]);
    p
}

#[test]
fn reliable_packet_is_delivered_once() {
    let mut ch = ChannelState::new();
    assert!(ch.receive_reliable(4, 10));
    assert!(!ch.receive_reliable(4, 20));
    assert!(ch.receive_reliable(3, 30));
    assert_eq!(ch.packets_already_received.get(&4), Some(&10));
}

#[test]
fn sequenced_packets_come_out_in_order() {
    let mut ch = ChannelState::new();
    let out = ch.receive_sequenced(2, packet_with(2), 0);
    assert!(out.is_empty());
    let out = ch.receive_sequenced(1, packet_with(1), 0);
    assert!(out.is_empty());
    assert_eq!(ch.receive_packet_count, 0);
    let out = ch.receive_sequenced(0, packet_with(0), 0);
    let bytes: Vec<u8> = out.iter().map(|p| p.slice()[0]).collect();
    assert_eq!(bytes, vec![0, 1, 2]);
    assert_eq!(ch.receive_packet_count, 3);
    assert!(ch.stored_sequenced_packets.is_empty());
}

#[test]
fn sequenced_duplicate_is_ignored() {
    let mut ch = ChannelState::new();
    assert_eq!(ch.receive_sequenced(0, packet_with(0), 0).len(), 1);
    assert_eq!(ch.receive_sequenced(0, packet_with(0), 1).len(), 0);
    assert_eq!(ch.receive_packet_count, 1);
    assert_eq!(ch.receive_sequenced(5, packet_with(5), 2).len(), 0);
    assert_eq!(ch.receive_sequenced(5, packet_with(5), 3).len(), 0);
    assert_eq!(ch.stored_sequenced_packets.len(), 1);
}

#[test]
fn droppable_delivers_only_newer_or_zero() {
    let mut ch = ChannelState::new();
    assert!(ch.receive_droppable(3));
    assert!(!ch.receive_droppable(2));
    assert!(!ch.receive_droppable(3));
    assert!(ch.receive_droppable(7));
    assert!(ch.receive_droppable(0));
    assert_eq!(ch.receive_packet_count, 0);
    assert!(ch.receive_droppable(1));
}

#[test]
fn send_ids_count_up() {
    let mut ch = ChannelState::new();
    assert_eq!(ch.take_send_id(), 0);
    assert_eq!(ch.take_send_id(), 1);
    ch.send_packet_count = u128::MAX;
    assert_eq!(ch.take_send_id(), u128::MAX);
    assert_eq!(ch.send_packet_count, 0);
}

#[test]
fn received_ids_are_forgotten_after_the_window() {
    let mut ch = ChannelState::new();
    ch.receive_reliable(1, 1000);
    ch.receive_reliable(2, 3000);
    ch.prune_received(1000 + RECEIVED_MEMORY_MS - 1);
    assert_eq!(ch.packets_already_received.len(), 2);
    ch.prune_received(1000 + RECEIVED_MEMORY_MS);
    assert_eq!(ch.packets_already_received.len(), 1);
    assert!(ch.packets_already_received.contains_key(&2));
    ch.prune_received(0);
    assert_eq!(ch.packets_already_received.len(), 1);
    assert!(ch.receive_reliable(1, 7000));
}

#[test]
fn elapsed_time_checks() {
    assert!(has_elapsed(100, 600, 500));
    assert!(!has_elapsed(100, 599, 500));
    assert!(!has_elapsed(600, 100, 0));
}

#[test]
fn peer_data_times_out() {
    let mut pd = PeerData::new_at(1000);
    assert_eq!(pd.channels.len(), 32);
    assert!(!pd.has_timed_out_at(1000 + PEER_TIMEOUT_MS - 1));
    assert!(pd.has_timed_out_at(1000 + PEER_TIMEOUT_MS));
    pd.update_timeout_at(9000);
    assert!(!pd.has_timed_out_at(9000));
    assert_eq!(pd.get_receive_channel_count(5), 0);
    pd.channels[5].receive_droppable(9);
    assert_eq!(pd.get_receive_channel_count(5), 9);
    pd.channels[3].receive_reliable(1, 0);
    pd.prune_received(RECEIVED_MEMORY_MS);
    assert!(pd.channels[3].packets_already_received.is_empty());
}

#[test]
fn clock_based_timers_start_fresh() {
    let mut pd = PeerData::new();
    assert!(!pd.has_timed_out());
    pd.update_timeout();
    assert!(!pd.has_timed_out());
    let mut sp = StoredPacket::new(&packet_with(1));
    assert!(!sp.has_timed_out());
    sp.update_timeout();
    assert!(!sp.has_timed_out());
    assert_eq!(sp.packet.slice(), &[1]);
}

#[test]
fn stored_packets_resend_after_their_wait() {
    let mut st = StoredPackets::new();
    st.insert(StoredPacketIdentifier::new(String::from("a"), 1, 0), StoredPacket::new_at(&packet_with(10), 0));
    st.insert(StoredPacketIdentifier::new(String::from("b"), 1, 0), StoredPacket::new_at(&packet_with(20), 100));
    let out = st.resend_due(RESEND_AFTER_MS - 1);
    assert!(out.is_empty());
    let out = st.resend_due(RESEND_AFTER_MS);
    assert_eq!(out.len(), 1);
    assert_eq!(out[0].peer, "a");
    assert_eq!(out[0].bytes, vec![10]);
    let out = st.resend_due(RESEND_AFTER_MS + 100);
    assert_eq!(out.len(), 1);
    assert_eq!(out[0].peer, "b");
    let out = st.resend_due(2 * RESEND_AFTER_MS);
    assert_eq!(out.len(), 1);
    assert_eq!(out[0].peer, "a");
}

#[test]
fn stored_packets_replace_remove_and_forget_peers() {
    let mut st = StoredPackets::new();
    let a0 = StoredPacketIdentifier::new(String::from("a"), 1, 0);
    st.insert(a0.clone(), StoredPacket::new_at(&packet_with(1), 0));
    st.insert(a0.clone(), StoredPacket::new_at(&packet_with(2), 0));
    st.insert(StoredPacketIdentifier::new(String::from("a"), 2, 0), StoredPacket::new_at(&packet_with(3), 0));
    st.insert(StoredPacketIdentifier::new(String::from("b"), 1, 0), StoredPacket::new_at(&packet_with(4), 0));
    let out = st.resend_due(1000);
    let got: Vec<(String, u8)> = out.iter().map(|d| (d.peer.clone(), d.bytes[0])).collect();
    assert_eq!(got, vec![(String::from("a"), 2), (String::from("a"), 3), (String::from("b"), 4)]);
    st.remove(&a0);
    let out = st.resend_due(2000);
    assert_eq!(out.len(), 2);
    st.remove_peer(&String::from("a"));
    let out = st.resend_due(3000);
    assert_eq!(out.len(), 1);
    assert_eq!(out[0].peer, "b");
    assert!(a0.same_as(&StoredPacketIdentifier::new(String::from("a"), 1, 0)));
    assert!(!a0.same_as(&StoredPacketIdentifier::new(String::from("a"), 1, 1)));
}
