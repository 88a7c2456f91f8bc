use udpnet::channel::ChannelType;
use udpnet::client::{Client, ClientEvent, PING_INTERVAL_MS};
use udpnet::packet::{Packet, PacketHeader, PacketType, INTERNAL_CHANNEL, PACKET_HEADER_SIZE};
use udpnet::server::{Server, ServerEvent};

fn datagram(payload: &[u8], t: PacketType, channel: u8, id: u128) -> Vec<u8> {
    let mut p = Packet::new();
    p.push_bytes(payload);
    p.push::<PacketHeader>(&PacketHeader::new(t, channel, id));
    p.to_bytes()
}

fn header_of(bytes: &[u8]) -> PacketHeader {
    let mut p = Packet::new();
    p.push_bytes(bytes);
    p.set_read_position(bytes.len() - PACKET_HEADER_SIZE);
    p.read::<PacketHeader>()
}

fn events(c: &mut Client) -> Vec<String> {
    let mut v = Vec::new();
    while let Some(e) = c.get_event() {
        v.push(match e {
            ClientEvent::Connect => String::from("connect"),
            ClientEvent::ConnectionDenied => String::from("denied"),
            ClientEvent::Disconnect => String::from("disconnect"),
            ClientEvent::Timeout => String::from("timeout"),
            ClientEvent::Reconnecting => String::from("reconnecting"),
            ClientEvent::Data(p) => format!("data {:?}", &p.slice()[..p.len() - PACKET_HEADER_SIZE]),
            ClientEvent::Ping => String::from("ping"),
        });
    }
    v
}

fn connected_client(reliable: u32, sequence: u32) -> Client {
    let (mut c, _) = Client::new(String::from("server"), 0);
    let mut answer = vec![1u8];
    answer.extend_from_slice(&reliable.to_le_bytes());
    answer.extend_from_slice(&sequence.to_le_bytes());
    let d = datagram(&answer, PacketType::Connect, INTERNAL_CHANNEL, 0);
    c.handle_datagram(&d, 0);
    c.handle_datagram(&datagram(&[], PacketType::Receipt, INTERNAL_CHANNEL, 0), 0);
    events(&mut c);
    c
}

#[test]
fn connect_request_is_a_connect_header() {
    let (mut c, out) = Client::new(String::from("server"), 0);
    assert!(!c.is_connected());
    assert_eq!(out.len(), 1);
    assert_eq!(out[0].len(), PACKET_HEADER_SIZE);
    assert_eq!(header_of(&out[0]), PacketHeader::new(PacketType::Connect, INTERNAL_CHANNEL, 0));
    let out = c.connect(0);
    assert_eq!(header_of(&out[0]).packet_id, 1);
    let (resent, reconnect) = c.internal_update(500);
    assert!(!reconnect);
    assert_eq!(resent.len(), 2);
}

#[test]
fn accepted_answer_connects_with_the_servers_channels() {
    let (mut c, _) = Client::new(String::from("server"), 0);
    let mut answer = vec![1u8];
    answer.extend_from_slice(&0b11u32.to_le_bytes());
    answer.extend_from_slice(&0b10u32.to_le_bytes());
    let (out, reconnect) = c.handle_datagram(&datagram(&answer, PacketType::Connect, INTERNAL_CHANNEL, 9), 5);
    assert!(!reconnect);
    assert_eq!(out.len(), 1);
    assert_eq!(header_of(&out[0]), PacketHeader::new(PacketType::Receipt, INTERNAL_CHANNEL, 9));
    assert!(c.is_connected());
    assert_eq!(c.get_channel_type(0), ChannelType::Reliable);
    assert_eq!(c.get_channel_type(1), ChannelType::Sequenced);
    assert_eq!(c.get_channel_type(2), ChannelType::Nonreliable);
    assert_eq!(events(&mut c), vec!["connect"]);
    c.handle_datagram(&datagram(&answer, PacketType::Connect, INTERNAL_CHANNEL, 9), 5);
    assert!(events(&mut c).is_empty());
}

#[test]
fn refused_answer_is_reported() {
    let (mut c, _) = Client::new(String::from("server"), 0);
    let answer = [0u8; 9];
    let (out, _) = c.handle_datagram(&datagram(&answer, PacketType::Connect, INTERNAL_CHANNEL, 0), 0);
    assert_eq!(out.len(), 1);
    assert!(!c.is_connected());
    assert_eq!(events(&mut c), vec!["denied"]);
}

#[test]
fn send_only_when_connected() {
    let (mut c, _) = Client::new(String::from("server"), 0);
    let mut p = Packet::new();
    p.push::<u8>(&1);
    assert!(c.send(0, p.clone(), 0).is_empty());
    let mut c = connected_client(1, 0);
    let out = c.send(0, p.clone(), 10);
    assert_eq!(out.len(), 1);
    assert_eq!(out[0][0], 1);
    assert_eq!(header_of(&out[0]), PacketHeader::new(PacketType::Data, 0, 0));
    let out = c.send(0, p.clone(), 10);
    assert_eq!(header_of(&out[0]).packet_id, 1);
    let (resent, _) = c.internal_update(510);
    let data: Vec<&Vec<u8>> = resent.iter().filter(|b| header_of(b).packet_type == PacketType::Data).collect();
    assert_eq!(data.len(), 2);
    c.handle_datagram(&datagram(&[], PacketType::Receipt, 0, 0), 520);
    let (resent, _) = c.internal_update(1020);
    let data: Vec<&Vec<u8>> = resent.iter().filter(|b| header_of(b).packet_type == PacketType::Data).collect();
    assert_eq!(data.len(), 1);
}

#[test]
fn client_data_follows_channel_guarantees() {
    let mut c = connected_client(0b101, 0b1100);
    let out = c.handle_datagram(&datagram(&[1], PacketType::Data, 0, 0), 1).0;
    assert_eq!(header_of(&out[0]), PacketHeader::new(PacketType::Receipt, 0, 0));
    c.handle_datagram(&datagram(&[1], PacketType::Data, 0, 0), 1);
    assert_eq!(events(&mut c), vec!["data [1]"]);
    c.handle_datagram(&datagram(&[21], PacketType::Data, 2, 1), 1);
    c.handle_datagram(&datagram(&[20], PacketType::Data, 2, 0), 1);
    assert_eq!(events(&mut c), vec!["data [20]", "data [21]"]);
    c.handle_datagram(&datagram(&[31], PacketType::Data, 3, 2), 1);
    c.handle_datagram(&datagram(&[30], PacketType::Data, 3, 1), 1);
    c.handle_datagram(&datagram(&[32], PacketType::Data, 3, 0), 1);
    assert_eq!(events(&mut c), vec!["data [31]", "data [32]"]);
    c.handle_datagram(&datagram(&[4], PacketType::Data, 4, 0), 1);
    c.handle_datagram(&datagram(&[4], PacketType::Data, 4, 0), 1);
    assert_eq!(events(&mut c), vec!["data [4]", "data [4]"]);
}

#[test]
fn disconnect_asks_to_reconnect() {
    let mut c = connected_client(0, 0);
    let (out, reconnect) = c.handle_datagram(&datagram(&[], PacketType::Disconnect, INTERNAL_CHANNEL, 0), 1);
    assert!(out.is_empty());
    assert!(reconnect);
    assert!(!c.is_connected());
    assert_eq!(events(&mut c), vec!["disconnect"]);
    let (_, reconnect) = c.handle_datagram(&datagram(&[], PacketType::Disconnect, INTERNAL_CHANNEL, 0), 1);
    assert!(!reconnect);
}

#[test]
fn reconnect_starts_over() {
    let mut c = connected_client(0b1, 0);
    c.handle_datagram(&datagram(&[], PacketType::Disconnect, INTERNAL_CHANNEL, 0), 1);
    let out = c.reconnect(2);
    assert_eq!(out.len(), 1);
    assert_eq!(header_of(&out[0]), PacketHeader::new(PacketType::Connect, INTERNAL_CHANNEL, 0));
    assert!(!c.is_connected());
    assert_eq!(c.get_channel_type(0), ChannelType::Nonreliable);
    assert_eq!(events(&mut c), vec!["reconnecting"]);
}

#[test]
fn pings_once_a_second_and_times_out() {
    let mut c = connected_client(0, 0);
    let (out, reconnect) = c.internal_update(PING_INTERVAL_MS - 1);
    assert!(!reconnect);
    assert!(out.is_empty());
    let (out, _) = c.internal_update(PING_INTERVAL_MS);
    assert_eq!(out.len(), 1);
    assert_eq!(header_of(&out[0]), PacketHeader::new(PacketType::Ping, INTERNAL_CHANNEL, 0));
    let (out, _) = c.internal_update(PING_INTERVAL_MS + 10);
    assert!(out.is_empty());
    c.handle_datagram(&datagram(&[], PacketType::Ping, INTERNAL_CHANNEL, 0), 3000);
    assert_eq!(events(&mut c), vec!["ping"]);
    let (_, reconnect) = c.internal_update(7999);
    assert!(!reconnect);
    let (_, reconnect) = c.internal_update(8000);
    assert!(reconnect);
    assert!(!c.is_connected());
    assert_eq!(events(&mut c), vec!["timeout"]);
}

#[test]
fn client_and_server_shake_hands() {
    let mut s = Server::new(4);
    s.setup_channel(0, ChannelType::Reliable);
    s.setup_channel(1, ChannelType::Sequenced);
    let server_addr = String::from("server");
    let client_addr = String::from("client");
    let (mut c, first) = Client::new(server_addr.clone(), 0);
    for d in first {
        for reply in s.handle_datagram(&d, &client_addr, 0) {
            assert_eq!(reply.peer, client_addr);
            for back in c.handle_datagram(&reply.bytes, 0).0 {
                assert!(s.accepts_datagram(&back, &client_addr));
                s.handle_datagram(&back, &client_addr, 0);
            }
        }
    }
    assert!(c.is_connected());
    assert_eq!(c.get_channel_type(0), ChannelType::Reliable);
    assert_eq!(c.get_channel_type(1), ChannelType::Sequenced);
    let mut p = Packet::new();
    p.push::<u32>(&77);
    let sent = c.send(1, p, 5);
    assert!(Client::accepts_datagram(&sent[0]));
    s.handle_datagram(&sent[0], &client_addr, 5);
    let mut seen = false;
    while let Some(e) = s.get_event() {
        if let ServerEvent::Data(mut packet, from) = e {
            assert_eq!(from, client_addr);
            assert_eq!(packet.read::<u32>(), 77);
            seen = true;
        }
    }
    assert!(seen);
    assert!(s.internal_update(1000).is_empty());
}

#[test]
fn new_client_asks_to_connect_once() {
    let (mut c, out) = Client::new(String::from("server"), 7);
    assert_eq!(out.len(), 1);
    assert_eq!(out[0], {
        let mut p = Packet::new();
        p.push::<PacketHeader>(&PacketHeader::new(PacketType::Connect, INTERNAL_CHANNEL, 0));
        p.to_bytes()
    });
    assert!(c.get_event().is_none());
    let (resent, reconnect) = c.internal_update(7 + 500);
    assert!(!reconnect);
    assert_eq!(resent, out);
    c.handle_datagram(&datagram(&[], PacketType::Receipt, INTERNAL_CHANNEL, 0), 600);
    let (resent, _) = c.internal_update(1200);
    assert!(resent.is_empty());
}

#[test]
fn client_reliable_copies_are_delivered_once() {
    let mut c = connected_client(1, 0);
    let d = datagram(&[4], PacketType::Data, 0, 8);
    for t in 0..3u64 {
        let (out, reconnect) = c.handle_datagram(&d, 10 + t);
        assert!(!reconnect);
        assert_eq!(out.len(), 1);
        assert_eq!(header_of(&out[0]), PacketHeader::new(PacketType::Receipt, 0, 8));
    }
    assert_eq!(events(&mut c), vec!["data [4]"]);
}

#[test]
fn client_sequenced_packets_come_out_by_header_id() {
    let mut c = connected_client(1, 1);
    for id in [2u128, 1] {
        c.handle_datagram(&datagram(&[id as u8], PacketType::Data, 0, id), 10);
        assert!(events(&mut c).is_empty());
    }
    let (out, _) = c.handle_datagram(&datagram(&[0], PacketType::Data, 0, 0), 11);
    assert_eq!(header_of(&out[0]), PacketHeader::new(PacketType::Receipt, 0, 0));
    assert_eq!(events(&mut c), vec!["data [0]", "data [1]", "data [2]"]);
    let (out, _) = c.handle_datagram(&datagram(&[1], PacketType::Data, 0, 1), 12);
    assert_eq!(header_of(&out[0]), PacketHeader::new(PacketType::Receipt, 0, 1));
    assert!(events(&mut c).is_empty());
    c.handle_datagram(&datagram(&[3], PacketType::Data, 0, 3), 13);
    assert_eq!(events(&mut c), vec!["data [3]"]);
}
