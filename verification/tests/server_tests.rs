use udpnet::channel::ChannelType;
use udpnet::packet::{Packet, PacketHeader, PacketType, INTERNAL_CHANNEL, PACKET_HEADER_SIZE};
use udpnet::server::{Server, ServerEvent};
use udpnet::stored::Datagram;

fn datagram(payload: &[u8], t: PacketType, channel: u8, id: u128) -> Vec<u8> {
    let mut p = Packet::new();
    p.push_bytes(payload);
    p.push::<PacketHeader>(&PacketHeader::new(t, channel, id));
    p.to_bytes()
}

fn header_of(bytes: &[u8]) -> PacketHeader {
    let mut p = Packet::new();
    p.push_bytes(bytes);
    p.set_read_position(bytes.len() - PACKET_HEADER_SIZE);
    p.read::<PacketHeader>()
}

fn connect(server: &mut Server, addr: &str, now: u64) -> Vec<Datagram> {
    server.handle_datagram(&datagram(&[], PacketType::Connect, INTERNAL_CHANNEL, 0), &String::from(addr), now)
}

fn events(server: &mut Server) -> Vec<String> {
    let mut v = Vec::new();
    while let Some(e) = server.get_event() {
        v.push(match e {
            ServerEvent::Connect(a) => format!("connect {}", a),
            ServerEvent::Disconnect(a) => format!("disconnect {}", a),
            ServerEvent::Timeout(a) => format!("timeout {}", a),
            ServerEvent::Data(p, a) => format!("data {} {:?}", a, &p.slice()[..p.len() - PACKET_HEADER_SIZE]),
            ServerEvent::ServerFull(a) => format!("full {}", a),
            ServerEvent::Ping(a) => format!("ping {}", a),
        });
    }
    v
}

#[test]
fn short_datagrams_are_ignored() {
    let mut s = Server::new(2);
    let out = s.handle_datagram(&[0u8; 17], &String::from("a"), 0);
    assert!(out.is_empty());
    assert!(s.get_event().is_none());
}

#[test]
fn connect_is_accepted_answered_and_acknowledged() {
    let mut s = Server::new(2);
    s.setup_channel(0, ChannelType::Reliable);
    s.setup_channel(2, ChannelType::Sequenced);
    let out = connect(&mut s, "a", 0);
    assert_eq!(out.len(), 2);
    assert_eq!(out[0].peer, "a");
    let status = &out[0].bytes;
    assert_eq!(status.len(), 9 + PACKET_HEADER_SIZE);
    assert_eq!(status[0], 1);
    assert_eq!(&status[1..5], &0b101u32.to_le_bytes());
    assert_eq!(&status[5..9], &0b100u32.to_le_bytes());
    let h = header_of(status);
    assert_eq!(h, PacketHeader::new(PacketType::Connect, INTERNAL_CHANNEL, 0));
    assert_eq!(header_of(&out[1].bytes), PacketHeader::new(PacketType::Receipt, INTERNAL_CHANNEL, 0));
    assert_eq!(out[1].bytes.len(), PACKET_HEADER_SIZE);
    assert!(s.is_connected(&String::from("a")));
    assert_eq!(events(&mut s), vec!["connect a"]);
    let again = connect(&mut s, "a", 1);
    assert_eq!(again.len(), 1);
    assert!(events(&mut s).is_empty());
}

#[test]
fn full_server_refuses() {
    let mut s = Server::new(1);
    connect(&mut s, "a", 0);
    let out = connect(&mut s, "b", 0);
    assert_eq!(out.len(), 2);
    assert_eq!(out[0].bytes[0], 0);
    assert_eq!(header_of(&out[0].bytes).packet_id, 1);
    assert!(!s.is_connected(&String::from("b")));
    assert_eq!(events(&mut s), vec!["connect a", "full b"]);
}

#[test]
fn connection_answer_is_resent_until_acknowledged() {
    let mut s = Server::new(1);
    connect(&mut s, "a", 0);
    assert!(s.internal_update(499).is_empty());
    let out = s.internal_update(500);
    assert_eq!(out.len(), 1);
    assert_eq!(header_of(&out[0].bytes).packet_type, PacketType::Connect);
    let receipt = datagram(&[], PacketType::Receipt, INTERNAL_CHANNEL, 0);
    assert!(s.handle_datagram(&receipt, &String::from("a"), 600).is_empty());
    assert!(s.internal_update(2000).is_empty());
}

#[test]
fn disconnect_drops_the_client() {
    let mut s = Server::new(1);
    connect(&mut s, "a", 0);
    let out = s.handle_datagram(&datagram(&[], PacketType::Disconnect, INTERNAL_CHANNEL, 3), &String::from("a"), 1);
    assert_eq!(out.len(), 1);
    assert_eq!(header_of(&out[0].bytes), PacketHeader::new(PacketType::Receipt, INTERNAL_CHANNEL, 3));
    assert!(!s.is_connected(&String::from("a")));
    assert_eq!(events(&mut s), vec!["connect a", "disconnect a"]);
    let out = s.handle_datagram(&datagram(&[], PacketType::Disconnect, INTERNAL_CHANNEL, 4), &String::from("a"), 1);
    assert_eq!(out.len(), 1);
    assert!(events(&mut s).is_empty());
}

#[test]
fn ping_is_answered_and_keeps_the_client() {
    let mut s = Server::new(1);
    connect(&mut s, "a", 0);
    events(&mut s);
    let out = s.handle_datagram(&datagram(&[], PacketType::Ping, INTERNAL_CHANNEL, 0), &String::from("a"), 4000);
    assert_eq!(out.len(), 1);
    assert_eq!(header_of(&out[0].bytes), PacketHeader::new(PacketType::Ping, INTERNAL_CHANNEL, 0));
    assert_eq!(events(&mut s), vec!["ping a"]);
    s.handle_datagram(&datagram(&[], PacketType::Receipt, INTERNAL_CHANNEL, 0), &String::from("a"), 4000);
    s.internal_update(8999);
    assert!(s.is_connected(&String::from("a")));
    s.internal_update(9000);
    assert!(!s.is_connected(&String::from("a")));
    assert_eq!(events(&mut s), vec!["timeout a"]);
    let out = s.handle_datagram(&datagram(&[], PacketType::Ping, INTERNAL_CHANNEL, 0), &String::from("a"), 9001);
    assert!(out.is_empty());
}

#[test]
fn timeout_forgets_the_clients_stored_packets() {
    let mut s = Server::new(2);
    connect(&mut s, "a", 0);
    connect(&mut s, "b", 4000);
    let out = s.internal_update(5000);
    let peers: Vec<String> = out.iter().map(|d| d.peer.clone()).collect();
    assert_eq!(peers, vec![String::from("b")]);
    assert!(s.is_connected(&String::from("b")));
    assert_eq!(events(&mut s), vec!["connect a", "connect b", "timeout a"]);
}

#[test]
fn data_from_strangers_is_ignored() {
    let mut s = Server::new(1);
    let out = s.handle_datagram(&datagram(&[1, 2], PacketType::Data, 0, 0), &String::from("x"), 0);
    assert!(out.is_empty());
    assert!(events(&mut s).is_empty());
}

#[test]
fn data_on_each_kind_of_channel() {
    let mut s = Server::new(1);
    s.setup_channel(0, ChannelType::Reliable);
    s.setup_channel(1, ChannelType::Nonreliable);
    s.setup_channel(2, ChannelType::Sequenced);
    s.setup_channel(3, ChannelType::NonreliableDropable);
    connect(&mut s, "a", 0);
    events(&mut s);
    let a = String::from("a");
    let out = s.handle_datagram(&datagram(&[7], PacketType::Data, 0, 0), &a, 1);
    assert_eq!(header_of(&out[0].bytes), PacketHeader::new(PacketType::Receipt, 0, 0));
    s.handle_datagram(&datagram(&[7], PacketType::Data, 0, 0), &a, 2);
    assert_eq!(events(&mut s), vec!["data a [7]"]);
    assert!(s.handle_datagram(&datagram(&[8], PacketType::Data, 1, 0), &a, 3).is_empty());
    s.handle_datagram(&datagram(&[8], PacketType::Data, 1, 0), &a, 3);
    assert_eq!(events(&mut s), vec!["data a [8]", "data a [8]"]);
    s.handle_datagram(&datagram(&[21], PacketType::Data, 2, 1), &a, 4);
    assert!(events(&mut s).is_empty());
    s.handle_datagram(&datagram(&[20], PacketType::Data, 2, 0), &a, 5);
    assert_eq!(events(&mut s), vec!["data a [20]", "data a [21]"]);
    assert!(s.handle_datagram(&datagram(&[30], PacketType::Data, 3, 5), &a, 6).is_empty());
    s.handle_datagram(&datagram(&[31], PacketType::Data, 3, 4), &a, 6);
    s.handle_datagram(&datagram(&[32], PacketType::Data, 3, 6), &a, 6);
    assert_eq!(events(&mut s), vec!["data a [30]", "data a [32]"]);
}

#[test]
fn out_of_range_channel_is_not_accepted() {
    let mut s = Server::new(1);
    let a = String::from("a");
    let bad = datagram(&[], PacketType::Data, 40, 0);
    assert!(s.accepts_datagram(&bad, &a));
    connect(&mut s, "a", 0);
    assert!(!s.accepts_datagram(&bad, &a));
    assert!(s.accepts_datagram(&datagram(&[], PacketType::Data, 31, 0), &a));
    assert!(s.accepts_datagram(&datagram(&[], PacketType::Ping, 200, 0), &a));
    assert!(s.accepts_datagram(&[1, 2, 3], &a));
}

#[test]
fn send_to_peer_numbers_packets_and_keeps_reliable_ones() {
    let mut s = Server::new(2);
    s.setup_channel(0, ChannelType::Reliable);
    connect(&mut s, "a", 0);
    s.handle_datagram(&datagram(&[], PacketType::Receipt, INTERNAL_CHANNEL, 0), &String::from("a"), 0);
    let mut p = Packet::new();
    p.push::<u16>(&0x0201);
    let out = s.send_to_peer(&String::from("a"), 0, p.clone(), 10);
    assert_eq!(out.len(), 1);
    assert_eq!(&out[0].bytes[..2], &[1, 2]);
    assert_eq!(header_of(&out[0].bytes), PacketHeader::new(PacketType::Data, 0, 0));
    let out = s.send_to_peer(&String::from("a"), 0, p.clone(), 10);
    assert_eq!(header_of(&out[0].bytes).packet_id, 1);
    let out = s.send_to_peer(&String::from("a"), 1, p.clone(), 10);
    assert_eq!(header_of(&out[0].bytes), PacketHeader::new(PacketType::Data, 1, 0));
    assert!(s.send_to_peer(&String::from("nobody"), 0, p.clone(), 10).is_empty());
    let resent = s.internal_update(510);
    assert_eq!(resent.len(), 2);
    s.handle_datagram(&datagram(&[], PacketType::Receipt, 0, 0), &String::from("a"), 520);
    let resent = s.internal_update(1020);
    assert_eq!(resent.len(), 1);
    assert_eq!(header_of(&resent[0].bytes).packet_id, 1);
}

#[test]
fn send_to_all_reaches_every_client_in_order() {
    let mut s = Server::new(3);
    connect(&mut s, "a", 0);
    connect(&mut s, "b", 0);
    let mut p = Packet::new();
    p.push::<u8>(&5);
    s.send_to_peer(&String::from("b"), 4, p.clone(), 0);
    let out = s.send_to_all(4, p, 0);
    let got: Vec<(String, u128)> = out.iter().map(|d| (d.peer.clone(), header_of(&d.bytes).packet_id)).collect();
    assert_eq!(got, vec![(String::from("a"), 0), (String::from("b"), 1)]);
    assert_eq!(s.get_channel_type(4), ChannelType::Nonreliable);
}

#[test]
fn events_come_out_oldest_first() {
    let mut s = Server::new(3);
    connect(&mut s, "a", 0);
    connect(&mut s, "b", 0);
    match s.get_event() {
        Some(ServerEvent::Connect(a)) => assert_eq!(a, "a"),
        _ => panic!("expected a connect event"),
    }
    match s.get_event() {
        Some(ServerEvent::Connect(b)) => assert_eq!(b, "b"),
        _ => panic!("expected a connect event"),
    }
    assert!(s.get_event().is_none());
}

#[test]
fn sending_to_nobody_sends_nothing() {
    let mut s = Server::new(1);
    assert_eq!(s.connection_count(), 0);
    let p = Packet::new();
    assert!(s.send_to_peer(&String::from("x"), 200, p.clone(), 0).is_empty());
    assert!(s.send_to_all(200, p, 0).is_empty());
    connect(&mut s, "a", 0);
    assert_eq!(s.connection_count(), 1);
}

#[test]
fn reliable_copies_are_acknowledged_each_time_and_delivered_once() {
    let mut s = Server::new(1);
    s.setup_channel(4, ChannelType::Reliable);
    connect(&mut s, "a", 0);
    events(&mut s);
    let a = String::from("a");
    let d = datagram(&[9, 9], PacketType::Data, 4, 3);
    for t in 0..4u64 {
        let out = s.handle_datagram(&d, &a, 10 + t);
        assert_eq!(out.len(), 1);
        assert_eq!(out[0].peer, "a");
        assert_eq!(header_of(&out[0].bytes), PacketHeader::new(PacketType::Receipt, 4, 3));
    }
    assert_eq!(events(&mut s), vec!["data a [9, 9]"]);
}

#[test]
fn sequenced_packets_come_out_by_header_id_across_calls() {
    let mut s = Server::new(1);
    s.setup_channel(5, ChannelType::Sequenced);
    connect(&mut s, "a", 0);
    events(&mut s);
    let a = String::from("a");
    for id in [3u128, 1, 4, 2] {
        s.handle_datagram(&datagram(&[id as u8], PacketType::Data, 5, id), &a, 1);
        assert!(events(&mut s).is_empty());
    }
    s.handle_datagram(&datagram(&[0], PacketType::Data, 5, 0), &a, 2);
    let mut ids = Vec::new();
    while let Some(e) = s.get_event() {
        if let ServerEvent::Data(p, _) = e {
            ids.push(header_of(p.slice()).packet_id);
        }
    }
    assert_eq!(ids, vec![0, 1, 2, 3, 4]);
    s.handle_datagram(&datagram(&[6], PacketType::Data, 5, 6), &a, 3);
    assert!(events(&mut s).is_empty());
    s.handle_datagram(&datagram(&[5], PacketType::Data, 5, 5), &a, 3);
    assert_eq!(events(&mut s), vec!["data a [5]", "data a [6]"]);
}
