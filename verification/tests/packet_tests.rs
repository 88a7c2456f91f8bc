use udpnet::channel::{ChannelType, Channels};
use udpnet::packet::{Packet, PacketHeader, PacketType, INTERNAL_CHANNEL, PACKET_HEADER_SIZE};
use udpnet::packetserialize::PacketSerialize;

#[test]
fn packet_starts_empty() {
    let p = Packet::new();
    assert_eq!(p.len(), 0);
    assert_eq!(p.slice(), &[] as &[u8]);
}

#[test]
fn unsigned_values_are_little_endian() {
    let mut p = Packet::new();
    p.push::<u8>(&0xAB);
    p.push::<u16>(&0x0102);
    p.push::<u32>(&0x0102_0304);
    p.push::<u64>(&0x0102_0304_0506_0708);
    assert_eq!(
        p.slice(),
        &[0xAB, 0x02, 0x01, 0x04, 0x03, 0x02, 0x01, 0x08, 0x07, 0x06, 0x05, 0x04, 0x03, 0x02, 0x01]
    );
    let mut q = Packet::new();
    q.push::<u128>(&1);
    let mut expected = vec![1u8];
    expected.extend_from_slice(&[0u8; 15]);
    assert_eq!(q.slice(), expected.as_slice());
}

#[test]
fn signed_values_are_twos_complement() {
    let mut p = Packet::new();
    p.push::<i8>(&-1);
    p.push::<i16>(&-2);
    p.push::<i32>(&-3);
    assert_eq!(p.slice(), &[0xFF, 0xFE, 0xFF, 0xFD, 0xFF, 0xFF, 0xFF]);
    let mut q = Packet::new();
    q.push::<i64>(&i64::MIN);
    assert_eq!(q.slice(), &i64::MIN.to_le_bytes());
    let mut r = Packet::new();
    r.push::<i128>(&-5);
    assert_eq!(r.slice(), &(-5i128).to_le_bytes());
}

#[test]
fn reads_give_back_what_was_pushed() {
    let mut p = Packet::new();
    p.push::<u8>(&200);
    p.push::<u16>(&65535);
    p.push::<u32>(&123_456_789);
    p.push::<u64>(&u64::MAX);
    p.push::<u128>(&(u128::MAX - 7));
    p.push::<i8>(&i8::MIN);
    p.push::<i16>(&-12345);
    p.push::<i32>(&i32::MIN);
    p.push::<i64>(&-1);
    p.push::<i128>(&i128::MIN);
    p.push::<i128>(&i128::MAX);
    p.push::<bool>(&true);
    p.push::<bool>(&false);
    assert_eq!(p.read::<u8>(), 200);
    assert_eq!(p.read::<u16>(), 65535);
    assert_eq!(p.read::<u32>(), 123_456_789);
    assert_eq!(p.read::<u64>(), u64::MAX);
    assert_eq!(p.read::<u128>(), u128::MAX - 7);
    assert_eq!(p.read::<i8>(), i8::MIN);
    assert_eq!(p.read::<i16>(), -12345);
    assert_eq!(p.read::<i32>(), i32::MIN);
    assert_eq!(p.read::<i64>(), -1);
    assert_eq!(p.read::<i128>(), i128::MIN);
    assert_eq!(p.read::<i128>(), i128::MAX);
    assert_eq!(p.read::<bool>(), true);
    assert_eq!(p.read::<bool>(), false);
}

#[test]
fn only_byte_one_reads_as_true() {
    let mut p = Packet::new();
    p.push_bytes(&[2, 1, 0]);
    assert_eq!(p.read::<bool>(), false);
    assert_eq!(p.read::<bool>(), true);
    assert_eq!(p.read::<bool>(), false);
}

#[test]
fn strings_are_written_as_utf8_and_read_as_empty() {
    let s = String::from("Rustからstringです!");
    let mut p = Packet::new();
    p.push::<String>(&s);
    assert_eq!(p.slice(), s.as_bytes());
    p.reset_read_position();
    let read = p.read::<String>();
    assert_eq!(read, "");
    assert_eq!(p.read::<u8>(), b'R');
}

#[test]
fn header_takes_eighteen_bytes_and_reads_back() {
    let h = PacketHeader::new(PacketType::Receipt, 7, 0x0102);
    let mut p = Packet::new();
    p.push::<u32>(&99);
    p.push::<PacketHeader>(&h);
    assert_eq!(p.len(), 4 + PACKET_HEADER_SIZE);
    let bytes = p.slice().to_vec();
    assert_eq!(&bytes[4..6], &[0x02, 0x01]);
    assert_eq!(bytes[20], 4);
    assert_eq!(bytes[21], 7);
    p.set_read_position(p.len() - PACKET_HEADER_SIZE);
    let back = p.read::<PacketHeader>();
    assert_eq!(back, h);
    p.reset_read_position();
    assert_eq!(p.read::<u32>(), 99);
}

#[test]
fn unknown_packet_type_byte_is_undefined() {
    let mut bytes = vec![0u8; 16];
    bytes.push(9);
    bytes.push(3);
    let mut p = Packet::new();
    p.push_bytes(&bytes);
    let h = p.read::<PacketHeader>();
    assert_eq!(h.packet_type, PacketType::Undefined);
    assert_eq!(h.channel_id, 3);
    assert_eq!(PacketType::from_byte(5), PacketType::Undefined);
    assert_eq!(PacketType::from_byte(PacketType::Ping.to_byte()), PacketType::Ping);
    assert_eq!(PacketType::Data.to_byte(), 2);
}

#[test]
fn clear_and_positions() {
    let mut p = Packet::new();
    p.push_bytes(&[1, 2, 3, 4]);
    p.set_read_position(2);
    assert_eq!(p.read::<u8>(), 3);
    p.reset_read_position();
    assert_eq!(p.read::<u8>(), 1);
    let c = p.clone();
    assert_eq!(c.slice(), p.slice());
    p.clear();
    assert_eq!(p.len(), 0);
    assert_eq!(c.len(), 4);
    assert_eq!(p.to_bytes(), Vec::<u8>::new());
}

#[test]
fn channels_start_nonreliable() {
    let ch = Channels::new();
    for c in 0..32u8 {
        assert_eq!(ch.get_channel_type(c), ChannelType::Nonreliable);
    }
}

#[test]
fn setup_then_get_channel_type() {
    let mut ch = Channels::new();
    ch.setup_channel(0, ChannelType::Reliable);
    ch.setup_channel(1, ChannelType::Nonreliable);
    ch.setup_channel(2, ChannelType::Sequenced);
    ch.setup_channel(31, ChannelType::NonreliableDropable);
    assert_eq!(ch.get_channel_type(0), ChannelType::Reliable);
    assert_eq!(ch.get_channel_type(1), ChannelType::Nonreliable);
    assert_eq!(ch.get_channel_type(2), ChannelType::Sequenced);
    assert_eq!(ch.get_channel_type(31), ChannelType::NonreliableDropable);
    assert_eq!(ch.get_channel_type(3), ChannelType::Nonreliable);
    assert_eq!(ch.reliable, 0b101);
    assert_eq!(ch.sequence, 0b100 | (1 << 31));
    ch.setup_channel(2, ChannelType::Nonreliable);
    assert_eq!(ch.get_channel_type(2), ChannelType::Nonreliable);
    assert_eq!(ch.get_channel_type(0), ChannelType::Reliable);
    assert_eq!(ch.reliable, 0b1);
    assert_eq!(INTERNAL_CHANNEL, 100);
}

#[test]
fn deserialize_reports_the_width_and_leaves_the_packet() {
    let mut p = Packet::new();
    p.push_bytes(&[1, 2, 0, 0, 0]);
    let (b, n) = bool::deserialize(&mut p);
    assert!(b);
    assert_eq!(n, 1);
    assert_eq!(p.len(), 5);
    assert_eq!(p.read::<u8>(), 1);
    let (v, n) = u32::deserialize(&mut p);
    assert_eq!(v, 2);
    assert_eq!(n, 4);
    assert_eq!(p.read::<u32>(), 2);
    let mut q = Packet::new();
    q.push::<PacketHeader>(&PacketHeader::new(PacketType::Ping, 3, 12));
    q.push::<u8>(&5);
    let (h, n) = PacketHeader::deserialize(&mut q);
    assert_eq!(h, PacketHeader::new(PacketType::Ping, 3, 12));
    assert_eq!(n, 0);
    assert_eq!(q.read::<u8>(), 5);
    let (s, n) = String::deserialize(&mut q);
    assert!(s.is_empty());
    assert_eq!(n, 0);
}
