//! The library's own messages: header-only packets (receipts, pings,
//! connection requests) and the server's answer to a connection request.
use vstd::prelude::*;

use crate::bytes::le_bytes;
use crate::channel::Channels;
use crate::packetserialize::{PacketSerialize, field_value, lemma_field_between};
use crate::bytes::lemma_byte_pow_16;
use crate::packet::{
    header_at, header_bytes, INTERNAL_CHANNEL, Packet, PacketHeader, PacketType, PacketView,
    PACKET_HEADER_SIZE,
};

verus! {

/// The bytes of a packet that holds only a header.
pub open spec fn header_only(t: PacketType, channel: u8, id: u128) -> Seq<u8> {
    header_bytes(PacketHeader { packet_id: id, packet_type: t, channel_id: channel })
}

/// The receipt that acknowledges the packet with header `h`.
pub open spec fn receipt_bytes(h: PacketHeader) -> Seq<u8> {
    header_only(PacketType::Receipt, h.channel_id, h.packet_id)
}

/// A ping.
pub open spec fn ping_bytes() -> Seq<u8> {
    header_only(PacketType::Ping, INTERNAL_CHANNEL, 0)
}

/// The server's answer to a connection request: whether it was accepted, the
/// reliable and sequenced channel masks, then a connect header with `id`.
pub open spec fn status_bytes(accepted: bool, ch: Channels, id: u128) -> Seq<u8> {
    le_bytes(if accepted { 1 } else { 0 }, 1) + le_bytes(ch.reliable as nat, 4) + le_bytes(
        ch.sequence as nat,
        4,
    ) + header_only(PacketType::Connect, INTERNAL_CHANNEL, id)
}

/// The bytes of a user packet sent with payload `payload` as packet `id` of `channel`.
pub open spec fn data_bytes(payload: Seq<u8>, channel: u8, id: u128) -> Seq<u8> {
    payload + header_only(PacketType::Data, channel, id)
}

/// The header a sender appends is the one the receiver reads at the end of
/// the datagram, whatever the payload before it.
pub proof fn lemma_trailing_header(payload: Seq<u8>, h: PacketHeader)
    ensures
        (payload + header_bytes(h)).len() == payload.len() + PACKET_HEADER_SIZE,
        header_at(payload + header_bytes(h), payload.len() as int) == h,
{
    h.lemma_read_after_write(payload, Seq::empty());
    assert(payload + header_bytes(h) + Seq::<u8>::empty() =~= payload + header_bytes(h));
}

/// A user packet sent as packet `id` of `channel` carries, at its end, a data
/// header with that channel and id.
pub proof fn lemma_data_header(payload: Seq<u8>, channel: u8, id: u128)
    ensures
        data_bytes(payload, channel, id).len() == payload.len() + PACKET_HEADER_SIZE,
        header_at(data_bytes(payload, channel, id), payload.len() as int) == (PacketHeader {
            packet_id: id,
            packet_type: PacketType::Data,
            channel_id: channel,
        }),
{
    lemma_trailing_header(payload, PacketHeader { packet_id: id, packet_type: PacketType::Data, channel_id: channel });
}

/// What a client reads from the server's answer is what the server said:
/// whether it accepted, and its reliable and sequenced channel masks; the
/// header at the end is the connect header.
pub proof fn lemma_status_read_back(accepted: bool, ch: Channels, id: u128)
    ensures
        status_bytes(accepted, ch, id).len() == 9 + PACKET_HEADER_SIZE,
        (field_value(status_bytes(accepted, ch, id), 0, 1) == 1) == accepted,
        field_value(status_bytes(accepted, ch, id), 1, 4) == ch.reliable,
        field_value(status_bytes(accepted, ch, id), 5, 4) == ch.sequence,
        header_at(status_bytes(accepted, ch, id), 9) == (PacketHeader {
            packet_id: id,
            packet_type: PacketType::Connect,
            channel_id: INTERNAL_CHANNEL,
        }),
{
    lemma_byte_pow_16();
    let b: nat = if accepted { 1 } else { 0 };
    let a = le_bytes(b, 1);
    let r = le_bytes(ch.reliable as nat, 4);
    let q = le_bytes(ch.sequence as nat, 4);
    let h = header_only(PacketType::Connect, INTERNAL_CHANNEL, id);
    let all = status_bytes(accepted, ch, id);
    lemma_field_between(Seq::empty(), b, 1, r + q + h);
    assert(Seq::<u8>::empty() + a + (r + q + h) =~= all);
    lemma_field_between(a, ch.reliable as nat, 4, q + h);
    assert(a + r + (q + h) =~= all);
    lemma_field_between(a + r, ch.sequence as nat, 4, h);
    assert(a + r + q + h =~= all);
    lemma_trailing_header(a + r + q, PacketHeader {
        packet_id: id,
        packet_type: PacketType::Connect,
        channel_id: INTERNAL_CHANNEL,
    });
}

/// A packet that holds only a header.
pub fn header_packet(t: PacketType, channel: u8, id: u128) -> (p: Packet)
    ensures
        p@ == (PacketView { data: header_only(t, channel, id), read_position: 0 }),
{
    let mut p = Packet::new();
    p.push::<PacketHeader>(&PacketHeader::new(t, channel, id));
    assert(p@.data =~= header_only(t, channel, id));
    p
}

/// The server's answer to a connection request.
pub fn status_packet(accepted: bool, ch: Channels, id: u128) -> (p: Packet)
    ensures
        p@ == (PacketView { data: status_bytes(accepted, ch, id), read_position: 0 }),
{
    let mut p = Packet::new();
    p.push::<bool>(&accepted);
    p.push::<u32>(&ch.reliable);
    p.push::<u32>(&ch.sequence);
    p.push::<PacketHeader>(&PacketHeader::new(PacketType::Connect, INTERNAL_CHANNEL, id));
    assert(p@.data =~= status_bytes(accepted, ch, id));
    p
}

/// The header at the end of `datagram`, if it is long enough to hold one.
pub fn trailing_header(datagram: &[u8]) -> (r: Option<PacketHeader>)
    ensures
        datagram@.len() < PACKET_HEADER_SIZE ==> r is None,
        datagram@.len() >= PACKET_HEADER_SIZE ==> r == Some(
            header_at(datagram@, datagram@.len() - PACKET_HEADER_SIZE),
        ),
{
    let size = datagram.len();
    if size < PACKET_HEADER_SIZE {
        return None;
    }
    let mut packet = Packet::new();
    packet.push_bytes(datagram);
    assert(packet@.data =~= datagram@);
    packet.set_read_position(size - PACKET_HEADER_SIZE);
    Some(packet.read::<PacketHeader>())
}

} // verus!
