//! Packets: a growable byte buffer with a read cursor, and the header that
//! travels at the end of every datagram.
use vstd::prelude::*;

use crate::bytes::{le_bytes, le_value, push_le, read_le};
use crate::packetserialize::PacketSerialize;

verus! {

/// Channel used for the library's own traffic (connection requests and pings).
pub const INTERNAL_CHANNEL: u8 = 100;

/// Size in bytes of an encoded [`PacketHeader`].
pub const PACKET_HEADER_SIZE: usize = 18;

/// What a datagram is for.
#[derive(Clone, Copy, PartialEq, Eq, Structural, Debug)]
pub enum PacketType {
    Connect,
    Disconnect,
    Data,
    Ping,
    Receipt,
    Undefined,
}

/// The wire number of a packet type: its position in the declaration.
pub open spec fn packet_type_byte(t: PacketType) -> u8 {
    match t {
        PacketType::Connect => 0,
        PacketType::Disconnect => 1,
        PacketType::Data => 2,
        PacketType::Ping => 3,
        PacketType::Receipt => 4,
        PacketType::Undefined => 5,
    }
}

/// The packet type a wire number stands for; unknown numbers are `Undefined`.
pub open spec fn packet_type_of_byte(b: u8) -> PacketType {
    if b == 0 {
        PacketType::Connect
    } else if b == 1 {
        PacketType::Disconnect
    } else if b == 2 {
        PacketType::Data
    } else if b == 3 {
        PacketType::Ping
    } else if b == 4 {
        PacketType::Receipt
    } else {
        PacketType::Undefined
    }
}

impl PacketType {
    pub fn to_byte(self) -> (b: u8)
        ensures
            b == packet_type_byte(self),
    {
        match self {
            PacketType::Connect => 0,
            PacketType::Disconnect => 1,
            PacketType::Data => 2,
            PacketType::Ping => 3,
            PacketType::Receipt => 4,
            PacketType::Undefined => 5,
        }
    }

    pub fn from_byte(b: u8) -> (t: PacketType)
        ensures
            t == packet_type_of_byte(b),
    {
        if b == 0 {
            PacketType::Connect
        } else if b == 1 {
            PacketType::Disconnect
        } else if b == 2 {
            PacketType::Data
        } else if b == 3 {
            PacketType::Ping
        } else if b == 4 {
            PacketType::Receipt
        } else {
            PacketType::Undefined
        }
    }
}

/// Every packet type survives the trip through its wire number.
pub proof fn lemma_packet_type_byte_roundtrip(t: PacketType)
    ensures
        packet_type_of_byte(packet_type_byte(t)) == t,
{
}

/// The header appended to every datagram: which packet of which channel it is,
/// and what it is for.
#[derive(Clone, Copy, PartialEq, Eq, Structural, Debug)]
pub struct PacketHeader {
    pub packet_id: u128,
    pub packet_type: PacketType,
    pub channel_id: u8,
}

impl PacketHeader {
    pub fn new(packet_type: PacketType, channel_id: u8, packet_id: u128) -> (h: PacketHeader)
        ensures
            h == (PacketHeader { packet_id, packet_type, channel_id }),
    {
        PacketHeader { packet_type, channel_id, packet_id }
    }
}

/// The bytes of an encoded header: the id (16 bytes, little-endian), the type
/// and the channel.
pub open spec fn header_bytes(h: PacketHeader) -> Seq<u8> {
    le_bytes(h.packet_id as nat, 16) + seq![packet_type_byte(h.packet_type), h.channel_id]
}

/// The header encoded in the 18 bytes of `data` at `pos`.
pub open spec fn header_at(data: Seq<u8>, pos: int) -> PacketHeader {
    PacketHeader {
        packet_id: le_value(data.subrange(pos, pos + 16)) as u128,
        packet_type: packet_type_of_byte(data[pos + 16]),
        channel_id: data[pos + 17],
    }
}

/// The abstract content of a packet: its bytes and where the next read starts.
pub struct PacketView {
    pub data: Seq<u8>,
    pub read_position: nat,
}

/// A datagram under construction or being read: bytes, and a read cursor.
pub struct Packet {
    data: Vec<u8>,
    read_position: usize,
}

impl View for Packet {
    type V = PacketView;

    closed spec fn view(&self) -> PacketView {
        PacketView { data: self.data@, read_position: self.read_position as nat }
    }
}

impl Packet {
    pub fn new() -> (p: Packet)
        ensures
            p@.data == Seq::<u8>::empty(),
            p@.read_position == 0,
    {
        Packet { data: Vec::new(), read_position: 0 }
    }

    pub fn clear(&mut self)
        ensures
            final(self)@.data == Seq::<u8>::empty(),
            final(self)@.read_position == 0,
    {
        self.data.clear();
        self.reset_read_position();
    }

    pub fn reset_read_position(&mut self)
        ensures
            final(self)@.data == old(self)@.data,
            final(self)@.read_position == 0,
    {
        self.read_position = 0;
    }

    pub fn set_read_position(&mut self, position: usize)
        ensures
            final(self)@.data == old(self)@.data,
            final(self)@.read_position == position,
    {
        self.read_position = position;
    }

    pub fn slice(&self) -> (s: &[u8])
        ensures
            s@ == self@.data,
    {
        self.data.as_slice()
    }

    /// A copy of the packet's bytes.
    pub fn to_bytes(&self) -> (v: Vec<u8>)
        ensures
            v@ == self@.data,
    {
        let v = self.data.clone();
        assert(v@ =~= self.data@);
        v
    }

    pub fn len(&self) -> (n: usize)
        ensures
            n == self@.data.len(),
    {
        self.data.len()
    }

    /// Appends raw bytes.
    pub fn push_bytes(&mut self, slice: &[u8])
        ensures
            final(self)@.data == old(self)@.data + slice@,
            final(self)@.read_position == old(self)@.read_position,
    {
        self.data.extend_from_slice(slice);
        assert(self.data@ =~= old(self)@.data + slice@);
    }

    /// Appends the encoding of `value`.
    pub fn push<T: PacketSerialize>(&mut self, value: &T)
        ensures
            final(self)@.data == old(self)@.data + value.spec_encoding(),
            final(self)@.read_position == old(self)@.read_position,
    {
        value.serialize(self);
    }

    /// Reads a value at the read position and moves the position past it.
    pub fn read<T: PacketSerialize>(&mut self) -> (v: <T as PacketSerialize>::T)
        requires
            T::spec_readable(old(self)@.data, old(self)@.read_position as int),
        ensures
            T::spec_is_decoded(old(self)@.data, old(self)@.read_position as int, v),
            final(self)@.data == old(self)@.data,
            final(self)@.read_position == old(self)@.read_position + T::spec_read_len(
                old(self)@.data,
                old(self)@.read_position as int,
            ),
    {
        let (value, size) = T::deserialize(self);
        self.read_position = self.read_position + size;
        value
    }

    /// The length of a packet's bytes fits in a `usize`.
    pub proof fn lemma_len_bound(&self)
        ensures
            self@.data.len() <= usize::MAX,
            self@.read_position <= usize::MAX,
    {
        assert(self.data@.len() == self.data.len());
    }

    /// The `n` bytes at the read position, as a little-endian number; the
    /// position does not move.
    pub(crate) fn peek_le(&self, n: usize) -> (v: u128)
        requires
            n <= 16,
            self@.read_position + n <= self@.data.len(),
        ensures
            v == le_value(self@.data.subrange(self@.read_position as int, (self@.read_position + n) as int)),
    {
        read_le(&self.data, self.read_position, n)
    }

    /// Appends the `n` little-endian bytes of `v`.
    pub(crate) fn push_le(&mut self, v: u128, n: usize)
        ensures
            final(self)@.data == old(self)@.data + le_bytes(v as nat, n as nat),
            final(self)@.read_position == old(self)@.read_position,
    {
        push_le(&mut self.data, v, n);
    }
}

impl Clone for Packet {
    fn clone(&self) -> (c: Self)
        ensures
            c@ == self@,
    {
        let data = self.data.clone();
        assert(data@ =~= self.data@);
        Packet { data, read_position: self.read_position }
    }
}

/// A value pushed onto a packet is what a read from where it was pushed
/// gives back, for every type whose reads invert its writes; that read
/// moves the position past exactly the value's encoding.
pub proof fn lemma_push_then_read<T: PacketSerialize>(data: Seq<u8>, v: T)
    requires
        v.spec_read_back() is Some,
    ensures
        T::spec_readable(data + v.spec_encoding(), data.len() as int),
        forall|w: T::T| #[trigger]
            T::spec_is_decoded(data + v.spec_encoding(), data.len() as int, w) <==> w
                == v.spec_read_back().unwrap(),
        T::spec_read_len(data + v.spec_encoding(), data.len() as int) == v.spec_encoding().len(),
{
    v.lemma_read_after_write(data, Seq::<u8>::empty());
    assert(data + v.spec_encoding() + Seq::<u8>::empty() =~= data + v.spec_encoding());
}

} // verus!
