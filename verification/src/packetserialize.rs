//! Encoding values into packets and reading them back: the
//! [`PacketSerialize`] trait and its implementations for the primitive types,
//! strings and packet headers.
use vstd::prelude::*;

use crate::bytes::{
    byte_pow, le_bytes, le_value, lemma_byte_pow_16, lemma_le_bytes_len, lemma_le_roundtrip,
    lemma_le_value_bound,
};
use crate::packet::{
    Packet, PacketHeader, PacketType, header_at, header_bytes, lemma_packet_type_byte_roundtrip,
    packet_type_byte,
};

verus! {

/// Whether `n` bytes start at `pos` in `data`.
pub open spec fn field_fits(data: Seq<u8>, pos: int, n: nat) -> bool {
    0 <= pos && pos + n <= data.len()
}

/// The little-endian number in the `n` bytes at `pos` of `data`.
pub open spec fn field_value(data: Seq<u8>, pos: int, n: nat) -> nat {
    le_value(data.subrange(pos, pos + n))
}

/// The `n`-byte two's complement representation of `v`, as an unsigned number.
pub open spec fn twos_complement(v: int, n: nat) -> nat {
    if v >= 0 {
        v as nat
    } else {
        (v + byte_pow(n)) as nat
    }
}

/// The signed number that the `n`-byte two's complement representation `u` stands for.
pub open spec fn from_twos_complement(u: nat, n: nat) -> int {
    if 2 * u < byte_pow(n) {
        u as int
    } else {
        u - byte_pow(n)
    }
}

/// A number below `256^n`, written as `n` little-endian bytes between two
/// other byte sequences, is read back from where it was written.
pub proof fn lemma_field_between(before: Seq<u8>, x: nat, n: nat, after: Seq<u8>)
    requires
        x < byte_pow(n),
    ensures
        le_bytes(x, n).len() == n,
        field_fits(before + le_bytes(x, n) + after, before.len() as int, n),
        field_value(before + le_bytes(x, n) + after, before.len() as int, n) == x,
{
    lemma_le_bytes_len(x, n);
    let d = before + le_bytes(x, n) + after;
    assert(d.subrange(before.len() as int, (before.len() + n) as int) =~= le_bytes(x, n));
    lemma_le_roundtrip(x, n);
}

/// Values that can be written into a packet and read back from it.
///
/// `serialize` appends the value's bytes; `deserialize` reads a value at the
/// packet's read position and says how far the position must still move for
/// the read to be complete (implementations that move it themselves return 0).
pub trait PacketSerialize: Sized {
    type T;

    /// The bytes `serialize` appends.
    spec fn spec_encoding(&self) -> Seq<u8>;

    /// Whether a value can be read at `pos` in `data`.
    spec fn spec_readable(data: Seq<u8>, pos: int) -> bool;

    /// Whether `v` is what a read at `pos` in `data` gives.
    spec fn spec_is_decoded(data: Seq<u8>, pos: int, v: Self::T) -> bool;

    /// How many bytes a read at `pos` in `data` consumes.
    spec fn spec_read_len(data: Seq<u8>, pos: int) -> nat;

    /// How far `deserialize` moves the read position itself for a read at
    /// `pos` in `data`; it returns the rest of the read's length.
    spec fn spec_self_advance(data: Seq<u8>, pos: int) -> nat;

    /// The value a read of this value's encoding gives back, for types whose
    /// reads invert their writes.
    spec fn spec_read_back(&self) -> Option<Self::T>;

    fn serialize(&self, packet: &mut Packet)
        ensures
            final(packet)@.data == old(packet)@.data + self.spec_encoding(),
            final(packet)@.read_position == old(packet)@.read_position,
    ;

    fn deserialize(packet: &mut Packet) -> (r: (Self::T, usize))
        requires
            Self::spec_readable(old(packet)@.data, old(packet)@.read_position as int),
        ensures
            Self::spec_is_decoded(old(packet)@.data, old(packet)@.read_position as int, r.0),
            final(packet)@.data == old(packet)@.data,
            final(packet)@.read_position == old(packet)@.read_position + Self::spec_self_advance(
                old(packet)@.data,
                old(packet)@.read_position as int,
            ),
            final(packet)@.read_position + r.1 == old(packet)@.read_position + Self::spec_read_len(
                old(packet)@.data,
                old(packet)@.read_position as int,
            ),
            final(packet)@.read_position + r.1 <= usize::MAX,
    ;

    /// A value written between any two byte sequences is read back, whole,
    /// from where it was written.
    proof fn lemma_read_after_write(&self, before: Seq<u8>, after: Seq<u8>)
        ensures
            self.spec_read_back() is Some ==> {
                let data = before + self.spec_encoding() + after;
                let pos = before.len() as int;
                &&& Self::spec_readable(data, pos)
                &&& Self::spec_is_decoded(data, pos, self.spec_read_back().unwrap())
                &&& forall|v: Self::T| #[trigger]
                    Self::spec_is_decoded(data, pos, v) ==> v == self.spec_read_back().unwrap()
                &&& Self::spec_read_len(data, pos) == self.spec_encoding().len()
            },
    ;
}

/// Every fixed-width integer and `bool` reads back as itself.
pub proof fn lemma_primitives_read_back(
    a: u8,
    b: u16,
    c: u32,
    d: u64,
    e: u128,
    f: i8,
    g: i16,
    h: i32,
    i: i64,
    j: i128,
    k: bool,
)
    ensures
        a.spec_read_back() == Some(a),
        b.spec_read_back() == Some(b),
        c.spec_read_back() == Some(c),
        d.spec_read_back() == Some(d),
        e.spec_read_back() == Some(e),
        f.spec_read_back() == Some(f),
        g.spec_read_back() == Some(g),
        h.spec_read_back() == Some(h),
        i.spec_read_back() == Some(i),
        j.spec_read_back() == Some(j),
        k.spec_read_back() == Some(k),
{
}

impl PacketSerialize for u8 {
    type T = u8;

    open spec fn spec_encoding(&self) -> Seq<u8> {
        le_bytes(*self as nat, 1)
    }

    open spec fn spec_readable(data: Seq<u8>, pos: int) -> bool {
        field_fits(data, pos, 1)
    }

    open spec fn spec_is_decoded(data: Seq<u8>, pos: int, v: u8) -> bool {
        v == field_value(data, pos, 1)
    }

    open spec fn spec_read_len(data: Seq<u8>, pos: int) -> nat {
        1
    }

    open spec fn spec_self_advance(data: Seq<u8>, pos: int) -> nat {
        0
    }

    open spec fn spec_read_back(&self) -> Option<u8> {
        Some(*self)
    }

    fn serialize(&self, packet: &mut Packet) {
        packet.push_le(*self as u128, 1);
    }

    fn deserialize(packet: &mut Packet) -> (r: (u8, usize)) {
        proof {
            packet.lemma_len_bound();
        }
        let v = packet.peek_le(1);
        proof {
            lemma_le_value_bound(
                packet@.data.subrange(packet@.read_position as int, (packet@.read_position + 1) as int),
            );
            lemma_byte_pow_16();
        }
        (v as u8, 1)
    }

    proof fn lemma_read_after_write(&self, before: Seq<u8>, after: Seq<u8>) {
        lemma_byte_pow_16();
        lemma_field_between(before, *self as nat, 1, after);
    }
}

impl PacketSerialize for u16 {
    type T = u16;

    open spec fn spec_encoding(&self) -> Seq<u8> {
        le_bytes(*self as nat, 2)
    }

    open spec fn spec_readable(data: Seq<u8>, pos: int) -> bool {
        field_fits(data, pos, 2)
    }

    open spec fn spec_is_decoded(data: Seq<u8>, pos: int, v: u16) -> bool {
        v == field_value(data, pos, 2)
    }

    open spec fn spec_read_len(data: Seq<u8>, pos: int) -> nat {
        2
    }

    open spec fn spec_self_advance(data: Seq<u8>, pos: int) -> nat {
        0
    }

    open spec fn spec_read_back(&self) -> Option<u16> {
        Some(*self)
    }

    fn serialize(&self, packet: &mut Packet) {
        packet.push_le(*self as u128, 2);
    }

    fn deserialize(packet: &mut Packet) -> (r: (u16, usize)) {
        proof {
            packet.lemma_len_bound();
        }
        let v = packet.peek_le(2);
        proof {
            lemma_le_value_bound(
                packet@.data.subrange(packet@.read_position as int, (packet@.read_position + 2) as int),
            );
            lemma_byte_pow_16();
        }
        (v as u16, 2)
    }

    proof fn lemma_read_after_write(&self, before: Seq<u8>, after: Seq<u8>) {
        lemma_byte_pow_16();
        lemma_field_between(before, *self as nat, 2, after);
    }
}

impl PacketSerialize for u32 {
    type T = u32;

    open spec fn spec_encoding(&self) -> Seq<u8> {
        le_bytes(*self as nat, 4)
    }

    open spec fn spec_readable(data: Seq<u8>, pos: int) -> bool {
        field_fits(data, pos, 4)
    }

    open spec fn spec_is_decoded(data: Seq<u8>, pos: int, v: u32) -> bool {
        v == field_value(data, pos, 4)
    }

    open spec fn spec_read_len(data: Seq<u8>, pos: int) -> nat {
        4
    }

    open spec fn spec_self_advance(data: Seq<u8>, pos: int) -> nat {
        0
    }

    open spec fn spec_read_back(&self) -> Option<u32> {
        Some(*self)
    }

    fn serialize(&self, packet: &mut Packet) {
        packet.push_le(*self as u128, 4);
    }

    fn deserialize(packet: &mut Packet) -> (r: (u32, usize)) {
        proof {
            packet.lemma_len_bound();
        }
        let v = packet.peek_le(4);
        proof {
            lemma_le_value_bound(
                packet@.data.subrange(packet@.read_position as int, (packet@.read_position + 4) as int),
            );
            lemma_byte_pow_16();
        }
        (v as u32, 4)
    }

    proof fn lemma_read_after_write(&self, before: Seq<u8>, after: Seq<u8>) {
        lemma_byte_pow_16();
        lemma_field_between(before, *self as nat, 4, after);
    }
}

impl PacketSerialize for u64 {
    type T = u64;

    open spec fn spec_encoding(&self) -> Seq<u8> {
        le_bytes(*self as nat, 8)
    }

    open spec fn spec_readable(data: Seq<u8>, pos: int) -> bool {
        field_fits(data, pos, 8)
    }

    open spec fn spec_is_decoded(data: Seq<u8>, pos: int, v: u64) -> bool {
        v == field_value(data, pos, 8)
    }

    open spec fn spec_read_len(data: Seq<u8>, pos: int) -> nat {
        8
    }

    open spec fn spec_self_advance(data: Seq<u8>, pos: int) -> nat {
        0
    }

    open spec fn spec_read_back(&self) -> Option<u64> {
        Some(*self)
    }

    fn serialize(&self, packet: &mut Packet) {
        packet.push_le(*self as u128, 8);
    }

    fn deserialize(packet: &mut Packet) -> (r: (u64, usize)) {
        proof {
            packet.lemma_len_bound();
        }
        let v = packet.peek_le(8);
        proof {
            lemma_le_value_bound(
                packet@.data.subrange(packet@.read_position as int, (packet@.read_position + 8) as int),
            );
            lemma_byte_pow_16();
        }
        (v as u64, 8)
    }

    proof fn lemma_read_after_write(&self, before: Seq<u8>, after: Seq<u8>) {
        lemma_byte_pow_16();
        lemma_field_between(before, *self as nat, 8, after);
    }
}

impl PacketSerialize for u128 {
    type T = u128;

    open spec fn spec_encoding(&self) -> Seq<u8> {
        le_bytes(*self as nat, 16)
    }

    open spec fn spec_readable(data: Seq<u8>, pos: int) -> bool {
        field_fits(data, pos, 16)
    }

    open spec fn spec_is_decoded(data: Seq<u8>, pos: int, v: u128) -> bool {
        v == field_value(data, pos, 16)
    }

    open spec fn spec_read_len(data: Seq<u8>, pos: int) -> nat {
        16
    }

    open spec fn spec_self_advance(data: Seq<u8>, pos: int) -> nat {
        0
    }

    open spec fn spec_read_back(&self) -> Option<u128> {
        Some(*self)
    }

    fn serialize(&self, packet: &mut Packet) {
        packet.push_le(*self as u128, 16);
    }

    fn deserialize(packet: &mut Packet) -> (r: (u128, usize)) {
        proof {
            packet.lemma_len_bound();
        }
        let v = packet.peek_le(16);
        proof {
            lemma_le_value_bound(
                packet@.data.subrange(packet@.read_position as int, (packet@.read_position + 16) as int),
            );
            lemma_byte_pow_16();
        }
        (v as u128, 16)
    }

    proof fn lemma_read_after_write(&self, before: Seq<u8>, after: Seq<u8>) {
        lemma_byte_pow_16();
        lemma_field_between(before, *self as nat, 16, after);
    }
}

impl PacketSerialize for i8 {
    type T = i8;

    open spec fn spec_encoding(&self) -> Seq<u8> {
        le_bytes(twos_complement(*self as int, 1), 1)
    }

    open spec fn spec_readable(data: Seq<u8>, pos: int) -> bool {
        field_fits(data, pos, 1)
    }

    open spec fn spec_is_decoded(data: Seq<u8>, pos: int, v: i8) -> bool {
        v == from_twos_complement(field_value(data, pos, 1), 1)
    }

    open spec fn spec_read_len(data: Seq<u8>, pos: int) -> nat {
        1
    }

    open spec fn spec_self_advance(data: Seq<u8>, pos: int) -> nat {
        0
    }

    open spec fn spec_read_back(&self) -> Option<i8> {
        Some(*self)
    }

    fn serialize(&self, packet: &mut Packet) {
        proof {
            lemma_byte_pow_16();
        }
        let u: u128 = if *self >= 0 {
            *self as u128
        } else {
            (*self as i128 + 0x100) as u128
        };
        packet.push_le(u, 1);
    }

    fn deserialize(packet: &mut Packet) -> (r: (i8, usize)) {
        proof {
            packet.lemma_len_bound();
        }
        let u = packet.peek_le(1);
        proof {
            lemma_le_value_bound(
                packet@.data.subrange(packet@.read_position as int, (packet@.read_position + 1) as int),
            );
            lemma_byte_pow_16();
        }
        let v: i8 = if u < 0x80 {
            u as i8
        } else {
            (u as i128 - 0x100) as i8
        };
        (v, 1)
    }

    proof fn lemma_read_after_write(&self, before: Seq<u8>, after: Seq<u8>) {
        lemma_byte_pow_16();
        lemma_field_between(before, twos_complement(*self as int, 1), 1, after);
    }
}

impl PacketSerialize for i16 {
    type T = i16;

    open spec fn spec_encoding(&self) -> Seq<u8> {
        le_bytes(twos_complement(*self as int, 2), 2)
    }

    open spec fn spec_readable(data: Seq<u8>, pos: int) -> bool {
        field_fits(data, pos, 2)
    }

    open spec fn spec_is_decoded(data: Seq<u8>, pos: int, v: i16) -> bool {
        v == from_twos_complement(field_value(data, pos, 2), 2)
    }

    open spec fn spec_read_len(data: Seq<u8>, pos: int) -> nat {
        2
    }

    open spec fn spec_self_advance(data: Seq<u8>, pos: int) -> nat {
        0
    }

    open spec fn spec_read_back(&self) -> Option<i16> {
        Some(*self)
    }

    fn serialize(&self, packet: &mut Packet) {
        proof {
            lemma_byte_pow_16();
        }
        let u: u128 = if *self >= 0 {
            *self as u128
        } else {
            (*self as i128 + 0x1_0000) as u128
        };
        packet.push_le(u, 2);
    }

    fn deserialize(packet: &mut Packet) -> (r: (i16, usize)) {
        proof {
            packet.lemma_len_bound();
        }
        let u = packet.peek_le(2);
        proof {
            lemma_le_value_bound(
                packet@.data.subrange(packet@.read_position as int, (packet@.read_position + 2) as int),
            );
            lemma_byte_pow_16();
        }
        let v: i16 = if u < 0x8000 {
            u as i16
        } else {
            (u as i128 - 0x1_0000) as i16
        };
        (v, 2)
    }

    proof fn lemma_read_after_write(&self, before: Seq<u8>, after: Seq<u8>) {
        lemma_byte_pow_16();
        lemma_field_between(before, twos_complement(*self as int, 2), 2, after);
    }
}

impl PacketSerialize for i32 {
    type T = i32;

    open spec fn spec_encoding(&self) -> Seq<u8> {
        le_bytes(twos_complement(*self as int, 4), 4)
    }

    open spec fn spec_readable(data: Seq<u8>, pos: int) -> bool {
        field_fits(data, pos, 4)
    }

    open spec fn spec_is_decoded(data: Seq<u8>, pos: int, v: i32) -> bool {
        v == from_twos_complement(field_value(data, pos, 4), 4)
    }

    open spec fn spec_read_len(data: Seq<u8>, pos: int) -> nat {
        4
    }

    open spec fn spec_self_advance(data: Seq<u8>, pos: int) -> nat {
        0
    }

    open spec fn spec_read_back(&self) -> Option<i32> {
        Some(*self)
    }

    fn serialize(&self, packet: &mut Packet) {
        proof {
            lemma_byte_pow_16();
        }
        let u: u128 = if *self >= 0 {
            *self as u128
        } else {
            (*self as i128 + 0x1_0000_0000) as u128
        };
        packet.push_le(u, 4);
    }

    fn deserialize(packet: &mut Packet) -> (r: (i32, usize)) {
        proof {
            packet.lemma_len_bound();
        }
        let u = packet.peek_le(4);
        proof {
            lemma_le_value_bound(
                packet@.data.subrange(packet@.read_position as int, (packet@.read_position + 4) as int),
            );
            lemma_byte_pow_16();
        }
        let v: i32 = if u < 0x8000_0000 {
            u as i32
        } else {
            (u as i128 - 0x1_0000_0000) as i32
        };
        (v, 4)
    }

    proof fn lemma_read_after_write(&self, before: Seq<u8>, after: Seq<u8>) {
        lemma_byte_pow_16();
        lemma_field_between(before, twos_complement(*self as int, 4), 4, after);
    }
}

impl PacketSerialize for i64 {
    type T = i64;

    open spec fn spec_encoding(&self) -> Seq<u8> {
        le_bytes(twos_complement(*self as int, 8), 8)
    }

    open spec fn spec_readable(data: Seq<u8>, pos: int) -> bool {
        field_fits(data, pos, 8)
    }

    open spec fn spec_is_decoded(data: Seq<u8>, pos: int, v: i64) -> bool {
        v == from_twos_complement(field_value(data, pos, 8), 8)
    }

    open spec fn spec_read_len(data: Seq<u8>, pos: int) -> nat {
        8
    }

    open spec fn spec_self_advance(data: Seq<u8>, pos: int) -> nat {
        0
    }

    open spec fn spec_read_back(&self) -> Option<i64> {
        Some(*self)
    }

    fn serialize(&self, packet: &mut Packet) {
        proof {
            lemma_byte_pow_16();
        }
        let u: u128 = if *self >= 0 {
            *self as u128
        } else {
            (*self as i128 + 0x1_0000_0000_0000_0000) as u128
        };
        packet.push_le(u, 8);
    }

    fn deserialize(packet: &mut Packet) -> (r: (i64, usize)) {
        proof {
            packet.lemma_len_bound();
        }
        let u = packet.peek_le(8);
        proof {
            lemma_le_value_bound(
                packet@.data.subrange(packet@.read_position as int, (packet@.read_position + 8) as int),
            );
            lemma_byte_pow_16();
        }
        let v: i64 = if u < 0x8000_0000_0000_0000 {
            u as i64
        } else {
            (u as i128 - 0x1_0000_0000_0000_0000) as i64
        };
        (v, 8)
    }

    proof fn lemma_read_after_write(&self, before: Seq<u8>, after: Seq<u8>) {
        lemma_byte_pow_16();
        lemma_field_between(before, twos_complement(*self as int, 8), 8, after);
    }
}

impl PacketSerialize for i128 {
    type T = i128;

    open spec fn spec_encoding(&self) -> Seq<u8> {
        le_bytes(twos_complement(*self as int, 16), 16)
    }

    open spec fn spec_readable(data: Seq<u8>, pos: int) -> bool {
        field_fits(data, pos, 16)
    }

    open spec fn spec_is_decoded(data: Seq<u8>, pos: int, v: i128) -> bool {
        v == from_twos_complement(field_value(data, pos, 16), 16)
    }

    open spec fn spec_read_len(data: Seq<u8>, pos: int) -> nat {
        16
    }

    open spec fn spec_self_advance(data: Seq<u8>, pos: int) -> nat {
        0
    }

    open spec fn spec_read_back(&self) -> Option<i128> {
        Some(*self)
    }

    fn serialize(&self, packet: &mut Packet) {
        proof {
            lemma_byte_pow_16();
        }
        let u: u128 = if *self >= 0 {
            *self as u128
        } else {
            (*self + 0x7fff_ffff_ffff_ffff_ffff_ffff_ffff_ffff + 1) as u128 + 0x8000_0000_0000_0000_0000_0000_0000_0000
        };
        packet.push_le(u, 16);
    }

    fn deserialize(packet: &mut Packet) -> (r: (i128, usize)) {
        proof {
            packet.lemma_len_bound();
        }
        let u = packet.peek_le(16);
        proof {
            lemma_le_value_bound(
                packet@.data.subrange(packet@.read_position as int, (packet@.read_position + 16) as int),
            );
            lemma_byte_pow_16();
        }
        let v: i128 = if u < 0x8000_0000_0000_0000_0000_0000_0000_0000 {
            u as i128
        } else {
            (u - 0x8000_0000_0000_0000_0000_0000_0000_0000) as i128 - 0x7fff_ffff_ffff_ffff_ffff_ffff_ffff_ffff - 1
        };
        (v, 16)
    }

    proof fn lemma_read_after_write(&self, before: Seq<u8>, after: Seq<u8>) {
        lemma_byte_pow_16();
        lemma_field_between(before, twos_complement(*self as int, 16), 16, after);
    }
}

impl PacketSerialize for bool {
    type T = bool;

    /// A single byte: 1 for `true`, 0 for `false`.
    open spec fn spec_encoding(&self) -> Seq<u8> {
        le_bytes(if *self { 1 } else { 0 }, 1)
    }

    open spec fn spec_readable(data: Seq<u8>, pos: int) -> bool {
        field_fits(data, pos, 1)
    }

    /// Only the byte 1 reads as `true`.
    open spec fn spec_is_decoded(data: Seq<u8>, pos: int, v: bool) -> bool {
        v == (field_value(data, pos, 1) == 1)
    }

    open spec fn spec_read_len(data: Seq<u8>, pos: int) -> nat {
        1
    }

    open spec fn spec_self_advance(data: Seq<u8>, pos: int) -> nat {
        0
    }

    open spec fn spec_read_back(&self) -> Option<bool> {
        Some(*self)
    }

    fn serialize(&self, packet: &mut Packet) {
        let b: u128 = if *self {
            1
        } else {
            0
        };
        packet.push_le(b, 1);
    }

    fn deserialize(packet: &mut Packet) -> (r: (bool, usize)) {
        proof {
            packet.lemma_len_bound();
        }
        let u = packet.peek_le(1);
        (if u == 1 {
            true
        } else {
            false
        }, 1)
    }

    proof fn lemma_read_after_write(&self, before: Seq<u8>, after: Seq<u8>) {
        lemma_byte_pow_16();
        lemma_field_between(before, if *self { 1 } else { 0 }, 1, after);
    }
}

impl PacketSerialize for String {
    type T = String;

    /// The string's UTF-8 bytes, with no length or terminator.
    open spec fn spec_encoding(&self) -> Seq<u8> {
        vstd::utf8::encode_utf8(self@)
    }

    open spec fn spec_readable(data: Seq<u8>, pos: int) -> bool {
        true
    }

    /// Reading a string is not supported: it gives the empty string and
    /// consumes nothing.
    open spec fn spec_is_decoded(data: Seq<u8>, pos: int, v: String) -> bool {
        v@ == Seq::<char>::empty()
    }

    open spec fn spec_read_len(data: Seq<u8>, pos: int) -> nat {
        0
    }

    open spec fn spec_self_advance(data: Seq<u8>, pos: int) -> nat {
        0
    }

    open spec fn spec_read_back(&self) -> Option<String> {
        None
    }

    fn serialize(&self, packet: &mut Packet) {
        packet.push_bytes(self.as_str().as_bytes());
    }

    fn deserialize(packet: &mut Packet) -> (r: (String, usize)) {
        proof {
            packet.lemma_len_bound();
        }
        (String::new(), 0)
    }

    proof fn lemma_read_after_write(&self, before: Seq<u8>, after: Seq<u8>) {
    }
}

impl PacketSerialize for PacketHeader {
    type T = PacketHeader;

    open spec fn spec_encoding(&self) -> Seq<u8> {
        header_bytes(*self)
    }

    open spec fn spec_readable(data: Seq<u8>, pos: int) -> bool {
        field_fits(data, pos, 18)
    }

    open spec fn spec_is_decoded(data: Seq<u8>, pos: int, v: PacketHeader) -> bool {
        v == header_at(data, pos)
    }

    open spec fn spec_read_len(data: Seq<u8>, pos: int) -> nat {
        18
    }

    open spec fn spec_self_advance(data: Seq<u8>, pos: int) -> nat {
        18
    }

    open spec fn spec_read_back(&self) -> Option<PacketHeader> {
        Some(*self)
    }

    /// The id, then the type, then the channel.
    fn serialize(&self, packet: &mut Packet) {
        let ghost d0 = packet@.data;
        packet.push::<u128>(&self.packet_id);
        packet.push::<u8>(&self.packet_type.to_byte());
        packet.push::<u8>(&self.channel_id);
        proof {
            lemma_byte_pow_16();
            reveal_with_fuel(le_bytes, 2);
            assert(le_bytes(packet_type_byte(self.packet_type) as nat, 1) =~= seq![
                packet_type_byte(self.packet_type),
            ]);
            assert(le_bytes(self.channel_id as nat, 1) =~= seq![self.channel_id]);
            assert(packet@.data =~= d0 + header_bytes(*self));
        }
    }

    /// Reads the three fields in turn, moving the read position itself.
    fn deserialize(packet: &mut Packet) -> (r: (PacketHeader, usize)) {
        let ghost d = packet@.data;
        let ghost p = packet@.read_position as int;
        proof {
            packet.lemma_len_bound();
        }
        let id = packet.read::<u128>();
        let packet_type = packet.read::<u8>();
        let channel = packet.read::<u8>();
        proof {
            lemma_byte_pow_16();
            lemma_le_value_bound(d.subrange(p + 16, p + 17));
            lemma_le_value_bound(d.subrange(p + 17, p + 18));
            assert(d.subrange(p + 16, p + 17) =~= seq![d[p + 16]]);
            assert(d.subrange(p + 17, p + 18) =~= seq![d[p + 17]]);
            assert(le_value(seq![d[p + 16]]) == d[p + 16]) by {
                assert(seq![d[p + 16]].drop_first() =~= Seq::<u8>::empty());
            }
            assert(le_value(seq![d[p + 17]]) == d[p + 17]) by {
                assert(seq![d[p + 17]].drop_first() =~= Seq::<u8>::empty());
            }
        }
        (PacketHeader { packet_id: id, channel_id: channel, packet_type: PacketType::from_byte(packet_type) }, 0)
    }

    proof fn lemma_read_after_write(&self, before: Seq<u8>, after: Seq<u8>) {
        lemma_byte_pow_16();
        let tail = seq![packet_type_byte(self.packet_type), self.channel_id];
        let data = before + header_bytes(*self) + after;
        lemma_le_bytes_len(self.packet_id as nat, 16);
        assert(data =~= before + le_bytes(self.packet_id as nat, 16) + (tail + after));
        lemma_field_between(before, self.packet_id as nat, 16, tail + after);
        lemma_packet_type_byte_roundtrip(self.packet_type);
        let pos = before.len() as int;
        assert(data[pos + 16] == packet_type_byte(self.packet_type));
        assert(data[pos + 17] == self.channel_id);
    }
}

} // verus!
