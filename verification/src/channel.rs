//! Channels and their delivery guarantees. The guarantee of each of the 32
//! channels is kept as two bit masks: one bit says "reliable" (acknowledged
//! and retransmitted), the other "sequenced" (delivered in order).
use vstd::prelude::*;

verus! {

/// Number of user channels.
pub const CHANNEL_COUNT: u8 = 32;

/// The delivery guarantee of a channel.
#[derive(Clone, Copy, PartialEq, Eq, Structural, Debug)]
pub enum ChannelType {
    /// Acknowledged, retransmitted, delivered in arrival order and at most
    /// once while its id is remembered.
    Reliable,
    /// Acknowledged, retransmitted, delivered by packet id in send order,
    /// and at most once while its id is remembered.
    Sequenced,
    /// Delivered as it arrives.
    Nonreliable,
    /// Delivered only when newer than what was delivered last.
    NonreliableDropable,
}

/// Whether bit `c` of `mask` is set.
pub open spec fn mask_bit(mask: u32, c: u8) -> bool {
    (mask >> (c as u32)) & 1u32 == 1u32
}

/// Whether packets of a channel of this type are acknowledged and retransmitted.
pub open spec fn is_reliable_type(t: ChannelType) -> bool {
    t == ChannelType::Reliable || t == ChannelType::Sequenced
}

/// Whether a channel of this type orders what it delivers.
pub open spec fn is_sequenced_type(t: ChannelType) -> bool {
    t == ChannelType::Sequenced || t == ChannelType::NonreliableDropable
}

/// The channel type that a reliable bit and a sequenced bit stand for.
pub open spec fn type_of_bits(reliable: bool, sequenced: bool) -> ChannelType {
    if sequenced && reliable {
        ChannelType::Sequenced
    } else if !sequenced && reliable {
        ChannelType::Reliable
    } else if sequenced && !reliable {
        ChannelType::NonreliableDropable
    } else {
        ChannelType::Nonreliable
    }
}

/// The bits of a channel type are the ones that stand for it.
pub proof fn lemma_type_of_bits(t: ChannelType)
    ensures
        type_of_bits(is_reliable_type(t), is_sequenced_type(t)) == t,
{
}

proof fn lemma_bit_set(x: u32, c: u32, d: u32)
    by (bit_vector)
    requires
        c < 32,
        d < 32,
    ensures
        ((x | (1u32 << c)) >> d) & 1u32 == (if d == c { 1u32 } else { (x >> d) & 1u32 }),
        ((!(!x | (1u32 << c))) >> d) & 1u32 == (if d == c { 0u32 } else { (x >> d) & 1u32 }),
{
}

/// With no bit set, every channel is nonreliable.
pub proof fn lemma_no_bits_nonreliable(c: u8)
    ensures
        (Channels { reliable: 0, sequence: 0 }).type_of(c) == ChannelType::Nonreliable,
{
    let d = c as u32;
    assert((0u32 >> d) & 1u32 == 0u32) by (bit_vector);
}

/// The delivery guarantees of the 32 channels.
#[derive(Clone, Copy, PartialEq, Eq, Structural, Debug)]
pub struct Channels {
    /// Bit `c` set: channel `c` is reliable.
    pub reliable: u32,
    /// Bit `c` set: channel `c` is sequenced.
    pub sequence: u32,
}

impl Channels {
    /// The type of channel `c` under these masks.
    pub open spec fn type_of(self, c: u8) -> ChannelType {
        type_of_bits(mask_bit(self.reliable, c), mask_bit(self.sequence, c))
    }

    /// All channels nonreliable.
    pub fn new() -> (ch: Channels)
        ensures
            ch.reliable == 0,
            ch.sequence == 0,
            forall|c: u8| c < CHANNEL_COUNT ==> #[trigger] ch.type_of(c) == ChannelType::Nonreliable,
    {
        let ch = Channels { reliable: 0, sequence: 0 };
        assert forall|c: u8| c < CHANNEL_COUNT implies #[trigger] ch.type_of(c)
            == ChannelType::Nonreliable by {
            let d = c as u32;
            assert((0u32 >> d) & 1u32 == 0u32) by (bit_vector);
        }
        ch
    }

    pub fn get_channel_type(&self, channel_id: u8) -> (t: ChannelType)
        requires
            channel_id < CHANNEL_COUNT,
        ensures
            t == self.type_of(channel_id),
    {
        let is_sequenced = (self.sequence >> (channel_id as u32)) & 0x1 == 1;
        let is_reliable = (self.reliable >> (channel_id as u32)) & 0x1 == 1;

        if is_sequenced && is_reliable {
            ChannelType::Sequenced
        } else if !is_sequenced && is_reliable {
            ChannelType::Reliable
        } else if is_sequenced && !is_reliable {
            ChannelType::NonreliableDropable
        } else {
            ChannelType::Nonreliable
        }
    }

    /// Gives `channel` the guarantee `channel_type`; the other channels keep theirs.
    pub fn setup_channel(&mut self, channel: u8, channel_type: ChannelType)
        requires
            channel < CHANNEL_COUNT,
        ensures
            mask_bit(final(self).reliable, channel) == is_reliable_type(channel_type),
            mask_bit(final(self).sequence, channel) == is_sequenced_type(channel_type),
            forall|c: u8|
                c < CHANNEL_COUNT && c != channel ==> mask_bit(final(self).reliable, c) == mask_bit(
                    old(self).reliable,
                    c,
                ) && mask_bit(final(self).sequence, c) == mask_bit(old(self).sequence, c),
    {
        let rel: bool;
        let seq: bool;
        match channel_type {
            ChannelType::Reliable => {
                seq = false;
                rel = true;
            },
            ChannelType::Sequenced => {
                seq = true;
                rel = true;
            },
            ChannelType::Nonreliable => {
                seq = false;
                rel = false;
            },
            ChannelType::NonreliableDropable => {
                seq = true;
                rel = false;
            },
        }
        let ghost r0 = self.reliable;
        let ghost s0 = self.sequence;
        let c: u32 = channel as u32;
        if rel {
            self.reliable = self.reliable | (1u32 << c);
        } else {
            self.reliable = !(!self.reliable | (1u32 << c));
        }
        if seq {
            self.sequence = self.sequence | (1u32 << c);
        } else {
            self.sequence = !(!self.sequence | (1u32 << c));
        }
        proof {
            lemma_bit_set(r0, c, c);
            lemma_bit_set(s0, c, c);
            assert forall|d: u8| d < CHANNEL_COUNT && d != channel implies mask_bit(
                self.reliable,
                d,
            ) == mask_bit(r0, d) && mask_bit(self.sequence, d) == mask_bit(s0, d) by {
                lemma_bit_set(r0, c, d as u32);
                lemma_bit_set(s0, c, d as u32);
            }
        }
    }
}

/// After a channel is set up, it has the type it was given, and every other
/// channel keeps the type it had.
pub proof fn lemma_setup_then_get(before: Channels, after: Channels, channel: u8, t: ChannelType)
    requires
        channel < CHANNEL_COUNT,
        mask_bit(after.reliable, channel) == is_reliable_type(t),
        mask_bit(after.sequence, channel) == is_sequenced_type(t),
        forall|c: u8|
            c < CHANNEL_COUNT && c != channel ==> mask_bit(after.reliable, c) == mask_bit(
                before.reliable,
                c,
            ) && mask_bit(after.sequence, c) == mask_bit(before.sequence, c),
    ensures
        after.type_of(channel) == t,
        forall|c: u8| c < CHANNEL_COUNT && c != channel ==> #[trigger] after.type_of(c) == before.type_of(c),
{
    lemma_type_of_bits(t);
}

} // verus!
