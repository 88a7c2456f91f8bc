//! What one end of a connection remembers about each channel: the ids of the
//! next packets to send and to deliver, packets waiting for their turn, and
//! recently received ids for duplicate suppression.
use vstd::prelude::*;
use std::collections::HashMap;

use crate::channel::CHANNEL_COUNT;
use crate::clock::clock_millis;
use crate::packet::{Packet, PacketView, PACKET_HEADER_SIZE, header_at};
use vstd::std_specs::iter::IteratorSpec;

verus! {

broadcast use vstd::std_specs::hash::group_hash_axioms;

/// How long (ms) a received id is remembered for duplicate suppression.
pub const RECEIVED_MEMORY_MS: u64 = 5000;

/// How long (ms) a peer may stay silent before its connection times out.
pub const PEER_TIMEOUT_MS: u64 = 5000;

/// Whether at least `limit` milliseconds have passed from `since` to `now`
/// (no time has passed when the clock reads earlier than `since`).
pub open spec fn elapsed_at_least(since: u64, now: u64, limit: u64) -> bool {
    now >= since && now - since >= limit
}

/// Whether `since` is `limit` or more milliseconds before `now`.
pub fn has_elapsed(since: u64, now: u64, limit: u64) -> (b: bool)
    ensures
        b == elapsed_at_least(since, now, limit),
{
    now >= since && now - since >= limit
}

/// The ids received within the memory window at time `now`, with their arrival times.
pub open spec fn prune_received(m: Map<u128, u64>, now: u64) -> Map<u128, u64> {
    Map::new(
        |k: u128| m.dom().contains(k) && !elapsed_at_least(m[k], now, RECEIVED_MEMORY_MS),
        |k: u128| m[k],
    )
}

/// The id that follows `c` (ids wrap around after the largest `u128`).
pub open spec fn next_id(c: u128) -> u128 {
    if c == u128::MAX {
        0
    } else {
        (c + 1) as u128
    }
}

/// Delivers the stored packets whose ids follow on from `count` without a
/// gap: the packets in order, the packets left stored, and the id expected next.
pub open spec fn drain_in_order(stored: Map<u128, PacketView>, count: u128) -> (
    Seq<PacketView>,
    Map<u128, PacketView>,
    u128,
)
    decreases stored.dom().len(),
    when stored.dom().finite()
{
    if stored.dom().contains(count) {
        let r = drain_in_order(stored.remove(count), next_id(count));
        (seq![stored[count]] + r.0, r.1, r.2)
    } else {
        (Seq::empty(), stored, count)
    }
}

/// The contents of a map of packets.
pub open spec fn packet_views(m: Map<u128, Packet>) -> Map<u128, PacketView> {
    m.map_values(|p: Packet| p@)
}

/// The contents of a map of packets are keyed like the map.
pub proof fn lemma_packet_views_dom(m: Map<u128, Packet>)
    ensures
        packet_views(m).dom() == m.dom(),
        packet_views(m).dom().finite() == m.dom().finite(),
{
    assert(packet_views(m).dom() =~= m.dom());
}

/// The contents of a sequence of packets.
pub open spec fn packet_seq_views(s: Seq<Packet>) -> Seq<PacketView> {
    s.map_values(|p: Packet| p@)
}

/// The state of one channel of one connection, as plain values.
pub struct ChannelView {
    /// Id of the next packet to deliver (sequenced), or of the newest
    /// delivered one (droppable).
    pub receive_packet_count: u128,
    /// Id of the next packet to send.
    pub send_packet_count: u128,
    /// Sequenced packets that arrived before their turn, by id.
    pub stored_sequenced_packets: Map<u128, PacketView>,
    /// Recently received ids and when they arrived (ms).
    pub packets_already_received: Map<u128, u64>,
}

/// A reliable channel goes from `pre` to `post` when packet `id` arrives at
/// `now`: it is delivered (`deliver`) unless its id was received recently,
/// and its id is remembered.
pub open spec fn reliable_step(pre: ChannelView, post: ChannelView, id: u128, now: u64, deliver: bool) -> bool {
    &&& deliver == !pre.packets_already_received.dom().contains(id)
    &&& post.packets_already_received == (if deliver {
        pre.packets_already_received.insert(id, now)
    } else {
        pre.packets_already_received
    })
    &&& post.receive_packet_count == pre.receive_packet_count
    &&& post.send_packet_count == pre.send_packet_count
    &&& post.stored_sequenced_packets == pre.stored_sequenced_packets
}

/// A droppable channel goes from `pre` to `post` when packet `id` arrives:
/// it is delivered (`deliver`) when its id is newer than the newest delivered
/// one, or is 0, and then its id becomes the newest delivered one.
pub open spec fn droppable_step(pre: ChannelView, post: ChannelView, id: u128, deliver: bool) -> bool {
    &&& deliver == (pre.receive_packet_count < id || id == 0)
    &&& post.receive_packet_count == (if deliver { id } else { pre.receive_packet_count })
    &&& post.send_packet_count == pre.send_packet_count
    &&& post.stored_sequenced_packets == pre.stored_sequenced_packets
    &&& post.packets_already_received == pre.packets_already_received
}

/// A sequenced channel goes from `pre` to `post` when packet `id` with
/// content `p` arrives at `now`, delivering `delivered`: nothing happens if
/// the id was received recently; otherwise the packet is delivered if it is
/// the one expected next and kept if not, then every kept packet whose turn
/// has come is delivered, and the id is remembered.
pub open spec fn sequenced_step(
    pre: ChannelView,
    post: ChannelView,
    id: u128,
    p: PacketView,
    now: u64,
    delivered: Seq<PacketView>,
) -> bool {
    &&& post.send_packet_count == pre.send_packet_count
    &&& pre.packets_already_received.dom().contains(id) ==> {
        &&& delivered == Seq::<PacketView>::empty()
        &&& post.receive_packet_count == pre.receive_packet_count
        &&& post.stored_sequenced_packets == pre.stored_sequenced_packets
        &&& post.packets_already_received == pre.packets_already_received
    }
    &&& !pre.packets_already_received.dom().contains(id) ==> {
        let in_turn = pre.receive_packet_count == id;
        let first = if in_turn {
            seq![p]
        } else {
            Seq::empty()
        };
        let stored = if in_turn {
            pre.stored_sequenced_packets
        } else {
            pre.stored_sequenced_packets.insert(id, p)
        };
        let count = if in_turn {
            next_id(id)
        } else {
            pre.receive_packet_count
        };
        let r = drain_in_order(stored, count);
        &&& delivered == first + r.0
        &&& post.stored_sequenced_packets == r.1
        &&& post.receive_packet_count == r.2
        &&& post.packets_already_received == pre.packets_already_received.insert(id, now)
    }
}

/// The id `k` places after `c` (ids wrap around after the largest `u128`).
pub open spec fn id_after(c: u128, k: int) -> u128 {
    ((c + k) % (u128::MAX as int + 1)) as u128
}

/// Kept packets are delivered in order: the `k`-th delivered packet is the one
/// kept under the `k`-th id from `count` on, with no id skipped; the id
/// expected next is the first after them, and it is not kept; the packets
/// still kept are the others, unchanged.
pub proof fn lemma_drain_in_order(stored: Map<u128, PacketView>, count: u128)
    requires
        stored.dom().finite(),
    ensures
        ({
            let r = drain_in_order(stored, count);
            &&& forall|j: int|
                0 <= j < r.0.len() ==> stored.dom().contains(#[trigger] id_after(count, j)) && r.0[j]
                    == stored[id_after(count, j)]
            &&& r.2 == id_after(count, r.0.len() as int)
            &&& !r.1.dom().contains(r.2)
            &&& r.1.dom().finite()
            &&& forall|key: u128|
                #[trigger] r.1.dom().contains(key) ==> stored.dom().contains(key) && r.1[key] == stored[key]
            &&& forall|j: int| 0 <= j < r.0.len() ==> !r.1.dom().contains(#[trigger] id_after(count, j))
        }),
    decreases stored.dom().len(),
{
    let r = drain_in_order(stored, count);
    assert(id_after(count, 0) == count);
    if stored.dom().contains(count) {
        let rest = stored.remove(count);
        let n = next_id(count);
        lemma_drain_in_order(rest, n);
        let r2 = drain_in_order(rest, n);
        assert(r.0 == seq![stored[count]] + r2.0);
        assert forall|j: int| 0 <= j < r2.0.len() + 1 implies #[trigger] id_after(count, j + 1) == id_after(n, j) by {
        }
        assert forall|j: int|
            0 <= j < r.0.len() implies stored.dom().contains(#[trigger] id_after(count, j)) && r.0[j]
                == stored[id_after(count, j)] by {
            if j > 0 {
                assert(id_after(count, j) == id_after(n, j - 1));
                assert(r.0[j] == r2.0[j - 1]);
            }
        }
        assert(id_after(count, r.0.len() as int) == id_after(n, r2.0.len() as int));
        assert forall|j: int| 0 <= j < r.0.len() implies !r.1.dom().contains(#[trigger] id_after(count, j)) by {
            if j > 0 {
                assert(id_after(count, j) == id_after(n, j - 1));
            }
        }
    }
}

/// A reliable packet is delivered at most once while its id is remembered:
/// once delivered, the same id arriving again is not.
pub proof fn lemma_reliable_delivered_once(
    pre: ChannelView,
    mid: ChannelView,
    post: ChannelView,
    id: u128,
    t1: u64,
    t2: u64,
    second: bool,
)
    requires
        reliable_step(pre, mid, id, t1, true),
        reliable_step(mid, post, id, t2, second),
    ensures
        !second,
{
}

/// A sequenced packet is handled at most once while its id is remembered:
/// the same id arriving again delivers nothing and changes nothing.
pub proof fn lemma_sequenced_handled_once(
    pre: ChannelView,
    mid: ChannelView,
    post: ChannelView,
    id: u128,
    p1: PacketView,
    p2: PacketView,
    t1: u64,
    t2: u64,
    d1: Seq<PacketView>,
    d2: Seq<PacketView>,
)
    requires
        !pre.packets_already_received.dom().contains(id),
        sequenced_step(pre, mid, id, p1, t1, d1),
        sequenced_step(mid, post, id, p2, t2, d2),
    ensures
        d2 == Seq::<PacketView>::empty(),
        post.receive_packet_count == mid.receive_packet_count,
        post.stored_sequenced_packets == mid.stored_sequenced_packets,
{
    assert(mid.packets_already_received.dom().contains(id));
}

/// A sequenced packet that arrives in turn is delivered first, and the kept
/// packets that follow it without a gap come after it.
pub proof fn lemma_sequenced_in_turn_first(
    pre: ChannelView,
    post: ChannelView,
    id: u128,
    p: PacketView,
    now: u64,
    delivered: Seq<PacketView>,
)
    requires
        pre.stored_sequenced_packets.dom().finite(),
        !pre.packets_already_received.dom().contains(id),
        pre.receive_packet_count == id,
        sequenced_step(pre, post, id, p, now, delivered),
    ensures
        delivered.len() >= 1,
        delivered[0] == p,
        forall|j: int|
            1 <= j < delivered.len() ==> pre.stored_sequenced_packets.dom().contains(
                #[trigger] id_after(id, j),
            ) && delivered[j] == pre.stored_sequenced_packets[id_after(id, j)],
        !post.stored_sequenced_packets.dom().contains(post.receive_packet_count),
        post.receive_packet_count == id_after(id, delivered.len() as int),
{
    let stored = pre.stored_sequenced_packets;
    let n = next_id(id);
    lemma_drain_in_order(stored, n);
    let r = drain_in_order(stored, n);
    assert(delivered == seq![p] + r.0);
    assert forall|j: int| 0 <= j < r.0.len() + 1 implies #[trigger] id_after(id, j + 1) == id_after(n, j) by {
    }
    assert forall|j: int| 1 <= j < delivered.len() implies stored.dom().contains(
        #[trigger] id_after(id, j),
    ) && delivered[j] == stored[id_after(id, j)] by {
        assert(id_after(id, j) == id_after(n, j - 1));
        assert(delivered[j] == r.0[j - 1]);
    }
    assert(id_after(id, delivered.len() as int) == id_after(n, r.0.len() as int));
}

/// The id in the header at the end of the bytes of `p`.
pub open spec fn header_id(p: PacketView) -> u128 {
    header_at(p.data, p.data.len() - PACKET_HEADER_SIZE).packet_id
}

/// Whether every packet kept on channel `c` ends with a header whose id is
/// the one it is kept under.
pub open spec fn keyed_by_header_id(c: ChannelView) -> bool {
    forall|k: u128| #[trigger]
        c.stored_sequenced_packets.dom().contains(k) ==> c.stored_sequenced_packets[k].data.len()
            >= PACKET_HEADER_SIZE && header_id(c.stored_sequenced_packets[k]) == k
}

/// What a channel keeps true: finitely many kept packets, each under its
/// header id.
pub open spec fn channel_wf(c: ChannelView) -> bool {
    &&& c.stored_sequenced_packets.dom().finite()
    &&& keyed_by_header_id(c)
}

/// On a sequenced channel, packets are delivered by their header ids, in
/// order and without a gap: when a packet arrives whose header carries the
/// id it arrived with, the delivered packets carry the ids from the one
/// expected next on, the id expected next moves past them and is not kept
/// (unless the arrival was a repeat and changed nothing), and every kept
/// packet still ends with a header carrying the id it is kept under.
pub proof fn lemma_sequenced_in_header_order(
    pre: ChannelView,
    post: ChannelView,
    id: u128,
    p: PacketView,
    now: u64,
    delivered: Seq<PacketView>,
)
    requires
        channel_wf(pre),
        p.data.len() >= PACKET_HEADER_SIZE,
        header_id(p) == id,
        sequenced_step(pre, post, id, p, now, delivered),
    ensures
        channel_wf(post),
        forall|j: int|
            0 <= j < delivered.len() ==> (#[trigger] delivered[j]).data.len() >= PACKET_HEADER_SIZE
                && header_id(delivered[j]) == id_after(pre.receive_packet_count, j),
        post.receive_packet_count == id_after(pre.receive_packet_count, delivered.len() as int),
        !pre.packets_already_received.dom().contains(id) ==> !post.stored_sequenced_packets.dom().contains(
            post.receive_packet_count,
        ),
        pre.packets_already_received.dom().contains(id) ==> post.stored_sequenced_packets
            == pre.stored_sequenced_packets,
{
    let c0 = pre.receive_packet_count;
    assert(id_after(c0, 0) == c0);
    if !pre.packets_already_received.dom().contains(id) {
        let in_turn = c0 == id;
        let pv = pre.stored_sequenced_packets;
        let stored = if in_turn { pv } else { pv.insert(id, p) };
        let count = if in_turn { next_id(id) } else { c0 };
        assert forall|k: u128| #[trigger] stored.dom().contains(k) implies stored[k].data.len()
            >= PACKET_HEADER_SIZE && header_id(stored[k]) == k by {
            if k != id || in_turn {
                assert(pre.stored_sequenced_packets.dom().contains(k));
            }
        }
        lemma_drain_in_order(stored, count);
        let r = drain_in_order(stored, count);
        let first = if in_turn { seq![p] } else { Seq::<PacketView>::empty() };
        assert(delivered == first + r.0);
        assert forall|k: u128| #[trigger] post.stored_sequenced_packets.dom().contains(k) implies
            post.stored_sequenced_packets[k].data.len() >= PACKET_HEADER_SIZE && header_id(
            post.stored_sequenced_packets[k]) == k by {
            assert(r.1.dom().contains(k));
        }
        if in_turn {
            assert forall|j: int| 0 <= j < r.0.len() + 1 implies #[trigger] id_after(c0, j + 1) == id_after(count, j) by {
            }
            assert forall|j: int| 0 <= j < delivered.len() implies (#[trigger] delivered[j]).data.len()
                >= PACKET_HEADER_SIZE && header_id(delivered[j]) == id_after(c0, j) by {
                if j > 0 {
                    assert(id_after(c0, j) == id_after(count, j - 1));
                    assert(delivered[j] == r.0[j - 1]);
                    assert(stored.dom().contains(id_after(count, j - 1)));
                }
            }
            assert(id_after(c0, delivered.len() as int) == id_after(count, r.0.len() as int));
        } else {
            assert(delivered =~= r.0);
            assert forall|j: int| 0 <= j < delivered.len() implies (#[trigger] delivered[j]).data.len()
                >= PACKET_HEADER_SIZE && header_id(delivered[j]) == id_after(c0, j) by {
                assert(stored.dom().contains(id_after(count, j)));
            }
        }
        assert(!r.1.dom().contains(r.2));
    }
}

/// On a droppable channel every delivered packet is newer than the last
/// delivered one, unless its id is 0 (a sender that started over).
pub proof fn lemma_droppable_newer(pre: ChannelView, post: ChannelView, id: u128, deliver: bool)
    requires
        droppable_step(pre, post, id, deliver),
    ensures
        deliver ==> (id > pre.receive_packet_count || id == 0) && post.receive_packet_count == id,
        !deliver ==> post.receive_packet_count == pre.receive_packet_count,
{
}

/// The state of one channel of one connection.
pub struct ChannelState {
    /// Id of the next packet to deliver (sequenced), or of the newest
    /// delivered one (droppable).
    pub receive_packet_count: u128,
    /// Id of the next packet to send.
    pub send_packet_count: u128,
    /// Sequenced packets that arrived before their turn, by id.
    pub stored_sequenced_packets: HashMap<u128, Packet>,
    /// Recently received ids and when they arrived (ms).
    pub packets_already_received: HashMap<u128, u64>,
}

impl View for ChannelState {
    type V = ChannelView;

    open spec fn view(&self) -> ChannelView {
        ChannelView {
            receive_packet_count: self.receive_packet_count,
            send_packet_count: self.send_packet_count,
            stored_sequenced_packets: packet_views(self.stored_sequenced_packets@),
            packets_already_received: self.packets_already_received@,
        }
    }
}

impl ChannelState {
    pub fn new() -> (s: ChannelState)
        ensures
            is_fresh_channel(s@),
    {
        let s = ChannelState {
            receive_packet_count: 0,
            send_packet_count: 0,
            stored_sequenced_packets: HashMap::new(),
            packets_already_received: HashMap::new(),
        };
        assert(s@.stored_sequenced_packets =~= Map::<u128, PacketView>::empty());
        s
    }

    /// Forgets the received ids that arrived `RECEIVED_MEMORY_MS` or more before `now`.
    pub fn prune_received(&mut self, now: u64)
        ensures
            is_pruned_channel(final(self)@, old(self)@, now),
    {
        let ghost m = self.packets_already_received@;
        let ghost s0 = vstd::std_specs::hash::spec_hash_map_iter(&self.packets_already_received).remaining();
        assert(forall|k: u128| m.contains_key(k) ==> s0.contains((&k, &m[k])));
        let mut expired: Vec<u128> = Vec::new();
        for entry in it: self.packets_already_received.iter()
            invariant
                m == self.packets_already_received@,
                it.seq() == s0,
                forall|j: int|
                    0 <= j < expired@.len() ==> m.dom().contains(#[trigger] expired@[j])
                        && elapsed_at_least(m[expired@[j]], now, RECEIVED_MEMORY_MS),
                forall|j: int|
                    0 <= j < it.index() && elapsed_at_least(
                        *(#[trigger] it.seq()[j]).1,
                        now,
                        RECEIVED_MEMORY_MS,
                    ) ==> expired@.contains(*it.seq()[j].0),
        {
            let (k, t) = entry;
            let ghost before = expired@;
            if has_elapsed(*t, now, RECEIVED_MEMORY_MS) {
                expired.push(*k);
            }
            proof {
                assert(entry == it.seq()[it.index()]);
                assert forall|j: int|
                    0 <= j < it.index() + 1 && elapsed_at_least(
                        *(#[trigger] it.seq()[j]).1,
                        now,
                        RECEIVED_MEMORY_MS,
                    ) implies expired@.contains(*it.seq()[j].0) by {
                    if j < it.index() {
                        assert(before.contains(*it.seq()[j].0));
                        let w = choose|w: int| 0 <= w < before.len() && before[w] == *it.seq()[j].0;
                        assert(expired@[w] == before[w]);
                    } else {
                        assert(expired@[expired@.len() - 1] == *k);
                    }
                }
            }
        }
        let mut i: usize = 0;
        while i < expired.len()
            invariant
                0 <= i <= expired.len(),
                forall|j: int|
                    0 <= j < expired@.len() ==> m.dom().contains(#[trigger] expired@[j])
                        && elapsed_at_least(m[expired@[j]], now, RECEIVED_MEMORY_MS),
                forall|k: u128|
                    #[trigger] self.packets_already_received@.dom().contains(k) <==> (m.dom().contains(k)
                        && !expired@.take(i as int).contains(k)),
                forall|k: u128|
                    #[trigger] self.packets_already_received@.dom().contains(k) ==> self.packets_already_received@[k] == m[k],
                self.receive_packet_count == old(self).receive_packet_count,
                self.send_packet_count == old(self).send_packet_count,
                self.stored_sequenced_packets@ == old(self).stored_sequenced_packets@,
            decreases expired.len() - i,
        {
            let k = expired[i];
            let ghost prev = self.packets_already_received@;
            self.packets_already_received.remove(&k);
            assert(self.packets_already_received@ == prev.remove(k));
            assert(expired@.take(i + 1) =~= expired@.take(i as int).push(k));
            assert forall|k2: u128|
                #[trigger] self.packets_already_received@.dom().contains(k2) <==> (m.dom().contains(k2)
                    && !expired@.take(i + 1).contains(k2)) by {
                if k2 != k {
                    if expired@.take(i as int).contains(k2) {
                        let w = choose|w: int| 0 <= w < i && expired@.take(i as int)[w] == k2;
                        assert(expired@.take(i + 1)[w] == k2);
                    }
                    let t1 = expired@.take(i + 1);
                    if t1.contains(k2) {
                        let w = choose|w: int| 0 <= w < t1.len() && t1[w] == k2;
                        assert(expired@.take(i as int)[w] == k2);
                    }
                } else {
                    assert(expired@.take(i + 1)[i as int] == k);
                }
            }
            i = i + 1;
        }
        assert(expired@.take(expired.len() as int) =~= expired@);
        assert forall|k: u128| #[trigger] m.dom().contains(k) && elapsed_at_least(m[k], now, RECEIVED_MEMORY_MS)
            implies expired@.contains(k) by {
            let s = s0;
            assert(m.contains_key(k));
            assert(s.contains((&k, &m[k])));
            let j = choose|j: int| 0 <= j < s.len() && s[j] == (&k, &m[k]);
            assert(elapsed_at_least(*s[j].1, now, RECEIVED_MEMORY_MS));
        }
        assert(self.packets_already_received@ =~= prune_received(m, now));
    }
    /// A packet of a reliable channel arrived: it is delivered unless its id
    /// was received recently, and its id is remembered.
    pub fn receive_reliable(&mut self, packet_id: u128, now: u64) -> (deliver: bool)
        ensures
            reliable_step(old(self)@, final(self)@, packet_id, now, deliver),
    {
        if !self.packets_already_received.contains_key(&packet_id) {
            self.packets_already_received.insert(packet_id, now);
            true
        } else {
            false
        }
    }

    /// A packet of a droppable channel arrived: it is delivered when its id is
    /// newer than the newest delivered one, or is 0.
    pub fn receive_droppable(&mut self, packet_id: u128) -> (deliver: bool)
        ensures
            droppable_step(old(self)@, final(self)@, packet_id, deliver),
    {
        if self.receive_packet_count < packet_id || packet_id == 0 {
            self.receive_packet_count = packet_id;
            true
        } else {
            false
        }
    }

    /// A packet of a sequenced channel arrived. Unless its id was received
    /// recently, it is delivered if it is the one expected next, and kept
    /// otherwise; then every kept packet whose turn has come is delivered.
    /// Returns the delivered packets, in order.
    pub fn receive_sequenced(&mut self, packet_id: u128, packet: Packet, now: u64) -> (delivered:
        Vec<Packet>)
        ensures
            sequenced_step(old(self)@, final(self)@, packet_id, packet@, now, packet_seq_views(delivered@)),
    {
        let ghost pv = packet@;
        let mut delivered: Vec<Packet> = Vec::new();
        if self.packets_already_received.contains_key(&packet_id) {
            assert(packet_seq_views(delivered@) =~= Seq::<PacketView>::empty());
            return delivered;
        }
        if self.receive_packet_count == packet_id {
            self.receive_packet_count = if packet_id == u128::MAX {
                0
            } else {
                packet_id + 1
            };
            delivered.push(packet);
            assert(packet_seq_views(delivered@) =~= seq![pv]);
        } else {
            self.stored_sequenced_packets.insert(packet_id, packet);
            assert(packet_views(self.stored_sequenced_packets@) =~= packet_views(
                old(self).stored_sequenced_packets@,
            ).insert(packet_id, pv));
            assert(packet_seq_views(delivered@) =~= Seq::<PacketView>::empty());
        }
        proof {
            lemma_packet_views_dom(self.stored_sequenced_packets@);
        }
        let ghost first = packet_seq_views(delivered@);
        let ghost stored0 = packet_views(self.stored_sequenced_packets@);
        let ghost count0 = self.receive_packet_count;
        while self.stored_sequenced_packets.contains_key(&self.receive_packet_count)
            invariant
                packet_seq_views(delivered@) + drain_in_order(
                    packet_views(self.stored_sequenced_packets@),
                    self.receive_packet_count,
                ).0 == first + drain_in_order(stored0, count0).0,
                drain_in_order(packet_views(self.stored_sequenced_packets@), self.receive_packet_count).1
                    == drain_in_order(stored0, count0).1,
                drain_in_order(packet_views(self.stored_sequenced_packets@), self.receive_packet_count).2
                    == drain_in_order(stored0, count0).2,
                self.packets_already_received@ == old(self).packets_already_received@,
                self.send_packet_count == old(self).send_packet_count,
            decreases self.stored_sequenced_packets@.dom().len(),
        {
            let c = self.receive_packet_count;
            let ghost m = self.stored_sequenced_packets@;
            proof {
                lemma_packet_views_dom(m);
            }
            let removed = self.stored_sequenced_packets.remove(&c);
            proof {
                lemma_packet_views_dom(self.stored_sequenced_packets@);
            }
            match removed {
                Some(p) => {
                    assert(packet_views(m.remove(c)) =~= packet_views(m).remove(c));
                    let ghost r = drain_in_order(packet_views(m).remove(c), next_id(c));
                    assert(drain_in_order(packet_views(m), c).0 == seq![p@] + r.0);
                    self.receive_packet_count = if c == u128::MAX {
                        0
                    } else {
                        c + 1
                    };
                    let ghost before = packet_seq_views(delivered@);
                    delivered.push(p);
                    assert(packet_seq_views(delivered@) =~= before.push(p@));
                    assert(packet_seq_views(delivered@) + r.0 =~= before + (seq![p@] + r.0));
                },
                None => {
                    assert(false);
                },
            }
        }
        proof {
            lemma_packet_views_dom(self.stored_sequenced_packets@);
            let r = drain_in_order(packet_views(self.stored_sequenced_packets@), self.receive_packet_count);
            assert(r.0 == Seq::<PacketView>::empty());
            assert(r.1 == packet_views(self.stored_sequenced_packets@));
        }
        self.packets_already_received.insert(packet_id, now);
        assert(packet_seq_views(delivered@) + Seq::<PacketView>::empty() =~= packet_seq_views(
            delivered@,
        ));
        delivered
    }

    /// The id for the next packet sent on this channel; the counter moves on.
    pub fn take_send_id(&mut self) -> (id: u128)
        ensures
            id == old(self)@.send_packet_count,
            final(self)@ == (ChannelView { send_packet_count: next_id(id), ..old(self)@ }),
    {
        let id = self.send_packet_count;
        self.send_packet_count = if id == u128::MAX {
            0
        } else {
            id + 1
        };
        id
    }
}

/// A channel as it is when a connection starts: nothing sent, received or kept.
pub open spec fn is_fresh_channel(c: ChannelView) -> bool {
    &&& c.receive_packet_count == 0
    &&& c.send_packet_count == 0
    &&& c.stored_sequenced_packets == Map::<u128, PacketView>::empty()
    &&& c.packets_already_received == Map::<u128, u64>::empty()
}

/// `c` with its received ids pruned at `now`, all else kept.
pub open spec fn is_pruned_channel(c: ChannelView, old_c: ChannelView, now: u64) -> bool {
    c == (ChannelView {
        packets_already_received: prune_received(old_c.packets_already_received, now),
        ..old_c
    })
}

/// What one end of a connection knows about the other, as plain values.
pub struct PeerDataView {
    pub timer: u64,
    pub channels: Seq<ChannelView>,
}

impl PeerDataView {
    /// One state per channel, each well formed.
    pub open spec fn wf(self) -> bool {
        &&& self.channels.len() == CHANNEL_COUNT
        &&& forall|c: int| 0 <= c < CHANNEL_COUNT ==> channel_wf(#[trigger] self.channels[c])
    }
}

/// What one end of a connection knows about the other: when it last heard
/// from it (ms), and the state of each of the 32 channels.
pub struct PeerData {
    pub timer: u64,
    pub channels: Vec<ChannelState>,
}

impl View for PeerData {
    type V = PeerDataView;

    open spec fn view(&self) -> PeerDataView {
        PeerDataView { timer: self.timer, channels: self.channels@.map_values(|c: ChannelState| c@) }
    }
}

impl PeerData {
    /// One state per channel, each well formed.
    pub open spec fn wf(&self) -> bool {
        self@.wf()
    }

    /// A new connection, heard from now by the clock.
    pub fn new() -> (p: PeerData)
        ensures
            p.wf(),
            forall|c: int| 0 <= c < CHANNEL_COUNT ==> is_fresh_channel(#[trigger] p@.channels[c]),
    {
        let now = clock_millis();
        PeerData::new_at(now)
    }

    /// A new connection, heard from at `now`.
    pub fn new_at(now: u64) -> (p: PeerData)
        ensures
            p.wf(),
            p@.timer == now,
            forall|c: int| 0 <= c < CHANNEL_COUNT ==> is_fresh_channel(#[trigger] p@.channels[c]),
    {
        let mut channels: Vec<ChannelState> = Vec::new();
        let mut i: u8 = 0;
        while i < CHANNEL_COUNT
            invariant
                i <= CHANNEL_COUNT,
                channels@.len() == i,
                forall|c: int| 0 <= c < i ==> is_fresh_channel(#[trigger] channels@[c]@),
            decreases CHANNEL_COUNT - i,
        {
            channels.push(ChannelState::new());
            i = i + 1;
        }
        let p = PeerData { timer: now, channels };
        assert forall|c: int| 0 <= c < CHANNEL_COUNT implies channel_wf(#[trigger] p@.channels[c]) by {
            assert(is_fresh_channel(p.channels@[c]@));
        }
        p
    }

    /// Whether the peer has been silent for too long, by the clock.
    pub fn has_timed_out(&self) -> bool {
        let now = clock_millis();
        self.has_timed_out_at(now)
    }

    /// Whether the peer has been silent for `PEER_TIMEOUT_MS` or more at `now`.
    pub fn has_timed_out_at(&self, now: u64) -> (b: bool)
        ensures
            b == elapsed_at_least(self@.timer, now, PEER_TIMEOUT_MS),
    {
        has_elapsed(self.timer, now, PEER_TIMEOUT_MS)
    }

    /// The peer was heard from, by the clock.
    pub fn update_timeout(&mut self)
        ensures
            final(self)@.channels == old(self)@.channels,
    {
        let now = clock_millis();
        self.update_timeout_at(now);
    }

    /// The peer was heard from at `now`.
    pub fn update_timeout_at(&mut self, now: u64)
        ensures
            final(self)@ == (PeerDataView { timer: now, ..old(self)@ }),
    {
        self.timer = now;
    }

    /// The receive counter of `channel`.
    pub fn get_receive_channel_count(&self, channel: u8) -> (n: u128)
        requires
            self.wf(),
            channel < CHANNEL_COUNT,
        ensures
            n == self@.channels[channel as int].receive_packet_count,
    {
        self.channels[channel as usize].receive_packet_count
    }

    /// Forgets, on every channel, the received ids older than the memory window at `now`.
    pub fn prune_received(&mut self, now: u64)
        requires
            old(self).wf(),
        ensures
            final(self).wf(),
            final(self)@.timer == old(self)@.timer,
            forall|c: int|
                0 <= c < CHANNEL_COUNT ==> is_pruned_channel(
                    #[trigger] final(self)@.channels[c],
                    old(self)@.channels[c],
                    now,
                ),
    {
        proof {
            assert forall|c: int| 0 <= c < CHANNEL_COUNT implies channel_wf(#[trigger] self.channels@[c]@) by {
                assert(self@.channels[c] == self.channels@[c]@);
            }
        }
        let mut i: usize = 0;
        while i < CHANNEL_COUNT as usize
            invariant
                i <= CHANNEL_COUNT,
                self.channels@.len() == CHANNEL_COUNT,
                old(self).wf(),
                self.timer == old(self).timer,
                forall|c: int| 0 <= c < CHANNEL_COUNT ==> channel_wf(#[trigger] self.channels@[c]@),
                forall|c: int|
                    0 <= c < i ==> is_pruned_channel(
                        #[trigger] self.channels@[c]@,
                        old(self).channels@[c]@,
                        now,
                    ),
                forall|c: int| i <= c < CHANNEL_COUNT ==> #[trigger] self.channels@[c] == old(self).channels@[c],
            decreases CHANNEL_COUNT - i,
        {
            let ghost prev = self.channels@;
            self.channels[i].prune_received(now);
            proof {
                assert forall|c: int| 0 <= c < CHANNEL_COUNT && c != i implies #[trigger] self.channels@[c]
                    == prev[c] by {
                }
                assert(channel_wf(prev[i as int]@));
                assert(channel_wf(self.channels@[i as int]@));
            }
            i = i + 1;
        }
        proof {
            assert forall|c: int| 0 <= c < CHANNEL_COUNT implies channel_wf(#[trigger] self@.channels[c]) by {
                assert(self@.channels[c] == self.channels@[c]@);
            }
            assert forall|c: int| 0 <= c < CHANNEL_COUNT implies is_pruned_channel(
                #[trigger] self@.channels[c],
                old(self)@.channels[c],
                now,
            ) by {
                assert(self@.channels[c] == self.channels@[c]@);
                assert(old(self)@.channels[c] == old(self).channels@[c]@);
            }
        }
    }
}

} // verus!
