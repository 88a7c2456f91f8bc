//! Packets kept for retransmission until the peer acknowledges them.
use vstd::prelude::*;

use crate::clock::clock_millis;
use crate::packet::{Packet, PacketView};
use crate::peerdata::{elapsed_at_least, has_elapsed};

verus! {

/// How long (ms) a stored packet waits for its receipt before it is sent again.
pub const RESEND_AFTER_MS: u64 = 500;

/// Which packet a stored packet is: its peer, channel and id.
pub struct StoredPacketIdentifier {
    pub packet_id: u128,
    pub channel_id: u8,
    pub peer: String,
}

/// The identity of a stored packet as plain values.
pub open spec fn spi_key(spi: StoredPacketIdentifier) -> (Seq<char>, u8, u128) {
    (spi.peer@, spi.channel_id, spi.packet_id)
}

impl StoredPacketIdentifier {
    pub fn new(peer: String, channel_id: u8, packet_id: u128) -> (s: StoredPacketIdentifier)
        ensures
            s == (StoredPacketIdentifier { packet_id, channel_id, peer }),
    {
        StoredPacketIdentifier { peer, channel_id, packet_id }
    }

    pub fn clone(&self) -> (s: StoredPacketIdentifier)
        ensures
            spi_key(s) == spi_key(*self),
    {
        StoredPacketIdentifier {
            peer: self.peer.clone(),
            channel_id: self.channel_id,
            packet_id: self.packet_id,
        }
    }

    /// Whether two identifiers name the same packet.
    pub fn same_as(&self, other: &StoredPacketIdentifier) -> (b: bool)
        ensures
            b == (spi_key(*self) == spi_key(*other)),
    {
        self.packet_id == other.packet_id && self.channel_id == other.channel_id && self.peer
            == other.peer
    }
}

/// A packet waiting for its receipt, and when it was last sent (ms).
pub struct StoredPacket {
    pub timer: u64,
    pub packet: Packet,
}

impl StoredPacket {
    /// Stores a copy of `packet`, sent now.
    pub fn new(packet: &Packet) -> (s: StoredPacket)
        ensures
            s.packet@ == packet@,
    {
        let now = clock_millis();
        StoredPacket::new_at(packet, now)
    }

    /// Stores a copy of `packet`, sent at `now`.
    pub fn new_at(packet: &Packet, now: u64) -> (s: StoredPacket)
        ensures
            s.packet@ == packet@,
            s.timer == now,
    {
        StoredPacket { timer: now, packet: packet.clone() }
    }

    /// Whether the packet has waited long enough to be sent again, by the clock.
    pub fn has_timed_out(&self) -> bool {
        let now = clock_millis();
        self.has_timed_out_at(now)
    }

    /// Whether the packet has waited `RESEND_AFTER_MS` or more at time `now`.
    pub fn has_timed_out_at(&self, now: u64) -> (b: bool)
        ensures
            b == elapsed_at_least(self.timer, now, RESEND_AFTER_MS),
    {
        has_elapsed(self.timer, now, RESEND_AFTER_MS)
    }

    /// Restarts the wait, by the clock.
    pub fn update_timeout(&mut self)
        ensures
            final(self).packet@ == old(self).packet@,
    {
        let now = clock_millis();
        self.update_timeout_at(now);
    }

    /// Restarts the wait at time `now`.
    pub fn update_timeout_at(&mut self, now: u64)
        ensures
            final(self).packet == old(self).packet,
            final(self).timer == now,
    {
        self.timer = now;
    }
}

/// A stored packet with its identifier.
pub type Entry = (StoredPacketIdentifier, StoredPacket);

/// A stored packet as plain values: identity (peer, channel, id), when it was
/// last sent (ms), and its content.
pub struct StoredView {
    pub key: (Seq<char>, u8, u128),
    pub timer: u64,
    pub packet: PacketView,
}

pub open spec fn entry_view(e: Entry) -> StoredView {
    StoredView { key: spi_key(e.0), timer: e.1.timer, packet: e.1.packet@ }
}

/// No identity occurs twice in `s`.
pub open spec fn distinct_keys(s: Seq<StoredView>) -> bool {
    forall|i: int, j: int| 0 <= i < j < s.len() ==> (#[trigger] s[i]).key != (#[trigger] s[j]).key
}

/// Whether `s` holds a packet with identity `k`.
pub open spec fn has_key(s: Seq<StoredView>, k: (Seq<char>, u8, u128)) -> bool {
    exists|i: int| 0 <= i < s.len() && (#[trigger] s[i]).key == k
}

/// The entries of `s` whose identity is not `k`, in order.
pub open spec fn without_key(s: Seq<StoredView>, k: (Seq<char>, u8, u128)) -> Seq<StoredView> {
    s.filter(|e: StoredView| e.key != k)
}

/// Whether an entry is for a peer other than `peer`.
pub open spec fn not_for_peer(peer: Seq<char>) -> spec_fn(StoredView) -> bool {
    |e: StoredView| e.key.0 != peer
}

/// The entries of `s` for peers other than `peer`, in order.
pub open spec fn without_peer(s: Seq<StoredView>, peer: Seq<char>) -> Seq<StoredView> {
    s.filter(not_for_peer(peer))
}

/// `s` with `e` stored under its identity, replacing what was stored under it.
pub open spec fn with_entry(s: Seq<StoredView>, e: StoredView) -> Seq<StoredView> {
    without_key(s, e.key).push(e)
}

/// Whether the packet of `e` is due to be sent again at `now`.
pub open spec fn is_due(e: StoredView, now: u64) -> bool {
    elapsed_at_least(e.timer, now, RESEND_AFTER_MS)
}

/// The packets of `s` due to be sent again at `now`, with their peers, in order.
pub open spec fn due_packets(s: Seq<StoredView>, now: u64) -> Seq<(Seq<char>, Seq<u8>)> {
    s.filter(|e: StoredView| is_due(e, now)).map_values(|e: StoredView| (e.key.0, e.packet.data))
}

/// `e` after a resend round at `now`: a due packet's wait restarts at `now`.
pub open spec fn restarted(e: StoredView, now: u64) -> StoredView {
    if is_due(e, now) {
        StoredView { timer: now, ..e }
    } else {
        e
    }
}

/// Keeping only some entries keeps the identities distinct.
pub proof fn lemma_filter_distinct(s: Seq<StoredView>, pred: spec_fn(StoredView) -> bool)
    requires
        distinct_keys(s),
    ensures
        distinct_keys(s.filter(pred)),
    decreases s.len(),
{
    reveal(Seq::filter);
    if s.len() > 0 {
        let t = s.drop_last();
        assert(distinct_keys(t));
        lemma_filter_distinct(t, pred);
        let f = t.filter(pred);
        if pred(s.last()) {
            assert forall|i: int| 0 <= i < f.len() implies f[i].key != s.last().key by {
                t.lemma_filter_contains_rev(pred, f[i]);
                let j = choose|j: int| 0 <= j < t.len() && t[j] == f[i];
                assert(s[j] == t[j]);
            }
        }
    }
}

/// A receipt makes the packet it acknowledges leave the store, and only it.
pub proof fn lemma_receipt_forgets(s: Seq<StoredView>, k: (Seq<char>, u8, u128))
    ensures
        !has_key(without_key(s, k), k),
        forall|i: int| 0 <= i < s.len() && s[i].key != k ==> without_key(s, k).contains(#[trigger] s[i]),
        forall|e: StoredView| #[trigger] without_key(s, k).contains(e) ==> s.contains(e),
{
    let pred = |e: StoredView| e.key != k;
    let w = without_key(s, k);
    assert forall|i: int| 0 <= i < w.len() implies w[i].key != k by {
        s.lemma_filter_pred(pred, i);
    }
    assert forall|i: int| 0 <= i < s.len() && s[i].key != k implies w.contains(#[trigger] s[i]) by {
        s.lemma_filter_contains(pred, i);
    }
    assert forall|e: StoredView| #[trigger] w.contains(e) implies s.contains(e) by {
        s.lemma_filter_contains_rev(pred, e);
    }
}

/// A stored packet is found under its identity, the only one under it, and
/// the others stay.
pub proof fn lemma_stored_found(s: Seq<StoredView>, e: StoredView)
    requires
        distinct_keys(s),
    ensures
        distinct_keys(with_entry(s, e)),
        with_entry(s, e).last() == e,
        has_key(with_entry(s, e), e.key),
        forall|i: int| 0 <= i < s.len() && s[i].key != e.key ==> with_entry(s, e).contains(#[trigger] s[i]),
{
    let pred = |x: StoredView| x.key != e.key;
    let w = without_key(s, e.key);
    let r = with_entry(s, e);
    lemma_filter_distinct(s, pred);
    assert forall|i: int| 0 <= i < w.len() implies w[i].key != e.key by {
        s.lemma_filter_pred(pred, i);
    }
    assert(r[w.len() as int] == e);
    assert forall|i: int| 0 <= i < s.len() && s[i].key != e.key implies r.contains(#[trigger] s[i]) by {
        s.lemma_filter_contains(pred, i);
        let j = choose|j: int| 0 <= j < w.len() && w[j] == s[i];
        assert(r[j] == s[i]);
    }
}

/// A stored packet whose wait is over is sent again, to its peer, with its
/// bytes; nothing else is sent.
pub proof fn lemma_due_packet_resent(s: Seq<StoredView>, now: u64, i: int)
    requires
        0 <= i < s.len(),
        is_due(s[i], now),
    ensures
        due_packets(s, now).contains((s[i].key.0, s[i].packet.data)),
        forall|d: (Seq<char>, Seq<u8>)|
            #[trigger] due_packets(s, now).contains(d) ==> exists|j: int|
                0 <= j < s.len() && is_due(s[j], now) && d == (s[j].key.0, s[j].packet.data),
{
    let pred = |e: StoredView| is_due(e, now);
    let f = |e: StoredView| (e.key.0, e.packet.data);
    let fl = s.filter(pred);
    s.lemma_filter_contains(pred, i);
    let k = choose|k: int| 0 <= k < fl.len() && fl[k] == s[i];
    assert(due_packets(s, now)[k] == f(s[i]));
    assert forall|d: (Seq<char>, Seq<u8>)| #[trigger] due_packets(s, now).contains(d) implies exists|j: int|
        0 <= j < s.len() && is_due(s[j], now) && d == (s[j].key.0, s[j].packet.data) by {
        let m = choose|m: int| 0 <= m < due_packets(s, now).len() && due_packets(s, now)[m] == d;
        s.lemma_filter_pred(pred, m);
        s.lemma_filter_contains_rev(pred, fl[m]);
        let j = choose|j: int| 0 <= j < s.len() && s[j] == fl[m];
        assert(is_due(s[j], now) && d == (s[j].key.0, s[j].packet.data));
    }
}

/// `s` after a resend round at `now`.
pub open spec fn restart_all(s: Seq<StoredView>, now: u64) -> Seq<StoredView> {
    s.map_values(|e: StoredView| restarted(e, now))
}

/// A resend round keeps every stored packet, and restarts exactly the waits
/// that were over.
pub proof fn lemma_resend_keeps_all(s: Seq<StoredView>, now: u64)
    ensures
        restart_all(s, now).len() == s.len(),
        forall|i: int|
            0 <= i < s.len() ==> {
                let r = #[trigger] restart_all(s, now)[i];
                &&& r.key == s[i].key
                &&& r.packet == s[i].packet
                &&& r.timer == (if is_due(s[i], now) { now } else { s[i].timer })
            },
{
}

/// A datagram to send: its bytes and the peer they go to.
pub struct Datagram {
    pub peer: String,
    pub bytes: Vec<u8>,
}

/// A datagram as plain values.
pub open spec fn datagram_view(d: Datagram) -> (Seq<char>, Seq<u8>) {
    (d.peer@, d.bytes@)
}

/// The datagrams of `v` as plain values.
pub open spec fn datagrams_view(v: Seq<Datagram>) -> Seq<(Seq<char>, Seq<u8>)> {
    v.map_values(|d: Datagram| datagram_view(d))
}

/// The packets waiting for their receipts, at most one per identity.
pub struct StoredPackets {
    entries: Vec<Entry>,
}

impl View for StoredPackets {
    type V = Seq<StoredView>;

    closed spec fn view(&self) -> Seq<StoredView> {
        self.entries@.map_values(|e: Entry| entry_view(e))
    }
}

impl StoredPackets {
    /// No identity occurs twice.
    pub open spec fn wf(&self) -> bool {
        distinct_keys(self@)
    }

    pub fn new() -> (s: StoredPackets)
        ensures
            s.wf(),
            s@ == Seq::<StoredView>::empty(),
    {
        let s = StoredPackets { entries: Vec::new() };
        assert(s@ =~= Seq::<StoredView>::empty());
        s
    }

    /// Keeps, in order, the entries not named `spi` (when given), or else the
    /// entries not for `peer`; `pred` states which are kept.
    fn retain_by(&mut self, pred: Ghost<spec_fn(StoredView) -> bool>, spi: Option<&StoredPacketIdentifier>, peer: Option<&String>)
        requires
            old(self).wf(),
            spi is Some ==> pred@ == (|e: StoredView| e.key != spi_key(*spi->0)),
            spi is None ==> peer is Some && pred@ == not_for_peer(peer->0@),
        ensures
            final(self).wf(),
            final(self)@ == old(self)@.filter(pred@),
    {
        let mut old_entries: Vec<Entry> = Vec::new();
        std::mem::swap(&mut old_entries, &mut self.entries);
        let ghost s = old_entries@;
        let ghost sv = s.map_values(|e: Entry| entry_view(e));
        assert(sv == old(self)@);
        for e in it: old_entries
            invariant
                it.seq() == s,
                sv == s.map_values(|e: Entry| entry_view(e)),
                spi is Some ==> pred@ == (|e: StoredView| e.key != spi_key(*spi->0)),
                spi is None ==> peer is Some && pred@ == not_for_peer(peer->0@),
                self@ == sv.take(it.index()).filter(pred@),
        {
            proof {
                reveal(Seq::filter);
                assert(sv.take(it.index() + 1).drop_last() =~= sv.take(it.index()));
                assert(e == s[it.index()]);
                assert(sv.take(it.index() + 1).last() == entry_view(e));
            }
            let keep = match spi {
                Some(k) => !e.0.same_as(k),
                None => match peer {
                    Some(p) => e.0.peer != *p,
                    None => true,
                },
            };
            assert(keep == pred@(entry_view(e)));
            let ghost before = self@;
            if keep {
                self.entries.push(e);
                assert(self@ =~= before.push(entry_view(e)));
            }
        }
        proof {
            assert(sv.take(sv.len() as int) =~= sv);
            lemma_filter_distinct(sv, pred@);
        }
    }

    /// Forgets the packet named `spi`, if stored.
    pub fn remove(&mut self, spi: &StoredPacketIdentifier)
        requires
            old(self).wf(),
        ensures
            final(self).wf(),
            final(self)@ == without_key(old(self)@, spi_key(*spi)),
    {
        self.retain_by(Ghost(|e: StoredView| e.key != spi_key(*spi)), Some(spi), None);
    }

    /// Forgets every packet stored for `peer`.
    pub fn remove_peer(&mut self, peer: &String)
        requires
            old(self).wf(),
        ensures
            final(self).wf(),
            final(self)@ == without_peer(old(self)@, peer@),
    {
        self.retain_by(Ghost(not_for_peer(peer@)), None, Some(peer));
    }

    /// Stores `sp` under `spi`, replacing what was stored under it.
    pub fn insert(&mut self, spi: StoredPacketIdentifier, sp: StoredPacket)
        requires
            old(self).wf(),
        ensures
            final(self).wf(),
            final(self)@ == with_entry(old(self)@, entry_view((spi, sp))),
    {
        self.remove(&spi);
        let ghost before = self@;
        let ghost k = spi_key(spi);
        proof {
            let pred = |e: StoredView| e.key != k;
            assert forall|i: int| 0 <= i < before.len() implies before[i].key != k by {
                old(self)@.lemma_filter_pred(pred, i);
            }
        }
        self.entries.push((spi, sp));
        assert(self@ =~= before.push(entry_view((spi, sp))));
    }

    /// Sends again every packet that waited `RESEND_AFTER_MS` or more at
    /// `now`: returns them with their peers, in order, and restarts their waits.
    pub fn resend_due(&mut self, now: u64) -> (out: Vec<Datagram>)
        requires
            old(self).wf(),
        ensures
            final(self).wf(),
            final(self)@ == old(self)@.map_values(|e: StoredView| restarted(e, now)),
            datagrams_view(out@) == due_packets(old(self)@, now),
    {
        let ghost s = self@;
        let ghost pred = |e: StoredView| is_due(e, now);
        let ghost f = |e: StoredView| (e.key.0, e.packet.data);
        let mut out: Vec<Datagram> = Vec::new();
        let mut i: usize = 0;
        while i < self.entries.len()
            invariant
                0 <= i <= self.entries@.len(),
                self.entries@.len() == s.len(),
                pred == (|e: StoredView| is_due(e, now)),
                f == (|e: StoredView| (e.key.0, e.packet.data)),
                forall|j: int| 0 <= j < i ==> entry_view(#[trigger] self.entries@[j]) == restarted(s[j], now),
                forall|j: int| i <= j < s.len() ==> entry_view(#[trigger] self.entries@[j]) == s[j],
                datagrams_view(out@) == s.take(i as int).filter(pred).map_values(f),
            decreases s.len() - i,
        {
            proof {
                reveal(Seq::filter);
                assert(s.take(i + 1).drop_last() =~= s.take(i as int));
                assert(s.take(i + 1).last() == s[i as int]);
                assert(entry_view(self.entries@[i as int]) == s[i as int]);
            }
            let due = self.entries[i].1.has_timed_out_at(now);
            if due {
                let d = Datagram {
                    peer: self.entries[i].0.peer.clone(),
                    bytes: self.entries[i].1.packet.to_bytes(),
                };
                let ghost before = out@;
                let ghost dv = datagram_view(d);
                assert(dv == f(s[i as int]));
                out.push(d);
                assert(datagrams_view(out@) =~= datagrams_view(before).push(dv));
                self.entries[i].1.update_timeout_at(now);
            }
            i = i + 1;
        }
        proof {
            assert(s.take(s.len() as int) =~= s);
            assert(self@ =~= s.map_values(|e: StoredView| restarted(e, now)));
            let r = s.map_values(|e: StoredView| restarted(e, now));
            assert forall|a: int, b: int| 0 <= a < b < r.len() implies (#[trigger] r[a]).key != (#[trigger] r[b]).key by {
                assert(s[a].key != s[b].key);
            }
        }
        out
    }
}

} // verus!
