//! The server's side of the protocol, as a state machine: it is handed each
//! datagram that arrived (and the clock), updates its connections, queues
//! events for the application, and returns the datagrams to send. Sockets
//! stay with the caller.
use vstd::prelude::*;
use std::collections::VecDeque;

use crate::channel::{ChannelType, Channels, CHANNEL_COUNT, is_reliable_type};
use crate::messages::{
    data_bytes, header_only, header_packet, ping_bytes, receipt_bytes, status_bytes,
    status_packet,
};
use crate::packet::{
    header_at, INTERNAL_CHANNEL, Packet, PacketHeader, PacketType, PacketView,
    PACKET_HEADER_SIZE,
};
use crate::peerdata::{
    PeerData, PeerDataView, ChannelView, elapsed_at_least, is_fresh_channel, is_pruned_channel, next_id,
    reliable_step, sequenced_step, droppable_step, packet_seq_views, PEER_TIMEOUT_MS,
    header_id, channel_wf, lemma_sequenced_in_header_order, id_after, lemma_sequenced_in_turn_first,
};
use crate::stored::{
    Datagram, StoredPacket, StoredPacketIdentifier, StoredPackets, StoredView, datagrams_view,
    distinct_keys, due_packets, restarted, with_entry, without_key, lemma_due_packet_resent,
    RESEND_AFTER_MS, has_key, lemma_receipt_forgets,
};

verus! {

/// What happened, for the application to handle.
pub enum ServerEvent {
    /// A client connected (its address).
    Connect(String),
    /// A client disconnected.
    Disconnect(String),
    /// A client stopped answering and was dropped.
    Timeout(String),
    /// A packet arrived from a client (the packet, with its header, read from the start).
    Data(Packet, String),
    /// A client asked to connect while the server was full.
    ServerFull(String),
    /// A client pinged.
    Ping(String),
}

/// An event as plain values.
pub enum ServerEventView {
    Connect(Seq<char>),
    Disconnect(Seq<char>),
    Timeout(Seq<char>),
    Data(PacketView, Seq<char>),
    ServerFull(Seq<char>),
    Ping(Seq<char>),
}

impl View for ServerEvent {
    type V = ServerEventView;

    open spec fn view(&self) -> ServerEventView {
        match self {
            ServerEvent::Connect(a) => ServerEventView::Connect(a@),
            ServerEvent::Disconnect(a) => ServerEventView::Disconnect(a@),
            ServerEvent::Timeout(a) => ServerEventView::Timeout(a@),
            ServerEvent::Data(p, a) => ServerEventView::Data(p@, a@),
            ServerEvent::ServerFull(a) => ServerEventView::ServerFull(a@),
            ServerEvent::Ping(a) => ServerEventView::Ping(a@),
        }
    }
}

/// A connected client: its address and what the server knows of it.
pub struct Peer {
    pub address: String,
    pub data: PeerData,
}

/// A connected client as plain values.
pub struct PeerView {
    pub address: Seq<char>,
    pub data: PeerDataView,
}

impl View for Peer {
    type V = PeerView;

    open spec fn view(&self) -> PeerView {
        PeerView { address: self.address@, data: self.data@ }
    }
}

/// The state of a server as plain values.
pub struct ServerView {
    pub max_connections: usize,
    /// Connected clients, in the order they connected.
    pub peers: Seq<PeerView>,
    /// Events not yet taken by the application, oldest first.
    pub events: Seq<ServerEventView>,
    /// Id of the next connection answer.
    pub internal_packet_count: u128,
    /// Packets waiting for their receipts.
    pub stored: Seq<StoredView>,
    pub channels: Channels,
}

/// Whether `peers[i]` is the client at `a`.
pub open spec fn is_peer_at(peers: Seq<PeerView>, a: Seq<char>, i: int) -> bool {
    0 <= i < peers.len() && peers[i].address == a
}

/// Whether the client at `a` is connected.
pub open spec fn is_connected(peers: Seq<PeerView>, a: Seq<char>) -> bool {
    exists|i: int| #[trigger] is_peer_at(peers, a, i)
}

/// No address is connected twice.
pub open spec fn distinct_addresses(peers: Seq<PeerView>) -> bool {
    forall|i: int, j: int|
        0 <= i < j < peers.len() ==> (#[trigger] peers[i]).address != (#[trigger] peers[j]).address
}

/// What a server keeps true: one connection per address, no more than the
/// maximum, one state per channel, one stored packet per identity.
pub open spec fn server_wf(v: ServerView) -> bool {
    &&& distinct_addresses(v.peers)
    &&& v.peers.len() <= v.max_connections
    &&& forall|i: int| 0 <= i < v.peers.len() ==> (#[trigger] v.peers[i]).data.wf()
    &&& distinct_keys(v.stored)
}

/// The events of `v` as plain values.
pub open spec fn server_events_view(v: Seq<ServerEvent>) -> Seq<ServerEventView> {
    v.map_values(|e: ServerEvent| e@)
}

/// A connection that starts at `now`: heard from now, every channel fresh.
pub open spec fn is_new_peer_data(d: PeerDataView, now: u64) -> bool {
    &&& d.wf()
    &&& d.timer == now
    &&& forall|c: int| 0 <= c < CHANNEL_COUNT ==> is_fresh_channel(#[trigger] d.channels[c])
}

/// `post` is `pre` with only channel `c` of peer `i` changed.
pub open spec fn only_channel_changed(pre: Seq<PeerView>, post: Seq<PeerView>, i: int, c: int) -> bool {
    &&& post.len() == pre.len()
    &&& forall|j: int| 0 <= j < pre.len() && j != i ==> post[j] == pre[j]
    &&& post[i].address == pre[i].address
    &&& post[i].data.timer == pre[i].data.timer
    &&& post[i].data.channels.len() == pre[i].data.channels.len()
    &&& forall|d: int|
        0 <= d < pre[i].data.channels.len() && d != c ==> post[i].data.channels[d]
            == pre[i].data.channels[d]
}

/// The stored copy of a packet sent to `peer` on `channel` as packet `id`, at `now`.
pub open spec fn stored_entry(peer: Seq<char>, channel: u8, id: u128, now: u64, p: PacketView) -> StoredView {
    StoredView { key: (peer, channel, id), timer: now, packet: p }
}

/// A connection request from `from` (header `h`) was handled at `now`.
/// Unless `from` is already connected, the server accepts it when it has room
/// and refuses it otherwise; either way it answers (and keeps the answer until
/// it is acknowledged), and queues an event. The request is acknowledged.
pub open spec fn connect_step(
    pre: ServerView,
    post: ServerView,
    h: PacketHeader,
    from: Seq<char>,
    now: u64,
    out: Seq<(Seq<char>, Seq<u8>)>,
) -> bool {
    if is_connected(pre.peers, from) {
        post == pre && out == seq![(from, receipt_bytes(h))]
    } else {
        let accepted = pre.peers.len() < pre.max_connections;
        let status = status_bytes(accepted, pre.channels, pre.internal_packet_count);
        &&& out == seq![(from, status), (from, receipt_bytes(h))]
        &&& post.internal_packet_count == next_id(pre.internal_packet_count)
        &&& post.stored == with_entry(
            pre.stored,
            stored_entry(
                from,
                INTERNAL_CHANNEL,
                pre.internal_packet_count,
                now,
                PacketView { data: status, read_position: 0 },
            ),
        )
        &&& post.events == pre.events.push(
            if accepted {
                ServerEventView::Connect(from)
            } else {
                ServerEventView::ServerFull(from)
            },
        )
        &&& post.max_connections == pre.max_connections
        &&& post.channels == pre.channels
        &&& if accepted {
            &&& post.peers.len() == pre.peers.len() + 1
            &&& post.peers.drop_last() == pre.peers
            &&& post.peers.last().address == from
            &&& is_new_peer_data(post.peers.last().data, now)
        } else {
            post.peers == pre.peers
        }
    }
}

/// A disconnection from `from` was handled: it is acknowledged, and a
/// connected client is dropped (its stored packets stay) with an event.
pub open spec fn disconnect_step(
    pre: ServerView,
    post: ServerView,
    h: PacketHeader,
    from: Seq<char>,
    out: Seq<(Seq<char>, Seq<u8>)>,
) -> bool {
    &&& out == seq![(from, receipt_bytes(h))]
    &&& if is_connected(pre.peers, from) {
        forall|i: int|
            #[trigger] is_peer_at(pre.peers, from, i) ==> post == (ServerView {
                peers: pre.peers.remove(i),
                events: pre.events.push(ServerEventView::Disconnect(from)),
                ..pre
            })
    } else {
        post == pre
    }
}

/// A ping from `from` was handled at `now`: a connected client is marked as
/// heard from, pinged back, and an event is queued.
pub open spec fn ping_step(
    pre: ServerView,
    post: ServerView,
    from: Seq<char>,
    now: u64,
    out: Seq<(Seq<char>, Seq<u8>)>,
) -> bool {
    if is_connected(pre.peers, from) {
        &&& out == seq![(from, ping_bytes())]
        &&& forall|i: int|
            #[trigger] is_peer_at(pre.peers, from, i) ==> {
                &&& post.peers.len() == pre.peers.len()
                &&& forall|j: int| 0 <= j < pre.peers.len() && j != i ==> post.peers[j] == pre.peers[j]
                &&& post.peers[i].address == pre.peers[i].address
                &&& post.peers[i].data.channels == pre.peers[i].data.channels
                &&& post.peers[i].data.timer == now
            }
        &&& post == (ServerView {
            peers: post.peers,
            events: pre.events.push(ServerEventView::Ping(from)),
            ..pre
        })
    } else {
        post == pre && out == Seq::<(Seq<char>, Seq<u8>)>::empty()
    }
}

/// A user packet `p` (header `h`) from `from` was handled at `now`. Packets
/// from clients that are not connected are ignored. Otherwise the channel's
/// guarantee decides: reliable and sequenced packets are acknowledged and
/// delivered unless their id was received recently (sequenced ones in order
/// of id); nonreliable ones are delivered;
/// droppable ones are delivered when newer than the last delivered.
pub open spec fn data_step(
    pre: ServerView,
    post: ServerView,
    h: PacketHeader,
    p: PacketView,
    from: Seq<char>,
    now: u64,
    out: Seq<(Seq<char>, Seq<u8>)>,
) -> bool {
    if !is_connected(pre.peers, from) {
        post == pre && out == Seq::<(Seq<char>, Seq<u8>)>::empty()
    } else {
        let c = h.channel_id;
        &&& post == (ServerView { peers: post.peers, events: post.events, ..pre })
        &&& forall|i: int|
            #[trigger] is_peer_at(pre.peers, from, i) ==> {
                let pre_ch = pre.peers[i].data.channels[c as int];
                let post_ch = post.peers[i].data.channels[c as int];
                match pre.channels.type_of(c) {
                    ChannelType::Reliable => {
                        let deliver = !pre_ch.packets_already_received.dom().contains(h.packet_id);
                        &&& out == seq![(from, receipt_bytes(h))]
                        &&& only_channel_changed(pre.peers, post.peers, i, c as int)
                        &&& reliable_step(pre_ch, post_ch, h.packet_id, now, deliver)
                        &&& post.events == (if deliver {
                            pre.events.push(ServerEventView::Data(p, from))
                        } else {
                            pre.events
                        })
                    },
                    ChannelType::Sequenced => {
                        &&& out == seq![(from, receipt_bytes(h))]
                        &&& only_channel_changed(pre.peers, post.peers, i, c as int)
                        &&& exists|delivered: Seq<PacketView>|
                            {
                                &&& sequenced_step(pre_ch, post_ch, h.packet_id, p, now, delivered)
                                &&& post.events == pre.events + delivered.map_values(
                                    |d: PacketView| ServerEventView::Data(d, from),
                                )
                            }
                    },
                    ChannelType::Nonreliable => {
                        &&& out == Seq::<(Seq<char>, Seq<u8>)>::empty()
                        &&& post.peers == pre.peers
                        &&& post.events == pre.events.push(ServerEventView::Data(p, from))
                    },
                    ChannelType::NonreliableDropable => {
                        let deliver = pre_ch.receive_packet_count < h.packet_id || h.packet_id == 0;
                        &&& out == Seq::<(Seq<char>, Seq<u8>)>::empty()
                        &&& only_channel_changed(pre.peers, post.peers, i, c as int)
                        &&& droppable_step(pre_ch, post_ch, h.packet_id, deliver)
                        &&& post.events == (if deliver {
                            pre.events.push(ServerEventView::Data(p, from))
                        } else {
                            pre.events
                        })
                    },
                }
            }
    }
}

/// Whether the server can take `bytes` from `from` without a channel out of
/// range: a user packet from a connected client names one of the 32 channels.
pub open spec fn datagram_in_range(pre: ServerView, bytes: Seq<u8>, from: Seq<char>) -> bool {
    bytes.len() >= PACKET_HEADER_SIZE && is_connected(pre.peers, from) && header_at(
        bytes,
        bytes.len() - PACKET_HEADER_SIZE,
    ).packet_type == PacketType::Data ==> header_at(bytes, bytes.len() - PACKET_HEADER_SIZE).channel_id
        < CHANNEL_COUNT
}

/// The server took datagram `bytes` from `from` at `now`, going from `pre` to
/// `post` and sending `out`. Datagrams shorter than a header are ignored;
/// otherwise the header at the end says what the datagram is.
pub open spec fn server_received(
    pre: ServerView,
    post: ServerView,
    bytes: Seq<u8>,
    from: Seq<char>,
    now: u64,
    out: Seq<(Seq<char>, Seq<u8>)>,
) -> bool {
    if bytes.len() < PACKET_HEADER_SIZE {
        post == pre && out == Seq::<(Seq<char>, Seq<u8>)>::empty()
    } else {
        let h = header_at(bytes, bytes.len() - PACKET_HEADER_SIZE);
        match h.packet_type {
            PacketType::Connect => connect_step(pre, post, h, from, now, out),
            PacketType::Disconnect => disconnect_step(pre, post, h, from, out),
            PacketType::Data => data_step(
                pre,
                post,
                h,
                PacketView { data: bytes, read_position: 0 },
                from,
                now,
                out,
            ),
            PacketType::Ping => ping_step(pre, post, from, now, out),
            PacketType::Receipt => post == (ServerView {
                stored: without_key(pre.stored, (from, h.channel_id, h.packet_id)),
                ..pre
            }) && out == Seq::<(Seq<char>, Seq<u8>)>::empty(),
            PacketType::Undefined => post == pre && out == Seq::<(Seq<char>, Seq<u8>)>::empty(),
        }
    }
}

/// The packet sent for user packet `p` as packet `id` of `channel`: its
/// payload followed by a data header, read position kept.
pub open spec fn sent_packet(p: PacketView, channel: u8, id: u128) -> PacketView {
    PacketView { data: data_bytes(p.data, channel, id), read_position: p.read_position }
}

/// Channel `post` is channel `pre` after a send: the next send id moved on.
pub open spec fn send_advanced(pre: ChannelView, post: ChannelView) -> bool {
    &&& post.send_packet_count == next_id(pre.send_packet_count)
    &&& post.receive_packet_count == pre.receive_packet_count
    &&& post.stored_sequenced_packets == pre.stored_sequenced_packets
    &&& post.packets_already_received == pre.packets_already_received
}

/// User packet `p` was sent to `peer` on `channel` at `now`: it goes out with
/// a data header carrying the channel's next send id, and a copy is kept
/// until acknowledged when the channel is reliable or sequenced. Nothing
/// happens for a peer that is not connected.
pub open spec fn sent_to_peer(
    pre: ServerView,
    post: ServerView,
    peer: Seq<char>,
    channel: u8,
    p: PacketView,
    now: u64,
    out: Seq<(Seq<char>, Seq<u8>)>,
) -> bool {
    if !is_connected(pre.peers, peer) {
        post == pre && out == Seq::<(Seq<char>, Seq<u8>)>::empty()
    } else {
        forall|i: int|
            #[trigger] is_peer_at(pre.peers, peer, i) ==> {
                let id = pre.peers[i].data.channels[channel as int].send_packet_count;
                let sent = sent_packet(p, channel, id);
                &&& out == seq![(peer, sent.data)]
                &&& only_channel_changed(pre.peers, post.peers, i, channel as int)
                &&& send_advanced(
                    pre.peers[i].data.channels[channel as int],
                    post.peers[i].data.channels[channel as int],
                )
                &&& post == (ServerView { peers: post.peers, stored: post.stored, ..pre })
                &&& post.stored == (if is_reliable_type(pre.channels.type_of(channel)) {
                    with_entry(pre.stored, stored_entry(peer, channel, id, now, sent))
                } else {
                    pre.stored
                })
            }
    }
}

/// Whether `p` has been silent for too long at `now`.
pub open spec fn peer_timed_out(p: PeerView, now: u64) -> bool {
    elapsed_at_least(p.data.timer, now, PEER_TIMEOUT_MS)
}

/// The addresses of the peers in `peers` that timed out at `now`, in order.
pub open spec fn timed_out_addresses(peers: Seq<PeerView>, now: u64) -> Seq<Seq<char>> {
    peers.filter(|p: PeerView| peer_timed_out(p, now)).map_values(|p: PeerView| p.address)
}

/// The periodic upkeep at `now` took the server from `pre` to `post`, sending
/// `out`: peers silent for too long are dropped, with their stored packets,
/// and a time-out event each; the others forget old received ids; then every
/// stored packet that waited long enough is sent again.
pub open spec fn server_upkeep(pre: ServerView, post: ServerView, now: u64, out: Seq<(Seq<char>, Seq<u8>)>) -> bool {
    let kept = pre.peers.filter(|p: PeerView| !peer_timed_out(p, now));
    let gone = timed_out_addresses(pre.peers, now);
    let remaining = pre.stored.filter(|e: StoredView| !gone.contains(e.key.0));
    &&& post.peers.len() == kept.len()
    &&& forall|j: int|
        0 <= j < kept.len() ==> {
            &&& (#[trigger] post.peers[j]).address == kept[j].address
            &&& post.peers[j].data.timer == kept[j].data.timer
            &&& post.peers[j].data.wf()
            &&& forall|c: int|
                0 <= c < CHANNEL_COUNT ==> is_pruned_channel(
                    #[trigger] post.peers[j].data.channels[c],
                    kept[j].data.channels[c],
                    now,
                )
        }
    &&& post.events == pre.events + gone.map_values(|a: Seq<char>| ServerEventView::Timeout(a))
    &&& post.stored == remaining.map_values(|e: StoredView| restarted(e, now))
    &&& out == due_packets(remaining, now)
    &&& post.max_connections == pre.max_connections
    &&& post.internal_packet_count == pre.internal_packet_count
    &&& post.channels == pre.channels
}

/// The stored packets after user packet `p` was sent on reliable or
/// sequenced `channel` at `now` to each of `peers` in turn.
pub open spec fn store_all_sends(
    stored: Seq<StoredView>,
    peers: Seq<PeerView>,
    channel: u8,
    p: PacketView,
    now: u64,
) -> Seq<StoredView>
    decreases peers.len(),
{
    if peers.len() == 0 {
        stored
    } else {
        let prev = store_all_sends(stored, peers.drop_last(), channel, p, now);
        let id = peers.last().data.channels[channel as int].send_packet_count;
        with_entry(prev, stored_entry(peers.last().address, channel, id, now, sent_packet(p, channel, id)))
    }
}

/// What `sent_to_all` sends: to each peer, in order, the packet with its
/// channel's next send id.
pub open spec fn all_sends(peers: Seq<PeerView>, channel: u8, p: PacketView) -> Seq<(Seq<char>, Seq<u8>)> {
    Seq::new(
        peers.len(),
        |j: int|
            (
                peers[j].address,
                data_bytes(p.data, channel, peers[j].data.channels[channel as int].send_packet_count),
            ),
    )
}

/// User packet `p` was sent on `channel` at `now` to every connected client,
/// in connection order, as by `sent_to_peer` for each.
pub open spec fn sent_to_all(
    pre: ServerView,
    post: ServerView,
    channel: u8,
    p: PacketView,
    now: u64,
    out: Seq<(Seq<char>, Seq<u8>)>,
) -> bool {
    &&& out == all_sends(pre.peers, channel, p)
    &&& post.peers.len() == pre.peers.len()
    &&& forall|j: int|
        0 <= j < pre.peers.len() ==> {
            &&& (#[trigger] post.peers[j]).address == pre.peers[j].address
            &&& post.peers[j].data.timer == pre.peers[j].data.timer
            &&& post.peers[j].data.channels.len() == pre.peers[j].data.channels.len()
            &&& forall|d: int|
                0 <= d < pre.peers[j].data.channels.len() && d != channel ==> post.peers[j].data.channels[d]
                    == pre.peers[j].data.channels[d]
            &&& send_advanced(
                pre.peers[j].data.channels[channel as int],
                post.peers[j].data.channels[channel as int],
            )
        }
    &&& post.stored == (if is_reliable_type(pre.channels.type_of(channel)) {
        store_all_sends(pre.stored, pre.peers, channel, p, now)
    } else {
        pre.stored
    })
    &&& post == (ServerView { peers: post.peers, stored: post.stored, ..pre })
}

/// A datagram server's connection state.
pub struct Server {
    max_connections: usize,
    connections: Vec<Peer>,
    events: VecDeque<ServerEvent>,
    internal_packet_count: u128,
    stored_packets: StoredPackets,
    channels: Channels,
}

impl View for Server {
    type V = ServerView;

    closed spec fn view(&self) -> ServerView {
        ServerView {
            max_connections: self.max_connections,
            peers: self.connections@.map_values(|p: Peer| p@),
            events: server_events_view(self.events@),
            internal_packet_count: self.internal_packet_count,
            stored: self.stored_packets@,
            channels: self.channels,
        }
    }
}

/// A server stays well formed when one peer changes but keeps its address
/// and stays well formed itself.
proof fn lemma_wf_after_peer_update(pre: ServerView, post: ServerView, i: int)
    requires
        server_wf(pre),
        0 <= i < pre.peers.len(),
        post.peers.len() == pre.peers.len(),
        forall|j: int| 0 <= j < pre.peers.len() && j != i ==> post.peers[j] == pre.peers[j],
        post.peers[i].address == pre.peers[i].address,
        post.peers[i].data.wf(),
        post.max_connections == pre.max_connections,
        post.stored == pre.stored,
    ensures
        server_wf(post),
{
    assert forall|a: int, b: int| 0 <= a < b < post.peers.len() implies (#[trigger] post.peers[a]).address
        != (#[trigger] post.peers[b]).address by {
        assert(post.peers[a].address == pre.peers[a].address);
        assert(post.peers[b].address == pre.peers[b].address);
    }
    assert forall|j: int| 0 <= j < post.peers.len() implies (#[trigger] post.peers[j]).data.wf() by {
        if j != i {
            assert(post.peers[j] == pre.peers[j]);
        }
    }
}

/// In a list of distinct addresses, an address names one peer.
pub proof fn lemma_peer_unique(peers: Seq<PeerView>, a: Seq<char>, i: int, j: int)
    requires
        distinct_addresses(peers),
        is_peer_at(peers, a, i),
        is_peer_at(peers, a, j),
    ensures
        i == j,
{
    if i < j {
        assert(peers[i].address != peers[j].address);
    } else if j < i {
        assert(peers[j].address != peers[i].address);
    }
}

/// On a sequenced channel the server hands a client's packets to the
/// application by their header ids, in order and without a gap: the events
/// that a user packet from a connected client adds are data events from that
/// client whose packets carry the ids from the one the channel expected next
/// on; the channel then expects the id after them and, unless the packet was
/// a repeat, keeps no packet under that id. A repeat delivers nothing; a new
/// packet with the id expected next is delivered first; either way its id
/// is then remembered.
pub proof fn lemma_server_sequenced_in_header_order(
    pre: ServerView,
    post: ServerView,
    bytes: Seq<u8>,
    from: Seq<char>,
    i: int,
    now: u64,
    out: Seq<(Seq<char>, Seq<u8>)>,
)
    requires
        server_wf(pre),
        server_received(pre, post, bytes, from, now, out),
        bytes.len() >= PACKET_HEADER_SIZE,
        header_at(bytes, bytes.len() - PACKET_HEADER_SIZE).packet_type == PacketType::Data,
        header_at(bytes, bytes.len() - PACKET_HEADER_SIZE).channel_id < CHANNEL_COUNT,
        pre.channels.type_of(header_at(bytes, bytes.len() - PACKET_HEADER_SIZE).channel_id)
            == ChannelType::Sequenced,
        is_peer_at(pre.peers, from, i),
    ensures
        ({
            let h = header_at(bytes, bytes.len() - PACKET_HEADER_SIZE);
            let pre_ch = pre.peers[i].data.channels[h.channel_id as int];
            let post_ch = post.peers[i].data.channels[h.channel_id as int];
            &&& is_peer_at(post.peers, from, i)
            &&& exists|delivered: Seq<PacketView>|
                {
                    &&& post.events == pre.events + delivered.map_values(
                        |d: PacketView| ServerEventView::Data(d, from),
                    )
                    &&& forall|j: int|
                        0 <= j < delivered.len() ==> (#[trigger] delivered[j]).data.len() >= PACKET_HEADER_SIZE
                            && header_id(delivered[j]) == id_after(pre_ch.receive_packet_count, j)
                    &&& post_ch.receive_packet_count == id_after(
                        pre_ch.receive_packet_count,
                        delivered.len() as int,
                    )
                    &&& pre_ch.packets_already_received.dom().contains(h.packet_id) ==> delivered.len() == 0
                    &&& !pre_ch.packets_already_received.dom().contains(h.packet_id)
                        && pre_ch.receive_packet_count == h.packet_id ==> delivered.len() >= 1
                        && delivered[0] == (PacketView { data: bytes, read_position: 0 })
                }
            &&& post_ch.packets_already_received.dom().contains(h.packet_id)
            &&& !pre_ch.packets_already_received.dom().contains(h.packet_id)
                ==> !post_ch.stored_sequenced_packets.dom().contains(post_ch.receive_packet_count)
        }),
{
    let h = header_at(bytes, bytes.len() - PACKET_HEADER_SIZE);
    let c = h.channel_id as int;
    let p = PacketView { data: bytes, read_position: 0 };
    assert(is_connected(pre.peers, from));
    assert(pre.peers[i].data.wf());
    let pre_ch = pre.peers[i].data.channels[c];
    let post_ch = post.peers[i].data.channels[c];
    assert(channel_wf(pre_ch));
    let delivered = choose|delivered: Seq<PacketView>|
        {
            &&& sequenced_step(pre_ch, post_ch, h.packet_id, p, now, delivered)
            &&& post.events == pre.events + delivered.map_values(
                |d: PacketView| ServerEventView::Data(d, from),
            )
        };
    lemma_sequenced_in_header_order(pre_ch, post_ch, h.packet_id, p, now, delivered);
    if !pre_ch.packets_already_received.dom().contains(h.packet_id) && pre_ch.receive_packet_count
        == h.packet_id {
        lemma_sequenced_in_turn_first(pre_ch, post_ch, h.packet_id, p, now, delivered);
    }
}

/// The first `k` arrivals of a reliable user packet `d` from the client at
/// `peers[i]`, taken in turn: each one is acknowledged, the client stays at
/// `i`, and only the first can add an event.
proof fn lemma_server_reliable_prefix(
    states: Seq<ServerView>,
    outs: Seq<Seq<(Seq<char>, Seq<u8>)>>,
    times: Seq<u64>,
    d: Seq<u8>,
    a: Seq<char>,
    i: int,
    k: int,
)
    requires
        states.len() == outs.len() + 1,
        times.len() == outs.len(),
        forall|j: int|
            0 <= j < outs.len() ==> #[trigger] server_received(states[j], states[j + 1], d, a, times[j], outs[j]),
        d.len() >= PACKET_HEADER_SIZE,
        header_at(d, d.len() - PACKET_HEADER_SIZE).packet_type == PacketType::Data,
        header_at(d, d.len() - PACKET_HEADER_SIZE).channel_id < CHANNEL_COUNT,
        states[0].channels.type_of(header_at(d, d.len() - PACKET_HEADER_SIZE).channel_id)
            == ChannelType::Reliable,
        is_peer_at(states[0].peers, a, i),
        0 <= k <= outs.len(),
    ensures
        ({
            let h = header_at(d, d.len() - PACKET_HEADER_SIZE);
            let c = h.channel_id as int;
            let fresh = !states[0].peers[i].data.channels[c].packets_already_received.dom().contains(
                h.packet_id,
            );
            &&& is_peer_at(states[k].peers, a, i)
            &&& states[k].channels == states[0].channels
            &&& forall|j: int| 0 <= j < k ==> #[trigger] outs[j] == seq![(a, receipt_bytes(h))]
            &&& states[k].events == (if k >= 1 && fresh {
                states[0].events.push(ServerEventView::Data(PacketView { data: d, read_position: 0 }, a))
            } else {
                states[0].events
            })
            &&& k >= 1 ==> states[k].peers[i].data.channels[c].packets_already_received.dom().contains(
                h.packet_id,
            )
        }),
    decreases k,
{
    if k > 0 {
        lemma_server_reliable_prefix(states, outs, times, d, a, i, k - 1);
        let j = k - 1;
        assert(server_received(states[j], states[j + 1], d, a, times[j], outs[j]));
        assert(is_connected(states[j].peers, a));
    }
}

/// A reliable user packet that arrives any number of times in a row is
/// acknowledged every time and handed to the application at most once: on
/// its first arrival, and only if its id was not remembered; afterwards its
/// id is remembered.
pub proof fn lemma_server_reliable_copies(
    states: Seq<ServerView>,
    outs: Seq<Seq<(Seq<char>, Seq<u8>)>>,
    times: Seq<u64>,
    d: Seq<u8>,
    a: Seq<char>,
    i: int,
)
    requires
        states.len() == outs.len() + 1,
        times.len() == outs.len(),
        outs.len() >= 1,
        forall|j: int|
            0 <= j < outs.len() ==> #[trigger] server_received(states[j], states[j + 1], d, a, times[j], outs[j]),
        d.len() >= PACKET_HEADER_SIZE,
        header_at(d, d.len() - PACKET_HEADER_SIZE).packet_type == PacketType::Data,
        header_at(d, d.len() - PACKET_HEADER_SIZE).channel_id < CHANNEL_COUNT,
        states[0].channels.type_of(header_at(d, d.len() - PACKET_HEADER_SIZE).channel_id)
            == ChannelType::Reliable,
        is_peer_at(states[0].peers, a, i),
    ensures
        ({
            let h = header_at(d, d.len() - PACKET_HEADER_SIZE);
            let c = h.channel_id as int;
            let last = states[outs.len() as int];
            &&& forall|j: int| 0 <= j < outs.len() ==> #[trigger] outs[j] == seq![(a, receipt_bytes(h))]
            &&& last.events == (if !states[0].peers[i].data.channels[c].packets_already_received.dom().contains(
                h.packet_id,
            ) {
                states[0].events.push(ServerEventView::Data(PacketView { data: d, read_position: 0 }, a))
            } else {
                states[0].events
            })
            &&& is_peer_at(last.peers, a, i)
            &&& last.peers[i].data.channels[c].packets_already_received.dom().contains(h.packet_id)
        }),
{
    lemma_server_reliable_prefix(states, outs, times, d, a, i, outs.len() as int);
}

/// How the server answers a user packet `bytes` (header channel `c` and id
/// `id`) from the connected client at `peers[i]`, by the channel's type:
/// a reliable or sequenced packet gets exactly one receipt for `c` and `id`,
/// sent back to the client, whether it is new or a repeat; other packets
/// get no answer. A nonreliable packet is always handed to the application;
/// a droppable one exactly when `id` is 0 or newer than the last one handed
/// over, which `id` then becomes; a reliable one exactly when `id` was not
/// received recently.
pub proof fn lemma_server_user_data(
    pre: ServerView,
    post: ServerView,
    bytes: Seq<u8>,
    from: Seq<char>,
    i: int,
    now: u64,
    out: Seq<(Seq<char>, Seq<u8>)>,
)
    requires
        server_received(pre, post, bytes, from, now, out),
        bytes.len() >= PACKET_HEADER_SIZE,
        header_at(bytes, bytes.len() - PACKET_HEADER_SIZE).packet_type == PacketType::Data,
        header_at(bytes, bytes.len() - PACKET_HEADER_SIZE).channel_id < CHANNEL_COUNT,
        is_peer_at(pre.peers, from, i),
    ensures
        ({
            let h = header_at(bytes, bytes.len() - PACKET_HEADER_SIZE);
            let c = h.channel_id;
            let id = h.packet_id;
            let t = pre.channels.type_of(c);
            let pre_ch = pre.peers[i].data.channels[c as int];
            let post_ch = post.peers[i].data.channels[c as int];
            let data = ServerEventView::Data(PacketView { data: bytes, read_position: 0 }, from);
            &&& (t == ChannelType::Reliable || t == ChannelType::Sequenced) ==> out == seq![
                (from, header_only(PacketType::Receipt, c, id)),
            ]
            &&& (t == ChannelType::Nonreliable || t == ChannelType::NonreliableDropable) ==> out
                == Seq::<(Seq<char>, Seq<u8>)>::empty()
            &&& t == ChannelType::Nonreliable ==> post.events == pre.events.push(data)
            &&& t == ChannelType::NonreliableDropable ==> {
                &&& (pre_ch.receive_packet_count < id || id == 0) ==> post.events == pre.events.push(data)
                    && post_ch.receive_packet_count == id
                &&& !(pre_ch.receive_packet_count < id || id == 0) ==> post.events == pre.events
                    && post_ch.receive_packet_count == pre_ch.receive_packet_count
            }
            &&& t == ChannelType::Reliable ==> {
                &&& !pre_ch.packets_already_received.dom().contains(id) ==> post.events
                    == pre.events.push(data)
                &&& pre_ch.packets_already_received.dom().contains(id) ==> post.events == pre.events
                &&& post_ch.packets_already_received.dom().contains(id)
            }
        }),
{
    assert(is_connected(pre.peers, from));
}

/// A user packet `p` sent to the connected client at `peers[i]` on
/// `channel` goes out once, with a data header carrying the channel's next
/// send id, which moves on by one; a copy is kept under (client, channel, id), stamped `now`,
/// exactly when the channel is reliable or sequenced, and otherwise the
/// kept packets stay as they were.
pub proof fn lemma_server_send_keeps_acknowledged(
    pre: ServerView,
    post: ServerView,
    peer: Seq<char>,
    i: int,
    channel: u8,
    p: PacketView,
    now: u64,
    out: Seq<(Seq<char>, Seq<u8>)>,
)
    requires
        sent_to_peer(pre, post, peer, channel, p, now, out),
        is_peer_at(pre.peers, peer, i),
    ensures
        ({
            let t = pre.channels.type_of(channel);
            let id = pre.peers[i].data.channels[channel as int].send_packet_count;
            let bytes = data_bytes(p.data, channel, id);
            &&& out == seq![(peer, bytes)]
            &&& post.peers[i].data.channels[channel as int].send_packet_count == (if id == u128::MAX {
                0
            } else {
                (id + 1) as u128
            })
            &&& (t == ChannelType::Reliable || t == ChannelType::Sequenced) ==> post.stored.contains(
                StoredView {
                    key: (peer, channel, id),
                    timer: now,
                    packet: PacketView { data: bytes, read_position: p.read_position },
                },
            )
            &&& (t == ChannelType::Nonreliable || t == ChannelType::NonreliableDropable) ==> post.stored
                == pre.stored
        }),
{
    assert(is_connected(pre.peers, peer));
    let id = pre.peers[i].data.channels[channel as int].send_packet_count;
    let e = stored_entry(peer, channel, id, now, sent_packet(p, channel, id));
    let w = with_entry(pre.stored, e);
    assert(w[w.len() - 1] == e);
}

/// A user packet sent on a reliable or sequenced channel is sent again by
/// the next upkeep at which it has waited long enough, unless the client
/// timed out by then.
pub proof fn lemma_server_sent_is_resent(
    pre: ServerView,
    mid: ServerView,
    post: ServerView,
    peer: Seq<char>,
    i: int,
    channel: u8,
    p: PacketView,
    sent_at: u64,
    now: u64,
    out1: Seq<(Seq<char>, Seq<u8>)>,
    out2: Seq<(Seq<char>, Seq<u8>)>,
)
    requires
        server_wf(pre),
        sent_to_peer(pre, mid, peer, channel, p, sent_at, out1),
        server_upkeep(mid, post, now, out2),
        is_peer_at(pre.peers, peer, i),
        pre.channels.type_of(channel) == ChannelType::Reliable || pre.channels.type_of(channel)
            == ChannelType::Sequenced,
        elapsed_at_least(sent_at, now, RESEND_AFTER_MS),
        !elapsed_at_least(pre.peers[i].data.timer, now, PEER_TIMEOUT_MS),
    ensures
        out2.contains(
            (peer, data_bytes(p.data, channel, pre.peers[i].data.channels[channel as int].send_packet_count)),
        ),
{
    lemma_server_send_keeps_acknowledged(pre, mid, peer, i, channel, p, sent_at, out1);
    let id = pre.peers[i].data.channels[channel as int].send_packet_count;
    let bytes = data_bytes(p.data, channel, id);
    let e = StoredView {
        key: (peer, channel, id),
        timer: sent_at,
        packet: PacketView { data: bytes, read_position: p.read_position },
    };
    assert(mid.stored.contains(e));
    let gone = timed_out_addresses(mid.peers, now);
    let timed = |q: PeerView| peer_timed_out(q, now);
    let tf = mid.peers.filter(timed);
    assert(only_channel_changed(pre.peers, mid.peers, i, channel as int));
    assert(!gone.contains(peer)) by {
        if gone.contains(peer) {
            let k = choose|k: int| 0 <= k < gone.len() && gone[k] == peer;
            assert(gone[k] == tf[k].address);
            mid.peers.lemma_filter_pred(timed, k);
            assert(tf.contains(tf[k]));
            mid.peers.lemma_filter_contains_rev(timed, tf[k]);
            let j = choose|j: int| 0 <= j < mid.peers.len() && mid.peers[j] == tf[k];
            if j != i {
                assert(mid.peers[j] == pre.peers[j]);
                assert(pre.peers[j].address != pre.peers[i].address);
            }
        }
    }
    let keep = |x: StoredView| !gone.contains(x.key.0);
    let remaining = mid.stored.filter(keep);
    let m = choose|m: int| 0 <= m < mid.stored.len() && mid.stored[m] == e;
    mid.stored.lemma_filter_contains(keep, m);
    assert(remaining.contains(e));
    let r = choose|r: int| 0 <= r < remaining.len() && remaining[r] == e;
    lemma_due_packet_resent(remaining, now, r);
}

/// Storing the sends to clients with distinct addresses keeps, for each of
/// them, the packet sent to it.
proof fn lemma_store_all_sends_keeps(
    stored: Seq<StoredView>,
    peers: Seq<PeerView>,
    channel: u8,
    p: PacketView,
    now: u64,
)
    requires
        distinct_addresses(peers),
    ensures
        forall|j: int|
            0 <= j < peers.len() ==> store_all_sends(stored, peers, channel, p, now).contains(
                #[trigger] stored_entry(
                    peers[j].address,
                    channel,
                    peers[j].data.channels[channel as int].send_packet_count,
                    now,
                    sent_packet(p, channel, peers[j].data.channels[channel as int].send_packet_count),
                ),
            ),
    decreases peers.len(),
{
    if peers.len() > 0 {
        let init = peers.drop_last();
        assert(distinct_addresses(init)) by {
            assert forall|a: int, b: int| 0 <= a < b < init.len() implies (#[trigger] init[a]).address
                != (#[trigger] init[b]).address by {
                assert(init[a] == peers[a] && init[b] == peers[b]);
            }
        }
        lemma_store_all_sends_keeps(stored, init, channel, p, now);
        let prev = store_all_sends(stored, init, channel, p, now);
        let last = peers.last();
        let lid = last.data.channels[channel as int].send_packet_count;
        let e = stored_entry(last.address, channel, lid, now, sent_packet(p, channel, lid));
        let all = with_entry(prev, e);
        assert(all[all.len() - 1] == e);
        let pred = |x: StoredView| x.key != e.key;
        assert forall|j: int| 0 <= j < peers.len() implies all.contains(
            #[trigger] stored_entry(
                peers[j].address,
                channel,
                peers[j].data.channels[channel as int].send_packet_count,
                now,
                sent_packet(p, channel, peers[j].data.channels[channel as int].send_packet_count),
            ),
        ) by {
            if j < peers.len() - 1 {
                let jid = peers[j].data.channels[channel as int].send_packet_count;
                let ej = stored_entry(peers[j].address, channel, jid, now, sent_packet(p, channel, jid));
                assert(init[j] == peers[j]);
                assert(prev.contains(ej));
                let m = choose|m: int| 0 <= m < prev.len() && prev[m] == ej;
                assert(peers[j].address != peers[peers.len() - 1].address);
                prev.lemma_filter_contains(pred, m);
                let w = without_key(prev, e.key);
                let n = choose|n: int| 0 <= n < w.len() && w[n] == ej;
                assert(all[n] == ej);
            }
        }
    }
}

/// A user packet sent to every connected client goes out once to each, in
/// connection order, with that client's next send id on `channel`, which
/// moves on by one; a copy
/// for each client is kept, stamped `now`, exactly when the channel is
/// reliable or sequenced, and otherwise the kept packets stay as they were.
pub proof fn lemma_server_send_all_keeps_acknowledged(
    pre: ServerView,
    post: ServerView,
    channel: u8,
    p: PacketView,
    now: u64,
    out: Seq<(Seq<char>, Seq<u8>)>,
)
    requires
        server_wf(pre),
        sent_to_all(pre, post, channel, p, now, out),
    ensures
        ({
            let t = pre.channels.type_of(channel);
            &&& out.len() == pre.peers.len()
            &&& forall|j: int|
                0 <= j < pre.peers.len() ==> #[trigger] out[j] == (
                    pre.peers[j].address,
                    data_bytes(p.data, channel, pre.peers[j].data.channels[channel as int].send_packet_count),
                )
            &&& post.peers.len() == pre.peers.len()
            &&& forall|j: int|
                0 <= j < pre.peers.len() ==> {
                    let id = pre.peers[j].data.channels[channel as int].send_packet_count;
                    &&& (#[trigger] post.peers[j]).address == pre.peers[j].address
                    &&& post.peers[j].data.channels[channel as int].send_packet_count == (if id == u128::MAX {
                        0
                    } else {
                        (id + 1) as u128
                    })
                }
            &&& (t == ChannelType::Reliable || t == ChannelType::Sequenced) ==> forall|j: int|
                0 <= j < pre.peers.len() ==> post.stored.contains(
                    StoredView {
                        key: (
                            pre.peers[j].address,
                            channel,
                            pre.peers[j].data.channels[channel as int].send_packet_count,
                        ),
                        timer: now,
                        packet: PacketView {
                            data: data_bytes(
                                p.data,
                                channel,
                                pre.peers[j].data.channels[channel as int].send_packet_count,
                            ),
                            read_position: p.read_position,
                        },
                    },
                )
            &&& (t == ChannelType::Nonreliable || t == ChannelType::NonreliableDropable) ==> post.stored
                == pre.stored
        }),
{
    lemma_store_all_sends_keeps(pre.stored, pre.peers, channel, p, now);
    let t = pre.channels.type_of(channel);
    if t == ChannelType::Reliable || t == ChannelType::Sequenced {
        assert forall|j: int| 0 <= j < pre.peers.len() implies post.stored.contains(
            StoredView {
                key: (
                    pre.peers[j].address,
                    channel,
                    pre.peers[j].data.channels[channel as int].send_packet_count,
                ),
                timer: now,
                packet: PacketView {
                    data: data_bytes(
                        p.data,
                        channel,
                        pre.peers[j].data.channels[channel as int].send_packet_count,
                    ),
                    read_position: p.read_position,
                },
            },
        ) by {
            let jid = pre.peers[j].data.channels[channel as int].send_packet_count;
            assert(post.stored.contains(
                stored_entry(pre.peers[j].address, channel, jid, now, sent_packet(p, channel, jid)),
            ));
        }
    }
}

/// How the server answers a datagram `bytes` from `from` that carries no
/// user data for a connected client. A datagram shorter than a header, one
/// of undefined type, and user data from a client that is not connected
/// change nothing and get no answer. A connection request from a client
/// that is not connected is answered with the status (accepted exactly when
/// there is room, then with the server's channel masks, under the next
/// answer id) and acknowledged; the client is then connected exactly when
/// accepted, and a connect or server-full event is queued. A disconnection
/// is acknowledged and drops the client, with an event. A ping from a
/// connected client is answered with a ping and marks it heard from at
/// `now`. A receipt forgets the packet kept for (`from`, channel, id) and
/// keeps every other one.
pub proof fn lemma_server_control(
    pre: ServerView,
    post: ServerView,
    bytes: Seq<u8>,
    from: Seq<char>,
    now: u64,
    out: Seq<(Seq<char>, Seq<u8>)>,
)
    requires
        server_wf(pre),
        server_received(pre, post, bytes, from, now, out),
    ensures
        ({
            let h = header_at(bytes, bytes.len() - PACKET_HEADER_SIZE);
            let ack = (from, header_only(PacketType::Receipt, h.channel_id, h.packet_id));
            let connected = is_connected(pre.peers, from);
            &&& (bytes.len() < PACKET_HEADER_SIZE || h.packet_type == PacketType::Undefined || (
            h.packet_type == PacketType::Data && !connected)) ==> post == pre && out == Seq::<
                (Seq<char>, Seq<u8>),
            >::empty()
            &&& bytes.len() >= PACKET_HEADER_SIZE && h.packet_type == PacketType::Connect ==> {
                let room = pre.peers.len() < pre.max_connections;
                &&& connected ==> post == pre && out == seq![ack]
                &&& !connected ==> {
                    &&& out == seq![(from, status_bytes(room, pre.channels, pre.internal_packet_count)), ack]
                    &&& is_connected(post.peers, from) == room
                    &&& post.events == pre.events.push(
                        if room {
                            ServerEventView::Connect(from)
                        } else {
                            ServerEventView::ServerFull(from)
                        },
                    )
                    &&& post.stored.contains(
                        StoredView {
                            key: (from, INTERNAL_CHANNEL, pre.internal_packet_count),
                            timer: now,
                            packet: PacketView {
                                data: status_bytes(room, pre.channels, pre.internal_packet_count),
                                read_position: 0,
                            },
                        },
                    )
                }
            }
            &&& bytes.len() >= PACKET_HEADER_SIZE && h.packet_type == PacketType::Disconnect ==> {
                &&& out == seq![ack]
                &&& !is_connected(post.peers, from)
                &&& connected ==> post.peers.len() + 1 == pre.peers.len() && post.events == pre.events.push(
                    ServerEventView::Disconnect(from),
                )
                &&& !connected ==> post == pre
            }
            &&& bytes.len() >= PACKET_HEADER_SIZE && h.packet_type == PacketType::Ping ==> {
                &&& connected ==> out == seq![(from, header_only(PacketType::Ping, INTERNAL_CHANNEL, 0))]
                    && post.events == pre.events.push(ServerEventView::Ping(from)) && forall|i: int|
                    #[trigger] is_peer_at(pre.peers, from, i) ==> is_peer_at(post.peers, from, i)
                        && post.peers[i].data.timer == now
                &&& !connected ==> post == pre && out == Seq::<(Seq<char>, Seq<u8>)>::empty()
            }
            &&& bytes.len() >= PACKET_HEADER_SIZE && h.packet_type == PacketType::Receipt ==> {
                &&& out == Seq::<(Seq<char>, Seq<u8>)>::empty()
                &&& post.peers == pre.peers
                &&& !has_key(post.stored, (from, h.channel_id, h.packet_id))
                &&& forall|k: int|
                    0 <= k < pre.stored.len() && pre.stored[k].key != (from, h.channel_id, h.packet_id)
                        ==> post.stored.contains(#[trigger] pre.stored[k])
            }
        }),
{
    if bytes.len() >= PACKET_HEADER_SIZE {
        let h = header_at(bytes, bytes.len() - PACKET_HEADER_SIZE);
        let connected = is_connected(pre.peers, from);
        if h.packet_type == PacketType::Connect && !connected {
            let room = pre.peers.len() < pre.max_connections;
            let e = stored_entry(
                from,
                INTERNAL_CHANNEL,
                pre.internal_packet_count,
                now,
                PacketView { data: status_bytes(room, pre.channels, pre.internal_packet_count), read_position: 0 },
            );
            let w = with_entry(pre.stored, e);
            assert(w[w.len() - 1] == e);
            if room {
                assert(is_peer_at(post.peers, from, post.peers.len() - 1));
            } else {
                assert(post.peers == pre.peers);
            }
        } else if h.packet_type == PacketType::Disconnect && connected {
            let i = choose|i: int| #[trigger] is_peer_at(pre.peers, from, i);
            let rest = pre.peers.remove(i);
            assert(post.peers == rest);
            assert forall|j: int| !(#[trigger] is_peer_at(rest, from, j)) by {
                if 0 <= j < rest.len() {
                    let j2 = if j < i { j } else { j + 1 };
                    assert(rest[j] == pre.peers[j2]);
                    if rest[j].address == from {
                        lemma_peer_unique(pre.peers, from, i, j2);
                    }
                }
            }
        } else if h.packet_type == PacketType::Receipt {
            lemma_receipt_forgets(pre.stored, (from, h.channel_id, h.packet_id));
        }
    }
}

/// The server's upkeep at `now` drops exactly the clients silent for
/// `PEER_TIMEOUT_MS` or more: such a client is no longer connected, a
/// time-out event names it, and nothing kept for it is left; any other
/// client stays connected.
pub proof fn lemma_server_upkeep_drops_silent(
    pre: ServerView,
    post: ServerView,
    now: u64,
    out: Seq<(Seq<char>, Seq<u8>)>,
    a: Seq<char>,
    i: int,
)
    requires
        server_wf(pre),
        server_upkeep(pre, post, now, out),
        is_peer_at(pre.peers, a, i),
    ensures
        elapsed_at_least(pre.peers[i].data.timer, now, PEER_TIMEOUT_MS) ==> {
            &&& !is_connected(post.peers, a)
            &&& post.events.contains(ServerEventView::Timeout(a))
            &&& forall|k: int| 0 <= k < post.stored.len() ==> (#[trigger] post.stored[k]).key.0 != a
        },
        !elapsed_at_least(pre.peers[i].data.timer, now, PEER_TIMEOUT_MS) ==> is_connected(post.peers, a),
{
    let alive = |p: PeerView| !peer_timed_out(p, now);
    let timed = |p: PeerView| peer_timed_out(p, now);
    let kept = pre.peers.filter(alive);
    if elapsed_at_least(pre.peers[i].data.timer, now, PEER_TIMEOUT_MS) {
        assert forall|j: int| !(#[trigger] is_peer_at(post.peers, a, j)) by {
            if 0 <= j < post.peers.len() && post.peers[j].address == a {
                pre.peers.lemma_filter_pred(alive, j);
                assert(kept.contains(kept[j]));
                pre.peers.lemma_filter_contains_rev(alive, kept[j]);
                let m = choose|m: int| 0 <= m < pre.peers.len() && pre.peers[m] == kept[j];
                lemma_peer_unique(pre.peers, a, i, m);
            }
        }
        let tf = pre.peers.filter(timed);
        pre.peers.lemma_filter_contains(timed, i);
        let k = choose|k: int| 0 <= k < tf.len() && tf[k] == pre.peers[i];
        let gone = timed_out_addresses(pre.peers, now);
        assert(gone[k] == a);
        let to_timeout = |x: Seq<char>| ServerEventView::Timeout(x);
        assert(post.events[pre.events.len() + k] == ServerEventView::Timeout(a));
        let keep = |e: StoredView| !gone.contains(e.key.0);
        let remaining = pre.stored.filter(keep);
        assert forall|m: int| 0 <= m < post.stored.len() implies (#[trigger] post.stored[m]).key.0 != a by {
            pre.stored.lemma_filter_pred(keep, m);
            assert(post.stored[m].key == remaining[m].key);
            assert(gone.contains(a));
        }
    } else {
        pre.peers.lemma_filter_contains(alive, i);
        let j = choose|j: int| 0 <= j < kept.len() && kept[j] == pre.peers[i];
        assert(is_peer_at(post.peers, a, j));
    }
}

/// Sending to a client that is not connected sends nothing and changes
/// nothing.
pub proof fn lemma_server_send_to_stranger(
    pre: ServerView,
    post: ServerView,
    peer: Seq<char>,
    channel: u8,
    p: PacketView,
    now: u64,
    out: Seq<(Seq<char>, Seq<u8>)>,
)
    requires
        sent_to_peer(pre, post, peer, channel, p, now, out),
        forall|i: int| 0 <= i < pre.peers.len() ==> (#[trigger] pre.peers[i]).address != peer,
    ensures
        post == pre,
        out == Seq::<(Seq<char>, Seq<u8>)>::empty(),
{
    assert(!is_connected(pre.peers, peer));
}

/// A full server lets no one in: a connection request from a client that is
/// not connected leaves the connections as they were and reports it.
pub proof fn lemma_full_server_refuses(
    pre: ServerView,
    post: ServerView,
    h: PacketHeader,
    from: Seq<char>,
    now: u64,
    out: Seq<(Seq<char>, Seq<u8>)>,
)
    requires
        server_wf(pre),
        pre.peers.len() == pre.max_connections,
        !is_connected(pre.peers, from),
        connect_step(pre, post, h, from, now, out),
    ensures
        post.peers == pre.peers,
        post.events == pre.events.push(ServerEventView::ServerFull(from)),
        out[0] == (from, status_bytes(false, pre.channels, pre.internal_packet_count)),
{
}

/// Filtering twice keeps what both filters keep.
pub proof fn lemma_filter_filter<A>(s: Seq<A>, f: spec_fn(A) -> bool, g: spec_fn(A) -> bool)
    ensures
        s.filter(f).filter(g) == s.filter(|x: A| f(x) && g(x)),
    decreases s.len(),
{
    reveal(Seq::filter);
    if s.len() > 0 {
        let t = s.drop_last();
        let x = s.last();
        lemma_filter_filter(t, f, g);
        if f(x) {
            assert(t.filter(f).push(x).drop_last() =~= t.filter(f));
        }
    }
}

/// Keeping only some peers keeps the addresses distinct.
pub proof fn lemma_filter_distinct_addresses(s: Seq<PeerView>, pred: spec_fn(PeerView) -> bool)
    requires
        distinct_addresses(s),
    ensures
        distinct_addresses(s.filter(pred)),
    decreases s.len(),
{
    reveal(Seq::filter);
    if s.len() > 0 {
        let t = s.drop_last();
        assert(distinct_addresses(t));
        lemma_filter_distinct_addresses(t, pred);
        let f = t.filter(pred);
        if pred(s.last()) {
            assert forall|i: int| 0 <= i < f.len() implies f[i].address != s.last().address by {
                t.lemma_filter_contains_rev(pred, f[i]);
                let j = choose|j: int| 0 <= j < t.len() && t[j] == f[i];
                assert(s[j] == t[j]);
            }
        }
    }
}

/// A filter that keeps everything keeps the sequence.
pub proof fn lemma_filter_keeps_all<A>(s: Seq<A>, pred: spec_fn(A) -> bool)
    requires
        forall|x: A| #[trigger] pred(x),
    ensures
        s.filter(pred) == s,
    decreases s.len(),
{
    reveal(Seq::filter);
    if s.len() > 0 {
        lemma_filter_keeps_all(s.drop_last(), pred);
        assert(s.drop_last().push(s.last()) =~= s);
    }
}

impl Server {
    pub open spec fn wf(&self) -> bool {
        server_wf(self@)
    }

    /// A server with no connections that accepts up to `max_connections`,
    /// all channels nonreliable.
    pub fn new(max_connections: usize) -> (s: Server)
        ensures
            s.wf(),
            s@.max_connections == max_connections,
            s@.peers == Seq::<PeerView>::empty(),
            s@.events == Seq::<ServerEventView>::empty(),
            s@.internal_packet_count == 0,
            s@.stored == Seq::<StoredView>::empty(),
            s@.channels == (Channels { reliable: 0, sequence: 0 }),
    {
        let s = Server {
            max_connections,
            connections: Vec::new(),
            events: VecDeque::new(),
            internal_packet_count: 0,
            stored_packets: StoredPackets::new(),
            channels: Channels::new(),
        };
        assert(s@.events =~= Seq::<ServerEventView>::empty());
        assert(s@.peers =~= Seq::<PeerView>::empty());
        s
    }

    /// Takes the oldest event, if any.
    pub fn get_event(&mut self) -> (e: Option<ServerEvent>)
        requires
            old(self).wf(),
        ensures
            final(self).wf(),
            old(self)@.events.len() == 0 ==> e is None && final(self)@ == old(self)@,
            old(self)@.events.len() > 0 ==> e is Some && e->0@ == old(self)@.events[0]
                && final(self)@ == (ServerView { events: old(self)@.events.drop_first(), ..old(self)@ }),
    {
        let e = self.events.pop_front();
        assert(server_events_view(self.events@) =~= if old(self)@.events.len() > 0 {
            old(self)@.events.drop_first()
        } else {
            old(self)@.events
        });
        e
    }

    /// Gives `channel` the guarantee `channel_type`.
    pub fn setup_channel(&mut self, channel: u8, channel_type: ChannelType)
        requires
            old(self).wf(),
            channel < CHANNEL_COUNT,
        ensures
            final(self).wf(),
            final(self)@.channels.type_of(channel) == channel_type,
            forall|c: u8|
                c < CHANNEL_COUNT && c != channel ==> #[trigger] final(self)@.channels.type_of(c)
                    == old(self)@.channels.type_of(c),
            final(self)@ == (ServerView { channels: final(self)@.channels, ..old(self)@ }),
    {
        let ghost before = self.channels;
        self.channels.setup_channel(channel, channel_type);
        proof {
            crate::channel::lemma_setup_then_get(before, self.channels, channel, channel_type);
        }
    }

    /// The guarantee of `channel_id`.
    pub fn get_channel_type(&self, channel_id: u8) -> (t: ChannelType)
        requires
            channel_id < CHANNEL_COUNT,
        ensures
            t == self@.channels.type_of(channel_id),
    {
        self.channels.get_channel_type(channel_id)
    }

    /// Where the client at `address` is in the connection list, if connected.
    fn peer_index(&self, address: &String) -> (r: Option<usize>)
        requires
            self.wf(),
        ensures
            match r {
                Some(i) => is_peer_at(self@.peers, address@, i as int),
                None => !is_connected(self@.peers, address@),
            },
    {
        let mut i: usize = 0;
        while i < self.connections.len()
            invariant
                0 <= i <= self.connections@.len(),
                forall|j: int| 0 <= j < i ==> !is_peer_at(self@.peers, address@, j),
            decreases self.connections@.len() - i,
        {
            if self.connections[i].address == *address {
                return Some(i);
            }
            i = i + 1;
        }
        None
    }

    /// Answers a connection request from `peer` (`accepted` or not) and keeps
    /// the answer until it is acknowledged.
    fn send_connection_status(&mut self, peer: &String, accepted: bool, now: u64, out: &mut Vec<Datagram>)
        requires
            old(self).wf(),
        ensures
            final(self).wf(),
            datagrams_view(final(out)@) == datagrams_view(old(out)@).push(
                (peer@, status_bytes(accepted, old(self)@.channels, old(self)@.internal_packet_count)),
            ),
            final(self)@ == (ServerView {
                internal_packet_count: next_id(old(self)@.internal_packet_count),
                stored: with_entry(
                    old(self)@.stored,
                    stored_entry(
                        peer@,
                        INTERNAL_CHANNEL,
                        old(self)@.internal_packet_count,
                        now,
                        PacketView {
                            data: status_bytes(
                                accepted,
                                old(self)@.channels,
                                old(self)@.internal_packet_count,
                            ),
                            read_position: 0,
                        },
                    ),
                ),
                ..old(self)@
            }),
    {
        let id = self.internal_packet_count;
        let packet = status_packet(accepted, self.channels, id);
        let ghost before = out@;
        out.push(Datagram { peer: peer.clone(), bytes: packet.to_bytes() });
        assert(datagrams_view(out@) =~= datagrams_view(before).push(
            (peer@, status_bytes(accepted, self.channels, id)),
        ));
        let spi = StoredPacketIdentifier::new(peer.clone(), INTERNAL_CHANNEL, id);
        let sp = StoredPacket::new_at(&packet, now);
        self.stored_packets.insert(spi, sp);
        self.internal_packet_count = if id == u128::MAX {
            0
        } else {
            id + 1
        };
    }

    /// Queues the receipt that acknowledges the packet with header `h` from `peer`.
    fn send_receipt(peer: &String, h: &PacketHeader, out: &mut Vec<Datagram>)
        ensures
            datagrams_view(final(out)@) == datagrams_view(old(out)@).push((peer@, receipt_bytes(*h))),
    {
        let packet = header_packet(PacketType::Receipt, h.channel_id, h.packet_id);
        let ghost before = out@;
        out.push(Datagram { peer: peer.clone(), bytes: packet.to_bytes() });
        assert(datagrams_view(out@) =~= datagrams_view(before).push((peer@, receipt_bytes(*h))));
    }

    /// Queues an event.
    fn push_event(&mut self, e: ServerEvent)
        ensures
            final(self)@ == (ServerView { events: old(self)@.events.push(e@), ..old(self)@ }),
    {
        self.events.push_back(e);
        assert(server_events_view(self.events@) =~= server_events_view(old(self).events@).push(e@));
    }

    fn handle_connect(
        &mut self,
        from: &String,
        h: &PacketHeader,
        idx: Option<usize>,
        now: u64,
        out: &mut Vec<Datagram>,
    )
        requires
            old(self).wf(),
            datagrams_view(old(out)@) == Seq::<(Seq<char>, Seq<u8>)>::empty(),
            match idx {
                Some(i) => is_peer_at(old(self)@.peers, from@, i as int),
                None => !is_connected(old(self)@.peers, from@),
            },
        ensures
            final(self).wf(),
            connect_step(old(self)@, final(self)@, *h, from@, now, datagrams_view(final(out)@)),
    {
        if idx.is_none() {
            if self.connections.len() < self.max_connections {
                let ghost peers0 = self@.peers;
                self.connections.push(Peer { address: from.clone(), data: PeerData::new_at(now) });
                proof {
                    assert(self@.peers.len() == peers0.len() + 1);
                    assert forall|a: int, b: int| 0 <= a < b < self@.peers.len() implies (
                    #[trigger] self@.peers[a]).address != (#[trigger] self@.peers[b]).address by {
                        if b == peers0.len() {
                            assert(!is_peer_at(peers0, from@, a));
                        } else {
                            assert(self@.peers[a] == peers0[a]);
                            assert(self@.peers[b] == peers0[b]);
                        }
                    }
                    assert(self@.peers.drop_last() =~= peers0);
                    assert forall|j: int| 0 <= j < self@.peers.len() implies (#[trigger] self@.peers[j]).data.wf() by {
                        if j < peers0.len() {
                            assert(self@.peers[j] == peers0[j]);
                        }
                    }
                }
                self.push_event(ServerEvent::Connect(from.clone()));
                self.send_connection_status(from, true, now, out);
            } else {
                self.push_event(ServerEvent::ServerFull(from.clone()));
                self.send_connection_status(from, false, now, out);
            }
            Self::send_receipt(from, h, out);
            let ghost accepted = old(self)@.peers.len() < old(self)@.max_connections;
            assert(datagrams_view(out@) =~= seq![
                (from@, status_bytes(accepted, old(self)@.channels, old(self)@.internal_packet_count)),
                (from@, receipt_bytes(*h)),
            ]);
        } else {
            proof {
                let i = idx->0 as int;
                assert(is_peer_at(old(self)@.peers, from@, i));
            }
            Self::send_receipt(from, h, out);
            assert(datagrams_view(out@) =~= seq![(from@, receipt_bytes(*h))]);
        }
    }

    fn handle_data(
        &mut self,
        i: usize,
        h: PacketHeader,
        packet: Packet,
        from: &String,
        now: u64,
        out: &mut Vec<Datagram>,
    )
        requires
            old(self).wf(),
            datagrams_view(old(out)@) == Seq::<(Seq<char>, Seq<u8>)>::empty(),
            is_peer_at(old(self)@.peers, from@, i as int),
            h.channel_id < CHANNEL_COUNT,
            packet@.data.len() >= PACKET_HEADER_SIZE,
            header_id(packet@) == h.packet_id,
        ensures
            final(self).wf(),
            data_step(old(self)@, final(self)@, h, packet@, from@, now, datagrams_view(final(out)@)),
    {
        let c = h.channel_id as usize;
        let ghost pre = self@;
        let ghost pv = packet@;
        proof {
            assert(self@.peers[i as int].data.wf());
        }
        match self.channels.get_channel_type(h.channel_id) {
            ChannelType::Reliable => {
                Self::send_receipt(from, &h, out);
                let deliver = self.connections[i].data.channels[c].receive_reliable(h.packet_id, now);
                if deliver {
                    self.push_event(ServerEvent::Data(packet, from.clone()));
                }
            },
            ChannelType::Sequenced => {
                Self::send_receipt(from, &h, out);
                let delivered = self.connections[i].data.channels[c].receive_sequenced(
                    h.packet_id,
                    packet,
                    now,
                );
                let ghost dv = packet_seq_views(delivered@);
                proof {
                    lemma_sequenced_in_header_order(
                        pre.peers[i as int].data.channels[c as int],
                        self@.peers[i as int].data.channels[c as int],
                        h.packet_id,
                        pv,
                        now,
                        dv,
                    );
                }
                let ghost e0 = self@.events;
                let ghost mk = |d: PacketView| ServerEventView::Data(d, from@);
                let ghost mid = self@;
                for p in it: delivered
                    invariant
                        it.seq() == delivered@,
                        dv == packet_seq_views(delivered@),
                        mk == (|d: PacketView| ServerEventView::Data(d, from@)),
                        self@ == (ServerView { events: self@.events, ..mid }),
                        self@.events == e0 + dv.take(it.index()).map_values(mk),
                {
                    let ghost before = self@.events;
                    self.push_event(ServerEvent::Data(p, from.clone()));
                    assert(dv.take(it.index() + 1) =~= dv.take(it.index()).push(p@));
                    assert(self@.events =~= e0 + dv.take(it.index() + 1).map_values(mk));
                }
                assert(dv.take(dv.len() as int) =~= dv);
            },
            ChannelType::Nonreliable => {
                self.push_event(ServerEvent::Data(packet, from.clone()));
            },
            ChannelType::NonreliableDropable => {
                let deliver = self.connections[i].data.channels[c].receive_droppable(h.packet_id);
                if deliver {
                    self.push_event(ServerEvent::Data(packet, from.clone()));
                }
            },
        }
        proof {
            assert forall|j: int| #[trigger] is_peer_at(pre.peers, from@, j) implies j == i by {
                lemma_peer_unique(pre.peers, from@, i as int, j);
            }
            assert(is_connected(pre.peers, from@));
            let pre_chs = pre.peers[i as int].data.channels;
            let post_chs = self@.peers[i as int].data.channels;
            assert(channel_wf(pre_chs[c as int]));
            assert(channel_wf(post_chs[c as int]));
            assert forall|d: int| 0 <= d < CHANNEL_COUNT implies channel_wf(#[trigger] post_chs[d]) by {
                if d != c {
                    assert(post_chs[d] == pre_chs[d]);
                }
            }
            assert(self@.peers[i as int].data.wf());
            lemma_wf_after_peer_update(pre, self@, i as int);
        }
    }

    fn handle_disconnect(&mut self, from: &String, h: &PacketHeader, idx: Option<usize>, out: &mut Vec<Datagram>)
        requires
            old(self).wf(),
            datagrams_view(old(out)@) == Seq::<(Seq<char>, Seq<u8>)>::empty(),
            match idx {
                Some(i) => is_peer_at(old(self)@.peers, from@, i as int),
                None => !is_connected(old(self)@.peers, from@),
            },
        ensures
            final(self).wf(),
            disconnect_step(old(self)@, final(self)@, *h, from@, datagrams_view(final(out)@)),
    {
        Self::send_receipt(from, h, out);
        assert(datagrams_view(out@) =~= seq![(from@, receipt_bytes(*h))]);
        match idx {
            Some(i) => {
                let ghost pre = self@;
                self.connections.remove(i);
                self.push_event(ServerEvent::Disconnect(from.clone()));
                proof {
                    let post = self@.peers;
                    assert(post =~= pre.peers.remove(i as int));
                    assert forall|a: int, b: int| 0 <= a < b < post.len() implies (#[trigger] post[a]).address
                        != (#[trigger] post[b]).address by {
                        let a2 = if a < i { a } else { a + 1 };
                        let b2 = if b < i { b } else { b + 1 };
                        assert(post[a] == pre.peers[a2]);
                        assert(post[b] == pre.peers[b2]);
                        assert(pre.peers[a2].address != pre.peers[b2].address);
                    }
                    assert forall|j: int| 0 <= j < post.len() implies (#[trigger] post[j]).data.wf() by {
                        let j2 = if j < i { j } else { j + 1 };
                        assert(post[j] == pre.peers[j2]);
                    }
                    assert forall|j: int| #[trigger] is_peer_at(pre.peers, from@, j) implies j == i by {
                        lemma_peer_unique(pre.peers, from@, i as int, j);
                    }
                    assert(is_connected(pre.peers, from@));
                }
            },
            None => {},
        }
    }

    fn handle_ping(&mut self, from: &String, idx: Option<usize>, now: u64, out: &mut Vec<Datagram>)
        requires
            old(self).wf(),
            datagrams_view(old(out)@) == Seq::<(Seq<char>, Seq<u8>)>::empty(),
            match idx {
                Some(i) => is_peer_at(old(self)@.peers, from@, i as int),
                None => !is_connected(old(self)@.peers, from@),
            },
        ensures
            final(self).wf(),
            ping_step(old(self)@, final(self)@, from@, now, datagrams_view(final(out)@)),
    {
        match idx {
            Some(i) => {
                let ghost pre = self@;
                self.connections[i].data.update_timeout_at(now);
                let packet = header_packet(PacketType::Ping, INTERNAL_CHANNEL, 0);
                out.push(Datagram { peer: from.clone(), bytes: packet.to_bytes() });
                assert(datagrams_view(out@) =~= seq![(from@, ping_bytes())]);
                self.push_event(ServerEvent::Ping(from.clone()));
                proof {
                    assert forall|j: int| #[trigger] is_peer_at(pre.peers, from@, j) implies j == i by {
                        lemma_peer_unique(pre.peers, from@, i as int, j);
                    }
                    assert(is_connected(pre.peers, from@));
                    assert(pre.peers[i as int].data.wf());
                    assert(self@.peers[i as int].data.channels == pre.peers[i as int].data.channels);
                    assert(self@.peers[i as int].data.wf());
                    lemma_wf_after_peer_update(pre, self@, i as int);
                }
            },
            None => {},
        }
    }

    /// Takes a datagram `datagram` that arrived from `from` at `now`: updates
    /// the connections, queues events, and returns the datagrams to send.
    pub fn handle_datagram(&mut self, datagram: &[u8], from: &String, now: u64) -> (out: Vec<Datagram>)
        requires
            old(self).wf(),
            datagram_in_range(old(self)@, datagram@, from@),
        ensures
            final(self).wf(),
            server_received(old(self)@, final(self)@, datagram@, from@, now, datagrams_view(out@)),
    {
        let mut out: Vec<Datagram> = Vec::new();
        assert(datagrams_view(out@) =~= Seq::<(Seq<char>, Seq<u8>)>::empty());
        let size = datagram.len();
        if size < PACKET_HEADER_SIZE {
            return out;
        }
        let mut packet = Packet::new();
        packet.push_bytes(datagram);
        assert(packet@.data =~= datagram@);
        packet.set_read_position(size - PACKET_HEADER_SIZE);
        let header = packet.read::<PacketHeader>();
        packet.reset_read_position();
        let idx = self.peer_index(from);
        match header.packet_type {
            PacketType::Connect => {
                self.handle_connect(from, &header, idx, now, &mut out);
            },
            PacketType::Disconnect => {
                self.handle_disconnect(from, &header, idx, &mut out);
            },
            PacketType::Data => {
                match idx {
                    Some(i) => {
                        self.handle_data(i, header, packet, from, now, &mut out);
                    },
                    None => {},
                }
            },
            PacketType::Ping => {
                self.handle_ping(from, idx, now, &mut out);
            },
            PacketType::Receipt => {
                let spi = StoredPacketIdentifier::new(from.clone(), header.channel_id, header.packet_id);
                self.stored_packets.remove(&spi);
            },
            PacketType::Undefined => {},
        }
        out
    }

    /// Sends user packet `packet` to the client at `peer` on `channel` at
    /// `now`; returns the datagram to send (none if `peer` is not connected).
    pub fn send_to_peer(&mut self, peer: &String, channel: u8, packet: Packet, now: u64) -> (out: Vec<Datagram>)
        requires
            old(self).wf(),
            is_connected(old(self)@.peers, peer@) ==> channel < CHANNEL_COUNT,
        ensures
            final(self).wf(),
            sent_to_peer(old(self)@, final(self)@, peer@, channel, packet@, now, datagrams_view(out@)),
    {
        let mut out: Vec<Datagram> = Vec::new();
        let mut packet = packet;
        let ghost pv = packet@;
        let ghost pre = self@;
        match self.peer_index(peer) {
            Some(i) => {
                proof {
                    assert(self@.peers[i as int].data.wf());
                }
                let c = channel as usize;
                let id = self.connections[i].data.channels[c].send_packet_count;
                packet.push::<PacketHeader>(&PacketHeader::new(PacketType::Data, channel, id));
                assert(packet@.data =~= data_bytes(pv.data, channel, id));
                let _ = self.connections[i].data.channels[c].take_send_id();
                let t = self.channels.get_channel_type(channel);
                if t == ChannelType::Reliable || t == ChannelType::Sequenced {
                    let spi = StoredPacketIdentifier::new(peer.clone(), channel, id);
                    let sp = StoredPacket::new_at(&packet, now);
                    self.stored_packets.insert(spi, sp);
                }
                out.push(Datagram { peer: peer.clone(), bytes: packet.to_bytes() });
                assert(datagrams_view(out@) =~= seq![(peer@, data_bytes(pv.data, channel, id))]);
                proof {
                    assert forall|j: int| #[trigger] is_peer_at(pre.peers, peer@, j) implies j == i by {
                        lemma_peer_unique(pre.peers, peer@, i as int, j);
                    }
                    assert(is_connected(pre.peers, peer@));
                    let pre_chs = pre.peers[i as int].data.channels;
                    let post_chs = self@.peers[i as int].data.channels;
                    assert(pre.peers[i as int].data.wf());
                    assert(channel_wf(pre_chs[c as int]));
                    assert(channel_wf(post_chs[c as int]));
                    assert forall|d: int| 0 <= d < CHANNEL_COUNT implies channel_wf(#[trigger] post_chs[d]) by {
                        if d != c {
                            assert(post_chs[d] == pre_chs[d]);
                        }
                    }
                    assert(self@.peers[i as int].data.wf());
                    let mid = ServerView { stored: pre.stored, ..self@ };
                    lemma_wf_after_peer_update(pre, mid, i as int);
                }
            },
            None => {
                assert(datagrams_view(out@) =~= Seq::<(Seq<char>, Seq<u8>)>::empty());
            },
        }
        out
    }

    /// The periodic upkeep at `now`: drops peers silent for too long (with
    /// their stored packets, and a time-out event each), makes the others
    /// forget old received ids, and returns the stored packets due to be sent
    /// again.
    pub fn internal_update(&mut self, now: u64) -> (out: Vec<Datagram>)
        requires
            old(self).wf(),
        ensures
            final(self).wf(),
            server_upkeep(old(self)@, final(self)@, now, datagrams_view(out@)),
    {
        let ghost pre = self@;
        let ghost timed = |p: PeerView| peer_timed_out(p, now);
        let ghost alive = |p: PeerView| !peer_timed_out(p, now);
        let ghost to_timeout = |a: Seq<char>| ServerEventView::Timeout(a);
        let mut old_conns: Vec<Peer> = Vec::new();
        std::mem::swap(&mut old_conns, &mut self.connections);
        let ghost es = old_conns@;
        let ghost ps = pre.peers;
        assert(es.map_values(|p: Peer| p@) == ps);
        assert(ps.take(0) =~= Seq::<PeerView>::empty());
        assert(ps.take(0).filter(alive) =~= Seq::<PeerView>::empty()) by {
            reveal(Seq::filter);
        }
        assert(timed_out_addresses(ps.take(0), now) =~= Seq::<Seq<char>>::empty()) by {
            reveal(Seq::filter);
        }
        proof {
            let g = |e: StoredView| !timed_out_addresses(ps.take(0), now).contains(e.key.0);
            lemma_filter_keeps_all(pre.stored, g);
        }
        for peer in it: old_conns
            invariant
                it.seq() == es,
                es.map_values(|p: Peer| p@) == ps,
                ps == pre.peers,
                server_wf(pre),
                timed == (|p: PeerView| peer_timed_out(p, now)),
                alive == (|p: PeerView| !peer_timed_out(p, now)),
                to_timeout == (|a: Seq<char>| ServerEventView::Timeout(a)),
                self.max_connections == pre.max_connections,
                self.internal_packet_count == pre.internal_packet_count,
                self.channels == pre.channels,
                self.stored_packets.wf(),
                self@.peers.len() == ps.take(it.index()).filter(alive).len(),
                forall|j: int|
                    0 <= j < self@.peers.len() ==> {
                        let kj = ps.take(it.index()).filter(alive)[j];
                        &&& (#[trigger] self@.peers[j]).address == kj.address
                        &&& self@.peers[j].data.timer == kj.data.timer
                        &&& self@.peers[j].data.wf()
                        &&& forall|c: int|
                            0 <= c < CHANNEL_COUNT ==> is_pruned_channel(
                                #[trigger] self@.peers[j].data.channels[c],
                                kj.data.channels[c],
                                now,
                            )
                    },
                self@.events == pre.events + timed_out_addresses(ps.take(it.index()), now).map_values(to_timeout),
                self.stored_packets@ == pre.stored.filter(
                    |e: StoredView| !timed_out_addresses(ps.take(it.index()), now).contains(e.key.0),
                ),
        {
            let ghost k = it.index();
            let ghost gone_k = timed_out_addresses(ps.take(k), now);
            let ghost kept_k = ps.take(k).filter(alive);
            proof {
                reveal(Seq::filter);
                assert(ps.take(k + 1).drop_last() =~= ps.take(k));
                assert(peer == es[k]);
                assert(ps.take(k + 1).last() == peer@);
                assert(peer@ == pre.peers[k]);
                assert(peer.data.wf());
            }
            let mut peer = peer;
            if peer.data.has_timed_out_at(now) {
                let ghost a = peer.address@;
                let ghost st = self.stored_packets@;
                self.stored_packets.remove_peer(&peer.address);
                assert(self.stored_packets@ == crate::stored::without_peer(st, a));
                let ghost st2 = self.stored_packets@;
                self.push_event(ServerEvent::Timeout(peer.address));
                assert(self.stored_packets@ == st2);
                proof {
                    assert(ps.take(k + 1).filter(alive) == kept_k);
                    assert(ps.take(k + 1).filter(timed) == ps.take(k).filter(timed).push(pre.peers[k]));
                    let gone_k1 = timed_out_addresses(ps.take(k + 1), now);
                    assert(gone_k1 =~= gone_k.push(a));
                    assert(self@.events =~= pre.events + gone_k1.map_values(to_timeout));
                    let f = |e: StoredView| !gone_k.contains(e.key.0);
                    let g = crate::stored::not_for_peer(a);
                    lemma_filter_filter(pre.stored, f, g);
                    let fg = |e: StoredView| f(e) && g(e);
                    let h = |e: StoredView| !gone_k1.contains(e.key.0);
                    assert forall|e: StoredView| #[trigger] fg(e) == h(e) by {
                        if gone_k1.contains(e.key.0) {
                            let w = choose|w: int| 0 <= w < gone_k1.len() && gone_k1[w] == e.key.0;
                            if w < gone_k.len() {
                                assert(gone_k[w] == e.key.0);
                            }
                        }
                        if gone_k.contains(e.key.0) {
                            let w = choose|w: int| 0 <= w < gone_k.len() && gone_k[w] == e.key.0;
                            assert(gone_k1[w] == e.key.0);
                        }
                        if e.key.0 == a {
                            assert(gone_k1[gone_k.len() as int] == a);
                        }
                    }
                    assert(fg =~= h);
                    assert(crate::stored::without_peer(st, a) == st.filter(g));
                    assert(self.stored_packets@ == st.filter(g));
                    assert(self.stored_packets@ == pre.stored.filter(
                        |e: StoredView| !timed_out_addresses(ps.take(k + 1), now).contains(e.key.0),
                    ));
                }
            } else {
                let ghost before = self@.peers;
                peer.data.prune_received(now);
                self.connections.push(peer);
                proof {
                    assert(ps.take(k + 1).filter(alive) == kept_k.push(pre.peers[k]));
                    assert(ps.take(k + 1).filter(timed) == ps.take(k).filter(timed));
                    assert(timed_out_addresses(ps.take(k + 1), now) == gone_k);
                    assert(self.stored_packets@ == pre.stored.filter(
                        |e: StoredView| !timed_out_addresses(ps.take(k + 1), now).contains(e.key.0),
                    ));
                    assert forall|j: int|
                        0 <= j < self@.peers.len() implies {
                            let kj = ps.take(k + 1).filter(alive)[j];
                            &&& (#[trigger] self@.peers[j]).address == kj.address
                            &&& self@.peers[j].data.timer == kj.data.timer
                            &&& self@.peers[j].data.wf()
                            &&& forall|c: int|
                                0 <= c < CHANNEL_COUNT ==> is_pruned_channel(
                                    #[trigger] self@.peers[j].data.channels[c],
                                    kj.data.channels[c],
                                    now,
                                )
                        } by {
                        if j < before.len() {
                            assert(self@.peers[j] == before[j]);
                            assert(ps.take(k + 1).filter(alive)[j] == kept_k[j]);
                        }
                    }
                }
            }
        }
        proof {
            assert(ps.take(ps.len() as int) =~= ps);
            lemma_filter_distinct_addresses(ps, alive);
            let kept = ps.filter(alive);
            assert forall|a: int, b: int| 0 <= a < b < self@.peers.len() implies (
            #[trigger] self@.peers[a]).address != (#[trigger] self@.peers[b]).address by {
                assert(kept[a].address != kept[b].address);
            }
            ps.lemma_filter_len(alive);
        }
        let out = self.stored_packets.resend_due(now);
        out
    }

    /// Sends user packet `packet` on `channel` at `now` to every connected
    /// client; returns the datagrams to send.
    pub fn send_to_all(&mut self, channel: u8, packet: Packet, now: u64) -> (out: Vec<Datagram>)
        requires
            old(self).wf(),
            old(self)@.peers.len() > 0 ==> channel < CHANNEL_COUNT,
        ensures
            final(self).wf(),
            sent_to_all(old(self)@, final(self)@, channel, packet@, now, datagrams_view(out@)),
    {
        let ghost pre = self@;
        let ghost pv = packet@;
        let ghost rel = is_reliable_type(pre.channels.type_of(channel));
        let mut out: Vec<Datagram> = Vec::new();
        let n = self.connections.len();
        let mut j: usize = 0;
        assert(pre.peers.take(0) =~= Seq::<PeerView>::empty());
        while j < n
            invariant
                0 <= j <= n,
                n == pre.peers.len(),
                packet@ == pv,
                j < n ==> channel < CHANNEL_COUNT,
                rel == is_reliable_type(pre.channels.type_of(channel)),
                server_wf(pre),
                self.wf(),
                self@.peers.len() == n,
                datagrams_view(out@) == all_sends(pre.peers.take(j as int), channel, pv),
                forall|k: int|
                    0 <= k < n ==> (#[trigger] self@.peers[k]).address == pre.peers[k].address,
                forall|k: int|
                    j <= k < n ==> #[trigger] self@.peers[k] == pre.peers[k],
                forall|k: int|
                    0 <= k < j ==> {
                        &&& (#[trigger] self@.peers[k]).data.timer == pre.peers[k].data.timer
                        &&& self@.peers[k].data.channels.len() == pre.peers[k].data.channels.len()
                        &&& forall|d: int|
                            0 <= d < pre.peers[k].data.channels.len() && d != channel ==> self@.peers[k].data.channels[d]
                                == pre.peers[k].data.channels[d]
                        &&& send_advanced(
                            pre.peers[k].data.channels[channel as int],
                            self@.peers[k].data.channels[channel as int],
                        )
                    },
                self@.stored == (if rel {
                    store_all_sends(pre.stored, pre.peers.take(j as int), channel, pv, now)
                } else {
                    pre.stored
                }),
                self@ == (ServerView { peers: self@.peers, stored: self@.stored, ..pre }),
            decreases n - j,
        {
            let ghost cur = self@;
            let addr = self.connections[j].address.clone();
            let copy = packet.clone();
            proof {
                assert(is_peer_at(cur.peers, addr@, j as int));
                assert(pre.peers.take(j + 1).drop_last() =~= pre.peers.take(j as int));
            }
            let mut sent = self.send_to_peer(&addr, channel, copy, now);
            proof {
                assert(is_connected(cur.peers, addr@));
                assert(is_peer_at(cur.peers, addr@, j as int));
            }
            let ghost before = out@;
            let ghost sv = datagrams_view(sent@);
            let ghost id = pre.peers[j as int].data.channels[channel as int].send_packet_count;
            proof {
                assert(cur.peers[j as int] == pre.peers[j as int]);
                assert(sv == seq![(addr@, data_bytes(pv.data, channel, id))]);
                let t1 = pre.peers.take(j + 1);
                assert(t1.last() == pre.peers[j as int]);
                assert(t1.drop_last() =~= pre.peers.take(j as int));
                if rel {
                    assert(self@.stored == with_entry(cur.stored, stored_entry(addr@, channel, id, now, sent_packet(pv, channel, id))));
                    assert(self@.stored == store_all_sends(pre.stored, t1, channel, pv, now));
                }
            }
            out.append(&mut sent);
            proof {
                assert(datagrams_view(out@) =~= datagrams_view(before) + sv);
                assert(datagrams_view(out@) =~= all_sends(pre.peers.take(j + 1), channel, pv));
                assert forall|k: int| 0 <= k < n implies (#[trigger] self@.peers[k]).address == pre.peers[k].address by {
                    if k != j {
                        assert(self@.peers[k] == cur.peers[k]);
                    }
                }
            }
            j = j + 1;
        }
        assert(pre.peers.take(n as int) =~= pre.peers);
        out
    }

    /// Whether `handle_datagram` can take `datagram` from `from`: a user
    /// packet from a connected client must name one of the 32 channels.
    pub fn accepts_datagram(&self, datagram: &[u8], from: &String) -> (b: bool)
        requires
            self.wf(),
        ensures
            b == datagram_in_range(self@, datagram@, from@),
    {
        match crate::messages::trailing_header(datagram) {
            None => true,
            Some(h) => {
                if h.packet_type != PacketType::Data {
                    true
                } else if !self.is_connected(from) {
                    true
                } else {
                    h.channel_id < CHANNEL_COUNT
                }
            },
        }
    }

    /// How many clients are connected.
    pub fn connection_count(&self) -> (n: usize)
        ensures
            n == self@.peers.len(),
    {
        self.connections.len()
    }

    /// Whether the client at `address` is connected.
    pub fn is_connected(&self, address: &String) -> (b: bool)
        requires
            self.wf(),
        ensures
            b == is_connected(self@.peers, address@),
    {
        self.peer_index(address).is_some()
    }
}

} // verus!
