//! The client's side of the protocol, as a state machine: it is handed each
//! datagram from the server (and the clock), updates the connection, queues
//! events for the application, and returns the datagrams to send. Sockets
//! stay with the caller, which also opens a new one when the client asks to
//! reconnect.
use vstd::prelude::*;
use std::collections::VecDeque;

use crate::channel::{ChannelType, Channels, CHANNEL_COUNT, is_reliable_type, lemma_no_bits_nonreliable};
use crate::messages::{
    data_bytes, header_only, header_packet, lemma_status_read_back, ping_bytes, receipt_bytes,
    status_bytes,
};
use crate::packet::{
    header_at, INTERNAL_CHANNEL, Packet, PacketHeader, PacketType, PacketView,
    PACKET_HEADER_SIZE,
};
use crate::packetserialize::field_value;
use crate::bytes::{le_value, lemma_le_value_bound, lemma_byte_pow_16};
use crate::server::{sent_packet, send_advanced};
use crate::peerdata::{
    PeerData, PeerDataView, elapsed_at_least, is_fresh_channel, is_pruned_channel, next_id, reliable_step,
    sequenced_step, droppable_step, packet_seq_views, PEER_TIMEOUT_MS, header_id,
    channel_wf, lemma_sequenced_in_header_order, id_after, ChannelView, lemma_sequenced_in_turn_first,
};
use crate::stored::{
    StoredPacket, StoredPacketIdentifier, StoredPackets, StoredView, distinct_keys, due_packets,
    restarted, with_entry, without_key, lemma_due_packet_resent, RESEND_AFTER_MS,
    has_key, lemma_receipt_forgets,
};

verus! {

/// How often (ms) a connected client pings the server.
pub const PING_INTERVAL_MS: u64 = 1000;

/// What happened, for the application to handle.
pub enum ClientEvent {
    /// The server accepted the connection.
    Connect,
    /// The server refused the connection (it was full).
    ConnectionDenied,
    /// The server disconnected the client.
    Disconnect,
    /// The server stopped answering.
    Timeout,
    /// The client started connecting again.
    Reconnecting,
    /// A packet arrived (with its header, read from the start).
    Data(Packet),
    /// The server answered a ping.
    Ping,
}

/// An event as plain values.
pub enum ClientEventView {
    Connect,
    ConnectionDenied,
    Disconnect,
    Timeout,
    Reconnecting,
    Data(PacketView),
    Ping,
}

impl View for ClientEvent {
    type V = ClientEventView;

    open spec fn view(&self) -> ClientEventView {
        match self {
            ClientEvent::Connect => ClientEventView::Connect,
            ClientEvent::ConnectionDenied => ClientEventView::ConnectionDenied,
            ClientEvent::Disconnect => ClientEventView::Disconnect,
            ClientEvent::Timeout => ClientEventView::Timeout,
            ClientEvent::Reconnecting => ClientEventView::Reconnecting,
            ClientEvent::Data(p) => ClientEventView::Data(p@),
            ClientEvent::Ping => ClientEventView::Ping,
        }
    }
}

/// The events of `v` as plain values.
pub open spec fn client_events_view(v: Seq<ClientEvent>) -> Seq<ClientEventView> {
    v.map_values(|e: ClientEvent| e@)
}

/// The state of a client as plain values.
pub struct ClientView {
    /// The server's address.
    pub address: Seq<char>,
    /// When the server was last heard from, and the state of each channel.
    pub server: PeerDataView,
    /// The channels' guarantees, as the server announced them.
    pub channels: Channels,
    pub is_connected: bool,
    /// Events not yet taken by the application, oldest first.
    pub events: Seq<ClientEventView>,
    /// Packets waiting for their receipts.
    pub stored: Seq<StoredView>,
    /// Id of the next connection request.
    pub internal_packet_count: u128,
    /// When the server was last pinged.
    pub ping_timer: u64,
}

/// What a client keeps true: one state per channel, one stored packet per identity.
pub open spec fn client_wf(v: ClientView) -> bool {
    &&& v.server.wf()
    &&& distinct_keys(v.stored)
}

/// A datagram client's connection state.
pub struct Client {
    address: String,
    server: PeerData,
    channels: Channels,
    is_connected: bool,
    events: VecDeque<ClientEvent>,
    stored_packets: StoredPackets,
    internal_packet_count: u128,
    ping_timer: u64,
}

impl View for Client {
    type V = ClientView;

    closed spec fn view(&self) -> ClientView {
        ClientView {
            address: self.address@,
            server: self.server@,
            channels: self.channels,
            is_connected: self.is_connected,
            events: client_events_view(self.events@),
            stored: self.stored_packets@,
            internal_packet_count: self.internal_packet_count,
            ping_timer: self.ping_timer,
        }
    }
}

/// A client for the server at `address` as it is right after it started at
/// `now` with `events` queued: not connected, all channels nonreliable and
/// fresh, and its first connection request (id 0) sent as `out` and kept
/// until acknowledged.
pub open spec fn started_client(
    v: ClientView,
    address: Seq<char>,
    now: u64,
    events: Seq<ClientEventView>,
    out: Seq<Seq<u8>>,
) -> bool {
    let bytes = header_only(PacketType::Connect, INTERNAL_CHANNEL, 0);
    &&& client_wf(v)
    &&& v.address == address
    &&& v.server.timer == now
    &&& forall|c: int| 0 <= c < CHANNEL_COUNT ==> is_fresh_channel(#[trigger] v.server.channels[c])
    &&& v.channels == (Channels { reliable: 0, sequence: 0 })
    &&& !v.is_connected
    &&& v.events == events
    &&& v.stored == seq![
        StoredView {
            key: (address, INTERNAL_CHANNEL, 0),
            timer: now,
            packet: PacketView { data: bytes, read_position: 0 },
        },
    ]
    &&& v.internal_packet_count == 1
    &&& v.ping_timer == now
    &&& out == seq![bytes]
    &&& keeps_sequence(v)
}

/// A connection request was made at `now` (if not connected): a connect
/// header with the next request id goes out and is kept until acknowledged.
pub open spec fn connect_requested(pre: ClientView, post: ClientView, now: u64, out: Seq<Seq<u8>>) -> bool {
    if pre.is_connected {
        post == pre && out == Seq::<Seq<u8>>::empty()
    } else {
        let bytes = header_only(PacketType::Connect, INTERNAL_CHANNEL, pre.internal_packet_count);
        &&& out == seq![bytes]
        &&& post == (ClientView {
            stored: with_entry(
                pre.stored,
                StoredView {
                    key: (pre.address, INTERNAL_CHANNEL, pre.internal_packet_count),
                    timer: now,
                    packet: PacketView { data: bytes, read_position: 0 },
                },
            ),
            internal_packet_count: next_id(pre.internal_packet_count),
            ..pre
        })
    }
}

/// `post` is `pre` with only channel `c` changed.
pub open spec fn only_peer_channel_changed(pre: PeerDataView, post: PeerDataView, c: int) -> bool {
    &&& post.timer == pre.timer
    &&& post.channels.len() == pre.channels.len()
    &&& forall|d: int|
        0 <= d < pre.channels.len() && d != c ==> post.channels[d] == pre.channels[d]
}

/// User packet `p` was sent on `channel` at `now` (if connected): it goes out
/// with a data header carrying the channel's next send id, and a copy is kept
/// until acknowledged when the channel is reliable or sequenced.
pub open spec fn client_sent(
    pre: ClientView,
    post: ClientView,
    channel: u8,
    p: PacketView,
    now: u64,
    out: Seq<Seq<u8>>,
) -> bool {
    if !pre.is_connected {
        post == pre && out == Seq::<Seq<u8>>::empty()
    } else {
        let id = pre.server.channels[channel as int].send_packet_count;
        let sent = sent_packet(p, channel, id);
        &&& out == seq![sent.data]
        &&& only_peer_channel_changed(pre.server, post.server, channel as int)
        &&& send_advanced(pre.server.channels[channel as int], post.server.channels[channel as int])
        &&& post == (ClientView { server: post.server, stored: post.stored, ..pre })
        &&& post.stored == (if is_reliable_type(pre.channels.type_of(channel)) {
            with_entry(
                pre.stored,
                StoredView { key: (pre.address, channel, id), timer: now, packet: sent },
            )
        } else {
            pre.stored
        })
    }
}

/// A user packet `p` (header `h`) was handled at `now`; the channel's
/// guarantee decides, as on the server.
pub open spec fn client_data_step(
    pre: ClientView,
    post: ClientView,
    h: PacketHeader,
    p: PacketView,
    now: u64,
    out: Seq<Seq<u8>>,
) -> bool {
    let c = h.channel_id;
    let pre_ch = pre.server.channels[c as int];
    let post_ch = post.server.channels[c as int];
    &&& post == (ClientView { server: post.server, events: post.events, ..pre })
    &&& match pre.channels.type_of(c) {
        ChannelType::Reliable => {
            let deliver = !pre_ch.packets_already_received.dom().contains(h.packet_id);
            &&& out == seq![receipt_bytes(h)]
            &&& only_peer_channel_changed(pre.server, post.server, c as int)
            &&& reliable_step(pre_ch, post_ch, h.packet_id, now, deliver)
            &&& post.events == (if deliver {
                pre.events.push(ClientEventView::Data(p))
            } else {
                pre.events
            })
        },
        ChannelType::Sequenced => {
            &&& out == seq![receipt_bytes(h)]
            &&& only_peer_channel_changed(pre.server, post.server, c as int)
            &&& exists|delivered: Seq<PacketView>|
                {
                    &&& sequenced_step(pre_ch, post_ch, h.packet_id, p, now, delivered)
                    &&& post.events == pre.events + delivered.map_values(
                        |d: PacketView| ClientEventView::Data(d),
                    )
                }
        },
        ChannelType::Nonreliable => {
            &&& out == Seq::<Seq<u8>>::empty()
            &&& post.server == pre.server
            &&& post.events == pre.events.push(ClientEventView::Data(p))
        },
        ChannelType::NonreliableDropable => {
            let deliver = pre_ch.receive_packet_count < h.packet_id || h.packet_id == 0;
            &&& out == Seq::<Seq<u8>>::empty()
            &&& only_peer_channel_changed(pre.server, post.server, c as int)
            &&& droppable_step(pre_ch, post_ch, h.packet_id, deliver)
            &&& post.events == (if deliver {
                pre.events.push(ClientEventView::Data(p))
            } else {
                pre.events
            })
        },
    }
}

/// Whether the client can take `bytes` without a channel out of range: a
/// user packet names one of the 32 channels.
pub open spec fn client_datagram_in_range(bytes: Seq<u8>) -> bool {
    bytes.len() >= PACKET_HEADER_SIZE && header_at(bytes, bytes.len() - PACKET_HEADER_SIZE).packet_type
        == PacketType::Data ==> header_at(bytes, bytes.len() - PACKET_HEADER_SIZE).channel_id
        < CHANNEL_COUNT
}

/// The client took datagram `bytes` from the server at `now`, going from
/// `pre` to `post`, sending `out`, and asking to reconnect when `reconnect`.
/// Datagrams shorter than a header are ignored; otherwise the header at the
/// end says what the datagram is. A connection answer (while not connected)
/// starts with the accepted flag and the reliable and sequenced masks.
pub open spec fn client_received(
    pre: ClientView,
    post: ClientView,
    bytes: Seq<u8>,
    now: u64,
    out: Seq<Seq<u8>>,
    reconnect: bool,
) -> bool {
    if bytes.len() < PACKET_HEADER_SIZE {
        post == pre && out == Seq::<Seq<u8>>::empty() && !reconnect
    } else {
        let h = header_at(bytes, bytes.len() - PACKET_HEADER_SIZE);
        match h.packet_type {
            PacketType::Connect => {
                &&& out == seq![receipt_bytes(h)]
                &&& !reconnect
                &&& if pre.is_connected {
                    post == pre
                } else if field_value(bytes, 0, 1) == 1 {
                    post == (ClientView {
                        is_connected: true,
                        channels: Channels {
                            reliable: field_value(bytes, 1, 4) as u32,
                            sequence: field_value(bytes, 5, 4) as u32,
                        },
                        events: pre.events.push(ClientEventView::Connect),
                        ..pre
                    })
                } else {
                    post == (ClientView {
                        events: pre.events.push(ClientEventView::ConnectionDenied),
                        ..pre
                    })
                }
            },
            PacketType::Disconnect => {
                &&& out == Seq::<Seq<u8>>::empty()
                &&& reconnect == pre.is_connected
                &&& if pre.is_connected {
                    post == (ClientView {
                        is_connected: false,
                        events: pre.events.push(ClientEventView::Disconnect),
                        ..pre
                    })
                } else {
                    post == pre
                }
            },
            PacketType::Data => !reconnect && client_data_step(
                pre,
                post,
                h,
                PacketView { data: bytes, read_position: 0 },
                now,
                out,
            ),
            PacketType::Ping => {
                &&& out == Seq::<Seq<u8>>::empty()
                &&& !reconnect
                &&& if pre.is_connected {
                    &&& post.server.timer == now
                    &&& post.server.channels == pre.server.channels
                    &&& post == (ClientView {
                        server: post.server,
                        events: pre.events.push(ClientEventView::Ping),
                        ..pre
                    })
                } else {
                    post == pre
                }
            },
            PacketType::Receipt => post == (ClientView {
                stored: without_key(pre.stored, (pre.address, h.channel_id, h.packet_id)),
                ..pre
            }) && out == Seq::<Seq<u8>>::empty() && !reconnect,
            PacketType::Undefined => post == pre && out == Seq::<Seq<u8>>::empty() && !reconnect,
        }
    }
}

/// The periodic upkeep at `now` took the client from `pre` to `post`,
/// sending `out`: a connected client pings the server once a second; if the
/// server was silent for too long the connection times out and the client
/// asks to reconnect; otherwise every stored packet that waited long enough
/// is sent again and old received ids are forgotten.
pub open spec fn client_upkeep(pre: ClientView, post: ClientView, now: u64, out: Seq<Seq<u8>>, reconnect: bool) -> bool {
    let ping = pre.is_connected && elapsed_at_least(pre.ping_timer, now, PING_INTERVAL_MS);
    let pinged = if ping {
        seq![ping_bytes()]
    } else {
        Seq::<Seq<u8>>::empty()
    };
    let ping_timer = if ping {
        now
    } else {
        pre.ping_timer
    };
    if elapsed_at_least(pre.server.timer, now, PEER_TIMEOUT_MS) {
        &&& reconnect
        &&& out == pinged
        &&& post.server.timer == now
        &&& post.server.channels == pre.server.channels
        &&& post == (ClientView {
            server: post.server,
            is_connected: false,
            events: pre.events.push(ClientEventView::Timeout),
            ping_timer,
            ..pre
        })
    } else {
        &&& !reconnect
        &&& out == pinged + due_packets(pre.stored, now).map_values(|d: (Seq<char>, Seq<u8>)| d.1)
        &&& post.server.wf()
        &&& post.server.timer == pre.server.timer
        &&& forall|c: int|
            0 <= c < CHANNEL_COUNT ==> is_pruned_channel(
                #[trigger] post.server.channels[c],
                pre.server.channels[c],
                now,
            )
        &&& post == (ClientView {
            server: post.server,
            stored: pre.stored.map_values(|e: StoredView| restarted(e, now)),
            ping_timer,
            ..pre
        })
    }
}

/// Whether channel `ch`, of type `t`, takes sequenced packets in order:
/// nothing is kept under the id it expects next, and only a sequenced
/// channel keeps packets at all.
pub open spec fn sequence_kept(t: ChannelType, ch: ChannelView) -> bool {
    &&& !ch.stored_sequenced_packets.dom().contains(ch.receive_packet_count)
    &&& t != ChannelType::Sequenced ==> ch.stored_sequenced_packets == Map::<u128, PacketView>::empty()
}

/// What a client keeps true as long as it reconnects whenever it is asked
/// to: while not connected every channel is nonreliable, and every channel
/// takes sequenced packets in order.
pub open spec fn keeps_sequence(v: ClientView) -> bool {
    &&& !v.is_connected ==> v.channels == (Channels { reliable: 0, sequence: 0 })
    &&& forall|c: u8|
        c < CHANNEL_COUNT ==> #[trigger] sequence_kept(v.channels.type_of(c), v.server.channels[c as int])
}

/// A datagram after which the client need not reconnect keeps every channel
/// taking sequenced packets in order.
pub proof fn lemma_received_keeps_sequence(
    pre: ClientView,
    post: ClientView,
    bytes: Seq<u8>,
    now: u64,
    out: Seq<Seq<u8>>,
    reconnect: bool,
)
    requires
        client_wf(pre),
        keeps_sequence(pre),
        client_datagram_in_range(bytes),
        client_received(pre, post, bytes, now, out, reconnect),
        !reconnect,
    ensures
        keeps_sequence(post),
{
    if bytes.len() >= PACKET_HEADER_SIZE {
        let h = header_at(bytes, bytes.len() - PACKET_HEADER_SIZE);
        if h.packet_type == PacketType::Data {
            let c0 = h.channel_id;
            let pre_ch = pre.server.channels[c0 as int];
            let post_ch = post.server.channels[c0 as int];
            assert(sequence_kept(pre.channels.type_of(c0), pre_ch));
            if pre.channels.type_of(c0) == ChannelType::Sequenced {
                let p = PacketView { data: bytes, read_position: 0 };
                assert(channel_wf(pre_ch));
                let delivered = choose|delivered: Seq<PacketView>|
                    {
                        &&& sequenced_step(pre_ch, post_ch, h.packet_id, p, now, delivered)
                        &&& post.events == pre.events + delivered.map_values(
                            |d: PacketView| ClientEventView::Data(d),
                        )
                    };
                lemma_sequenced_in_header_order(pre_ch, post_ch, h.packet_id, p, now, delivered);
            }
            assert(sequence_kept(post.channels.type_of(c0), post_ch));
            assert forall|c: u8| c < CHANNEL_COUNT implies #[trigger] sequence_kept(
                post.channels.type_of(c),
                post.server.channels[c as int],
            ) by {
                assert(sequence_kept(pre.channels.type_of(c), pre.server.channels[c as int]));
                if c != c0 {
                    assert(post.server.channels[c as int] == pre.server.channels[c as int]);
                }
            }
        } else {
            assert forall|c: u8| c < CHANNEL_COUNT implies #[trigger] sequence_kept(
                post.channels.type_of(c),
                post.server.channels[c as int],
            ) by {
                assert(sequence_kept(pre.channels.type_of(c), pre.server.channels[c as int]));
                if h.packet_type == PacketType::Connect && !pre.is_connected {
                    lemma_no_bits_nonreliable(c);
                }
            }
        }
    }
}

/// An upkeep after which the client need not reconnect keeps every channel
/// taking sequenced packets in order.
pub proof fn lemma_upkeep_keeps_sequence(
    pre: ClientView,
    post: ClientView,
    now: u64,
    out: Seq<Seq<u8>>,
    reconnect: bool,
)
    requires
        keeps_sequence(pre),
        client_upkeep(pre, post, now, out, reconnect),
        !reconnect,
    ensures
        keeps_sequence(post),
{
    assert forall|c: u8| c < CHANNEL_COUNT implies #[trigger] sequence_kept(
        post.channels.type_of(c),
        post.server.channels[c as int],
    ) by {
        assert(sequence_kept(pre.channels.type_of(c), pre.server.channels[c as int]));
        assert(is_pruned_channel(post.server.channels[c as int], pre.server.channels[c as int], now));
    }
}

/// The client started over at `now` after losing the connection: everything
/// but the server's address is as for a new client, a connection request
/// (id 0) goes out and is kept, and a reconnecting event is the only event.
pub open spec fn reconnected(pre: ClientView, post: ClientView, now: u64, out: Seq<Seq<u8>>) -> bool {
    started_client(post, pre.address, now, seq![ClientEventView::Reconnecting], out)
}

/// On a sequenced channel the client hands the server's packets to the
/// application by their header ids, in order and without a gap: in every
/// state that a client which reconnects when asked reaches, the events that
/// a user packet adds are data events whose packets carry the ids from the
/// one the channel expected next on; the channel then expects the id after
/// them and keeps no packet under that id; and the packet is acknowledged.
/// A repeat delivers nothing; a new packet with the id expected next is
/// delivered first; either way its id is then remembered.
pub proof fn lemma_client_sequenced_in_header_order(
    pre: ClientView,
    post: ClientView,
    bytes: Seq<u8>,
    now: u64,
    out: Seq<Seq<u8>>,
    reconnect: bool,
)
    requires
        client_wf(pre),
        keeps_sequence(pre),
        client_received(pre, post, bytes, now, out, reconnect),
        bytes.len() >= PACKET_HEADER_SIZE,
        header_at(bytes, bytes.len() - PACKET_HEADER_SIZE).packet_type == PacketType::Data,
        header_at(bytes, bytes.len() - PACKET_HEADER_SIZE).channel_id < CHANNEL_COUNT,
        pre.channels.type_of(header_at(bytes, bytes.len() - PACKET_HEADER_SIZE).channel_id)
            == ChannelType::Sequenced,
    ensures
        ({
            let h = header_at(bytes, bytes.len() - PACKET_HEADER_SIZE);
            let pre_ch = pre.server.channels[h.channel_id as int];
            let post_ch = post.server.channels[h.channel_id as int];
            &&& out == seq![receipt_bytes(h)]
            &&& !reconnect
            &&& exists|delivered: Seq<PacketView>|
                {
                    &&& post.events == pre.events + delivered.map_values(
                        |d: PacketView| ClientEventView::Data(d),
                    )
                    &&& forall|j: int|
                        0 <= j < delivered.len() ==> (#[trigger] delivered[j]).data.len() >= PACKET_HEADER_SIZE
                            && header_id(delivered[j]) == id_after(pre_ch.receive_packet_count, j)
                    &&& post_ch.receive_packet_count == id_after(
                        pre_ch.receive_packet_count,
                        delivered.len() as int,
                    )
                    &&& pre_ch.packets_already_received.dom().contains(h.packet_id) ==> delivered.len() == 0
                    &&& !pre_ch.packets_already_received.dom().contains(h.packet_id)
                        && pre_ch.receive_packet_count == h.packet_id ==> delivered.len() >= 1
                        && delivered[0] == (PacketView { data: bytes, read_position: 0 })
                }
            &&& post_ch.packets_already_received.dom().contains(h.packet_id)
            &&& !post_ch.stored_sequenced_packets.dom().contains(post_ch.receive_packet_count)
            &&& keeps_sequence(post)
        }),
{
    let h = header_at(bytes, bytes.len() - PACKET_HEADER_SIZE);
    let c = h.channel_id as int;
    let p = PacketView { data: bytes, read_position: 0 };
    let pre_ch = pre.server.channels[c];
    let post_ch = post.server.channels[c];
    assert(channel_wf(pre_ch));
    let delivered = choose|delivered: Seq<PacketView>|
        {
            &&& sequenced_step(pre_ch, post_ch, h.packet_id, p, now, delivered)
            &&& post.events == pre.events + delivered.map_values(|d: PacketView| ClientEventView::Data(d))
        };
    lemma_sequenced_in_header_order(pre_ch, post_ch, h.packet_id, p, now, delivered);
    if !pre_ch.packets_already_received.dom().contains(h.packet_id) && pre_ch.receive_packet_count
        == h.packet_id {
        lemma_sequenced_in_turn_first(pre_ch, post_ch, h.packet_id, p, now, delivered);
    }
    lemma_received_keeps_sequence(pre, post, bytes, now, out, reconnect);
    assert(sequence_kept(post.channels.type_of(h.channel_id), post_ch));
}

/// The first `k` arrivals of a reliable user packet `d`, taken in turn: each
/// one is acknowledged, and only the first can add an event.
proof fn lemma_client_reliable_prefix(
    states: Seq<ClientView>,
    outs: Seq<Seq<Seq<u8>>>,
    reconnects: Seq<bool>,
    times: Seq<u64>,
    d: Seq<u8>,
    k: int,
)
    requires
        states.len() == outs.len() + 1,
        times.len() == outs.len(),
        reconnects.len() == outs.len(),
        forall|j: int|
            0 <= j < outs.len() ==> #[trigger] client_received(states[j], states[j + 1], d, times[j], outs[j], reconnects[j]),
        d.len() >= PACKET_HEADER_SIZE,
        header_at(d, d.len() - PACKET_HEADER_SIZE).packet_type == PacketType::Data,
        header_at(d, d.len() - PACKET_HEADER_SIZE).channel_id < CHANNEL_COUNT,
        states[0].channels.type_of(header_at(d, d.len() - PACKET_HEADER_SIZE).channel_id)
            == ChannelType::Reliable,
        0 <= k <= outs.len(),
    ensures
        ({
            let h = header_at(d, d.len() - PACKET_HEADER_SIZE);
            let c = h.channel_id as int;
            let fresh = !states[0].server.channels[c].packets_already_received.dom().contains(h.packet_id);
            &&& states[k].channels == states[0].channels
            &&& forall|j: int| 0 <= j < k ==> #[trigger] outs[j] == seq![receipt_bytes(h)] && !reconnects[j]
            &&& states[k].events == (if k >= 1 && fresh {
                states[0].events.push(ClientEventView::Data(PacketView { data: d, read_position: 0 }))
            } else {
                states[0].events
            })
            &&& k >= 1 ==> states[k].server.channels[c].packets_already_received.dom().contains(h.packet_id)
        }),
    decreases k,
{
    if k > 0 {
        lemma_client_reliable_prefix(states, outs, reconnects, times, d, k - 1);
        let j = k - 1;
        assert(client_received(states[j], states[j + 1], d, times[j], outs[j], reconnects[j]));
    }
}

/// A reliable user packet that arrives any number of times in a row is
/// acknowledged every time and handed to the application at most once: on
/// its first arrival, and only if its id was not remembered; afterwards its
/// id is remembered.
pub proof fn lemma_client_reliable_copies(
    states: Seq<ClientView>,
    outs: Seq<Seq<Seq<u8>>>,
    reconnects: Seq<bool>,
    times: Seq<u64>,
    d: Seq<u8>,
)
    requires
        states.len() == outs.len() + 1,
        times.len() == outs.len(),
        reconnects.len() == outs.len(),
        outs.len() >= 1,
        forall|j: int|
            0 <= j < outs.len() ==> #[trigger] client_received(states[j], states[j + 1], d, times[j], outs[j], reconnects[j]),
        d.len() >= PACKET_HEADER_SIZE,
        header_at(d, d.len() - PACKET_HEADER_SIZE).packet_type == PacketType::Data,
        header_at(d, d.len() - PACKET_HEADER_SIZE).channel_id < CHANNEL_COUNT,
        states[0].channels.type_of(header_at(d, d.len() - PACKET_HEADER_SIZE).channel_id)
            == ChannelType::Reliable,
    ensures
        ({
            let h = header_at(d, d.len() - PACKET_HEADER_SIZE);
            let c = h.channel_id as int;
            let last = states[outs.len() as int];
            &&& forall|j: int| 0 <= j < outs.len() ==> #[trigger] outs[j] == seq![receipt_bytes(h)] && !reconnects[j]
            &&& last.events == (if !states[0].server.channels[c].packets_already_received.dom().contains(
                h.packet_id,
            ) {
                states[0].events.push(ClientEventView::Data(PacketView { data: d, read_position: 0 }))
            } else {
                states[0].events
            })
            &&& last.server.channels[c].packets_already_received.dom().contains(h.packet_id)
        }),
{
    lemma_client_reliable_prefix(states, outs, reconnects, times, d, outs.len() as int);
}

/// How the client answers a user packet `bytes` (header channel `c` and id
/// `id`), by the channel's type: a reliable or sequenced packet gets exactly
/// one receipt for `c` and `id`, whether it is new or a repeat; other
/// packets get no answer. A nonreliable packet is always handed to the
/// application; a droppable one exactly when `id` is 0 or newer than the
/// last one handed over, which `id` then becomes; a reliable one exactly
/// when `id` was not received recently. No user packet asks the client to
/// reconnect.
pub proof fn lemma_client_user_data(
    pre: ClientView,
    post: ClientView,
    bytes: Seq<u8>,
    now: u64,
    out: Seq<Seq<u8>>,
    reconnect: bool,
)
    requires
        client_received(pre, post, bytes, now, out, reconnect),
        bytes.len() >= PACKET_HEADER_SIZE,
        header_at(bytes, bytes.len() - PACKET_HEADER_SIZE).packet_type == PacketType::Data,
        header_at(bytes, bytes.len() - PACKET_HEADER_SIZE).channel_id < CHANNEL_COUNT,
    ensures
        ({
            let h = header_at(bytes, bytes.len() - PACKET_HEADER_SIZE);
            let c = h.channel_id;
            let id = h.packet_id;
            let t = pre.channels.type_of(c);
            let pre_ch = pre.server.channels[c as int];
            let post_ch = post.server.channels[c as int];
            let data = ClientEventView::Data(PacketView { data: bytes, read_position: 0 });
            &&& !reconnect
            &&& (t == ChannelType::Reliable || t == ChannelType::Sequenced) ==> out == seq![
                header_only(PacketType::Receipt, c, id),
            ]
            &&& (t == ChannelType::Nonreliable || t == ChannelType::NonreliableDropable) ==> out
                == Seq::<Seq<u8>>::empty()
            &&& t == ChannelType::Nonreliable ==> post.events == pre.events.push(data)
            &&& t == ChannelType::NonreliableDropable ==> {
                &&& (pre_ch.receive_packet_count < id || id == 0) ==> post.events == pre.events.push(data)
                    && post_ch.receive_packet_count == id
                &&& !(pre_ch.receive_packet_count < id || id == 0) ==> post.events == pre.events
                    && post_ch.receive_packet_count == pre_ch.receive_packet_count
            }
            &&& t == ChannelType::Reliable ==> {
                &&& !pre_ch.packets_already_received.dom().contains(id) ==> post.events
                    == pre.events.push(data)
                &&& pre_ch.packets_already_received.dom().contains(id) ==> post.events == pre.events
                &&& post_ch.packets_already_received.dom().contains(id)
            }
        }),
{
}

/// A user packet `p` sent on `channel` by a connected client goes out once,
/// with a data header carrying the channel's next send id, which moves on by
/// one; a copy is kept under (server, channel, id), stamped `now`, exactly
/// when the channel is reliable or sequenced, and otherwise the kept packets
/// stay as they were. A client that is not connected sends nothing and
/// changes nothing.
pub proof fn lemma_client_send_keeps_acknowledged(
    pre: ClientView,
    post: ClientView,
    channel: u8,
    p: PacketView,
    now: u64,
    out: Seq<Seq<u8>>,
)
    requires
        client_sent(pre, post, channel, p, now, out),
    ensures
        !pre.is_connected ==> post == pre && out == Seq::<Seq<u8>>::empty(),
        pre.is_connected ==> ({
            let t = pre.channels.type_of(channel);
            let id = pre.server.channels[channel as int].send_packet_count;
            let bytes = data_bytes(p.data, channel, id);
            &&& out == seq![bytes]
            &&& post.server.channels[channel as int].send_packet_count == (if id == u128::MAX {
                0
            } else {
                (id + 1) as u128
            })
            &&& (t == ChannelType::Reliable || t == ChannelType::Sequenced) ==> post.stored.contains(
                StoredView {
                    key: (pre.address, channel, id),
                    timer: now,
                    packet: PacketView { data: bytes, read_position: p.read_position },
                },
            )
            &&& (t == ChannelType::Nonreliable || t == ChannelType::NonreliableDropable) ==> post.stored
                == pre.stored
        }),
{
    if pre.is_connected {
        let id = pre.server.channels[channel as int].send_packet_count;
        let e = StoredView { key: (pre.address, channel, id), timer: now, packet: sent_packet(p, channel, id) };
        let w = with_entry(pre.stored, e);
        assert(w[w.len() - 1] == e);
    }
}

/// A user packet sent on a reliable or sequenced channel is sent again by
/// the next upkeep at which it has waited long enough, unless the server
/// went silent for too long by then.
pub proof fn lemma_client_sent_is_resent(
    pre: ClientView,
    mid: ClientView,
    post: ClientView,
    channel: u8,
    p: PacketView,
    sent_at: u64,
    now: u64,
    out1: Seq<Seq<u8>>,
    out2: Seq<Seq<u8>>,
    reconnect: bool,
)
    requires
        client_sent(pre, mid, channel, p, sent_at, out1),
        client_upkeep(mid, post, now, out2, reconnect),
        pre.is_connected,
        pre.channels.type_of(channel) == ChannelType::Reliable || pre.channels.type_of(channel)
            == ChannelType::Sequenced,
        elapsed_at_least(sent_at, now, RESEND_AFTER_MS),
        !elapsed_at_least(pre.server.timer, now, PEER_TIMEOUT_MS),
    ensures
        !reconnect,
        out2.contains(data_bytes(p.data, channel, pre.server.channels[channel as int].send_packet_count)),
{
    lemma_client_send_keeps_acknowledged(pre, mid, channel, p, sent_at, out1);
    let id = pre.server.channels[channel as int].send_packet_count;
    let bytes = data_bytes(p.data, channel, id);
    let e = StoredView {
        key: (pre.address, channel, id),
        timer: sent_at,
        packet: PacketView { data: bytes, read_position: p.read_position },
    };
    let m = choose|m: int| 0 <= m < mid.stored.len() && mid.stored[m] == e;
    lemma_due_packet_resent(mid.stored, now, m);
    let due = due_packets(mid.stored, now);
    let k = choose|k: int| 0 <= k < due.len() && due[k] == (pre.address, bytes);
    let f = |d: (Seq<char>, Seq<u8>)| d.1;
    let ds = due.map_values(f);
    assert(ds[k] == bytes);
    let pinged = out2.subrange(0, out2.len() - ds.len());
    assert(out2[pinged.len() + k] == bytes);
}

/// How the client answers a datagram `bytes` that carries no user data. A
/// datagram shorter than a header or of undefined type changes nothing and
/// gets no answer. A connection answer is always acknowledged; while not
/// connected, one whose first byte is 1 connects the client with the
/// channel masks of the next eight bytes (little-endian), and any other
/// refuses it, with an event either way; while connected it changes
/// nothing. A disconnection drops a connected client and asks it to
/// reconnect. A ping while connected marks the server heard from at `now`.
/// A receipt forgets the packet kept for (server, channel, id) and keeps
/// every other one. None of these but the disconnection asks the client to
/// reconnect.
pub proof fn lemma_client_control(
    pre: ClientView,
    post: ClientView,
    bytes: Seq<u8>,
    now: u64,
    out: Seq<Seq<u8>>,
    reconnect: bool,
)
    requires
        client_received(pre, post, bytes, now, out, reconnect),
    ensures
        ({
            let h = header_at(bytes, bytes.len() - PACKET_HEADER_SIZE);
            let ack = header_only(PacketType::Receipt, h.channel_id, h.packet_id);
            &&& (bytes.len() < PACKET_HEADER_SIZE || h.packet_type == PacketType::Undefined) ==> post == pre
                && out == Seq::<Seq<u8>>::empty() && !reconnect
            &&& bytes.len() >= PACKET_HEADER_SIZE && h.packet_type == PacketType::Connect ==> {
                &&& out == seq![ack]
                &&& !reconnect
                &&& pre.is_connected ==> post == pre
                &&& !pre.is_connected && bytes[0] == 1 ==> {
                    &&& post.is_connected
                    &&& post.channels.reliable == le_value(bytes.subrange(1, 5))
                    &&& post.channels.sequence == le_value(bytes.subrange(5, 9))
                    &&& post.events == pre.events.push(ClientEventView::Connect)
                }
                &&& !pre.is_connected && bytes[0] != 1 ==> !post.is_connected && post.channels
                    == pre.channels && post.events == pre.events.push(ClientEventView::ConnectionDenied)
            }
            &&& bytes.len() >= PACKET_HEADER_SIZE && h.packet_type == PacketType::Disconnect ==> {
                &&& out == Seq::<Seq<u8>>::empty()
                &&& !post.is_connected
                &&& reconnect == pre.is_connected
                &&& pre.is_connected ==> post.events == pre.events.push(ClientEventView::Disconnect)
            }
            &&& bytes.len() >= PACKET_HEADER_SIZE && h.packet_type == PacketType::Ping ==> {
                &&& out == Seq::<Seq<u8>>::empty()
                &&& !reconnect
                &&& pre.is_connected ==> post.server.timer == now && post.events == pre.events.push(
                    ClientEventView::Ping,
                )
                &&& !pre.is_connected ==> post == pre
            }
            &&& bytes.len() >= PACKET_HEADER_SIZE && h.packet_type == PacketType::Receipt ==> {
                &&& out == Seq::<Seq<u8>>::empty()
                &&& !reconnect
                &&& post.is_connected == pre.is_connected
                &&& !has_key(post.stored, (pre.address, h.channel_id, h.packet_id))
                &&& forall|k: int|
                    0 <= k < pre.stored.len() && pre.stored[k].key != (pre.address, h.channel_id, h.packet_id)
                        ==> post.stored.contains(#[trigger] pre.stored[k])
            }
        }),
{
    if bytes.len() >= PACKET_HEADER_SIZE {
        let h = header_at(bytes, bytes.len() - PACKET_HEADER_SIZE);
        if h.packet_type == PacketType::Connect && !pre.is_connected {
            assert(bytes.subrange(0, 1) =~= seq![bytes[0]]);
            assert(seq![bytes[0]].drop_first() =~= Seq::<u8>::empty());
            assert(le_value(Seq::<u8>::empty()) == 0);
            assert(le_value(seq![bytes[0]]) == bytes[0] as nat + 256 * le_value(seq![bytes[0]].drop_first()));
            assert(field_value(bytes, 0, 1) == bytes[0]);
            lemma_le_value_bound(bytes.subrange(1, 5));
            lemma_le_value_bound(bytes.subrange(5, 9));
            lemma_byte_pow_16();
        } else if h.packet_type == PacketType::Receipt {
            lemma_receipt_forgets(pre.stored, (pre.address, h.channel_id, h.packet_id));
        }
    }
}

/// The client's upkeep at `now`: a connected client whose last ping is a
/// second or more old pings the server first and restarts its ping timer;
/// otherwise the timer stays, and a client that times out sends nothing;
/// when the server has been silent for `PEER_TIMEOUT_MS` or more the client
/// drops the connection, queues a time-out and asks to reconnect, and only
/// then.
pub proof fn lemma_client_upkeep_pings_and_times_out(
    pre: ClientView,
    post: ClientView,
    now: u64,
    out: Seq<Seq<u8>>,
    reconnect: bool,
)
    requires
        client_upkeep(pre, post, now, out, reconnect),
    ensures
        pre.is_connected && elapsed_at_least(pre.ping_timer, now, PING_INTERVAL_MS) ==> out.len() >= 1
            && out[0] == header_only(PacketType::Ping, INTERNAL_CHANNEL, 0) && post.ping_timer == now,
        !(pre.is_connected && elapsed_at_least(pre.ping_timer, now, PING_INTERVAL_MS)) ==> post.ping_timer
            == pre.ping_timer && (reconnect ==> out.len() == 0),
        reconnect == elapsed_at_least(pre.server.timer, now, PEER_TIMEOUT_MS),
        reconnect ==> !post.is_connected && post.events == pre.events.push(ClientEventView::Timeout),
        !reconnect ==> post.is_connected == pre.is_connected && post.events == pre.events,
{
}

/// A client that is not connected and takes the server's acceptance becomes
/// connected with the server's channel guarantees, and acknowledges it.
pub proof fn lemma_client_adopts_server_channels(
    pre: ClientView,
    post: ClientView,
    ch: Channels,
    id: u128,
    now: u64,
    out: Seq<Seq<u8>>,
    reconnect: bool,
)
    requires
        !pre.is_connected,
        client_received(pre, post, status_bytes(true, ch, id), now, out, reconnect),
    ensures
        post.is_connected,
        post.channels == ch,
        forall|c: u8| c < CHANNEL_COUNT ==> #[trigger] post.channels.type_of(c) == ch.type_of(c),
        post.events == pre.events.push(ClientEventView::Connect),
        out == seq![receipt_bytes(PacketHeader { packet_id: id, packet_type: PacketType::Connect, channel_id: INTERNAL_CHANNEL })],
        !reconnect,
{
    lemma_status_read_back(true, ch, id);
}

/// A client that is not connected and takes the server's refusal stays
/// unconnected and reports it.
pub proof fn lemma_client_refused(
    pre: ClientView,
    post: ClientView,
    ch: Channels,
    id: u128,
    now: u64,
    out: Seq<Seq<u8>>,
    reconnect: bool,
)
    requires
        !pre.is_connected,
        client_received(pre, post, status_bytes(false, ch, id), now, out, reconnect),
    ensures
        !post.is_connected,
        post.channels == pre.channels,
        post.events == pre.events.push(ClientEventView::ConnectionDenied),
        !reconnect,
{
    lemma_status_read_back(false, ch, id);
}

impl Client {
    pub open spec fn wf(&self) -> bool {
        client_wf(self@)
    }

    /// A client for the server at `address`, started at `now`; it asks the
    /// server to connect at once, and returns that request to send.
    pub fn new(address: String, now: u64) -> (r: (Client, Vec<Vec<u8>>))
        ensures
            started_client(r.0@, address@, now, Seq::<ClientEventView>::empty(), r.1@.map_values(|b: Vec<u8>| b@)),
    {
        let mut c = Client {
            address,
            server: PeerData::new_at(now),
            channels: Channels::new(),
            is_connected: false,
            events: VecDeque::new(),
            stored_packets: StoredPackets::new(),
            internal_packet_count: 0,
            ping_timer: now,
        };
        assert(c@.events =~= Seq::<ClientEventView>::empty());
        let out = c.connect(now);
        proof {
            reveal(Seq::filter);
            assert(Seq::<StoredView>::empty().filter(|e: StoredView| e.key != (c@.address, INTERNAL_CHANNEL, 0u128)) =~= Seq::<StoredView>::empty());
        }
        (c, out)
    }

    /// Asks the server to connect, unless connected; returns the datagram to send.
    pub fn connect(&mut self, now: u64) -> (out: Vec<Vec<u8>>)
        requires
            old(self).wf(),
        ensures
            final(self).wf(),
            connect_requested(old(self)@, final(self)@, now, out@.map_values(|b: Vec<u8>| b@)),
            keeps_sequence(old(self)@) ==> keeps_sequence(final(self)@),
    {
        let mut out: Vec<Vec<u8>> = Vec::new();
        if !self.is_connected {
            let id = self.internal_packet_count;
            let packet = header_packet(PacketType::Connect, INTERNAL_CHANNEL, id);
            out.push(packet.to_bytes());
            let spi = StoredPacketIdentifier::new(self.address.clone(), INTERNAL_CHANNEL, id);
            let sp = StoredPacket::new_at(&packet, now);
            self.stored_packets.insert(spi, sp);
            self.internal_packet_count = if id == u128::MAX {
                0
            } else {
                id + 1
            };
            assert(out@.map_values(|b: Vec<u8>| b@) =~= seq![header_only(PacketType::Connect, INTERNAL_CHANNEL, id)]);
        } else {
            assert(out@.map_values(|b: Vec<u8>| b@) =~= Seq::<Seq<u8>>::empty());
        }
        out
    }

    /// Takes the oldest event, if any.
    pub fn get_event(&mut self) -> (e: Option<ClientEvent>)
        requires
            old(self).wf(),
        ensures
            final(self).wf(),
            old(self)@.events.len() == 0 ==> e is None && final(self)@ == old(self)@,
            old(self)@.events.len() > 0 ==> e is Some && e->0@ == old(self)@.events[0]
                && final(self)@ == (ClientView { events: old(self)@.events.drop_first(), ..old(self)@ }),
            keeps_sequence(old(self)@) ==> keeps_sequence(final(self)@),
    {
        let e = self.events.pop_front();
        assert(client_events_view(self.events@) =~= if old(self)@.events.len() > 0 {
            old(self)@.events.drop_first()
        } else {
            old(self)@.events
        });
        e
    }

    /// Queues an event.
    fn push_event(&mut self, e: ClientEvent)
        ensures
            final(self)@ == (ClientView { events: old(self)@.events.push(e@), ..old(self)@ }),
    {
        self.events.push_back(e);
        assert(client_events_view(self.events@) =~= client_events_view(old(self).events@).push(e@));
    }

    /// The guarantee of `channel_id`, as the server announced it.
    pub fn get_channel_type(&self, channel_id: u8) -> (t: ChannelType)
        requires
            channel_id < CHANNEL_COUNT,
        ensures
            t == self@.channels.type_of(channel_id),
    {
        self.channels.get_channel_type(channel_id)
    }

    /// Sends user packet `packet` on `channel` at `now`, if connected;
    /// returns the datagram to send.
    pub fn send(&mut self, channel: u8, packet: Packet, now: u64) -> (out: Vec<Vec<u8>>)
        requires
            old(self).wf(),
            old(self)@.is_connected ==> channel < CHANNEL_COUNT,
        ensures
            final(self).wf(),
            client_sent(old(self)@, final(self)@, channel, packet@, now, out@.map_values(|b: Vec<u8>| b@)),
            keeps_sequence(old(self)@) ==> keeps_sequence(final(self)@),
    {
        let mut out: Vec<Vec<u8>> = Vec::new();
        let mut packet = packet;
        let ghost pv = packet@;
        if self.is_connected {
            let c = channel as usize;
            let id = self.server.channels[c].send_packet_count;
            packet.push::<PacketHeader>(&PacketHeader::new(PacketType::Data, channel, id));
            assert(packet@.data =~= data_bytes(pv.data, channel, id));
            let _ = self.server.channels[c].take_send_id();
            let t = self.channels.get_channel_type(channel);
            if t == ChannelType::Reliable || t == ChannelType::Sequenced {
                let spi = StoredPacketIdentifier::new(self.address.clone(), channel, id);
                let sp = StoredPacket::new_at(&packet, now);
                self.stored_packets.insert(spi, sp);
            }
            out.push(packet.to_bytes());
            assert(out@.map_values(|b: Vec<u8>| b@) =~= seq![data_bytes(pv.data, channel, id)]);
            proof {
                let pre = old(self)@.server.channels;
                let post = self@.server.channels;
                assert(channel_wf(pre[c as int]));
                assert(channel_wf(post[c as int]));
                assert forall|d: int| 0 <= d < CHANNEL_COUNT implies channel_wf(#[trigger] post[d]) by {
                    if d != c {
                        assert(post[d] == pre[d]);
                    }
                }
                if keeps_sequence(old(self)@) {
                    assert forall|d: u8| d < CHANNEL_COUNT implies #[trigger] sequence_kept(
                        self@.channels.type_of(d),
                        post[d as int],
                    ) by {
                        assert(sequence_kept(old(self)@.channels.type_of(d), pre[d as int]));
                    }
                }
            }
        } else {
            assert(out@.map_values(|b: Vec<u8>| b@) =~= Seq::<Seq<u8>>::empty());
        }
        out
    }

    /// Queues the receipt that acknowledges the packet with header `h`.
    fn send_receipt(h: &PacketHeader, out: &mut Vec<Vec<u8>>)
        ensures
            final(out)@.map_values(|b: Vec<u8>| b@) == old(out)@.map_values(|b: Vec<u8>| b@).push(receipt_bytes(*h)),
    {
        let packet = header_packet(PacketType::Receipt, h.channel_id, h.packet_id);
        let ghost before = out@;
        out.push(packet.to_bytes());
        assert(out@.map_values(|b: Vec<u8>| b@) =~= before.map_values(|b: Vec<u8>| b@).push(receipt_bytes(*h)));
    }

    fn handle_data(&mut self, h: PacketHeader, packet: Packet, now: u64, out: &mut Vec<Vec<u8>>)
        requires
            old(self).wf(),
            old(out)@.map_values(|b: Vec<u8>| b@) == Seq::<Seq<u8>>::empty(),
            h.channel_id < CHANNEL_COUNT,
            packet@.data.len() >= PACKET_HEADER_SIZE,
            header_id(packet@) == h.packet_id,
        ensures
            final(self).wf(),
            client_data_step(old(self)@, final(self)@, h, packet@, now, final(out)@.map_values(|b: Vec<u8>| b@)),
    {
        let c = h.channel_id as usize;
        let ghost pv = packet@;
        match self.channels.get_channel_type(h.channel_id) {
            ChannelType::Reliable => {
                Self::send_receipt(&h, out);
                let deliver = self.server.channels[c].receive_reliable(h.packet_id, now);
                if deliver {
                    self.push_event(ClientEvent::Data(packet));
                }
            },
            ChannelType::Sequenced => {
                Self::send_receipt(&h, out);
                let delivered = self.server.channels[c].receive_sequenced(h.packet_id, packet, now);
                let ghost dv = packet_seq_views(delivered@);
                proof {
                    lemma_sequenced_in_header_order(
                        old(self)@.server.channels[c as int],
                        self@.server.channels[c as int],
                        h.packet_id,
                        pv,
                        now,
                        dv,
                    );
                }
                let ghost e0 = self@.events;
                let ghost mk = |d: PacketView| ClientEventView::Data(d);
                let ghost mid = self@;
                for p in it: delivered
                    invariant
                        it.seq() == delivered@,
                        dv == packet_seq_views(delivered@),
                        mk == (|d: PacketView| ClientEventView::Data(d)),
                        self@ == (ClientView { events: self@.events, ..mid }),
                        self@.events == e0 + dv.take(it.index()).map_values(mk),
                {
                    self.push_event(ClientEvent::Data(p));
                    assert(dv.take(it.index() + 1) =~= dv.take(it.index()).push(p@));
                    assert(self@.events =~= e0 + dv.take(it.index() + 1).map_values(mk));
                }
                assert(dv.take(dv.len() as int) =~= dv);
            },
            ChannelType::Nonreliable => {
                self.push_event(ClientEvent::Data(packet));
            },
            ChannelType::NonreliableDropable => {
                let deliver = self.server.channels[c].receive_droppable(h.packet_id);
                if deliver {
                    self.push_event(ClientEvent::Data(packet));
                }
            },
        }
        proof {
            let pre = old(self)@.server.channels;
            let post = self@.server.channels;
            assert(channel_wf(pre[c as int]));
            assert(channel_wf(post[c as int]));
            assert forall|d: int| 0 <= d < CHANNEL_COUNT implies channel_wf(#[trigger] post[d]) by {
                if d != c {
                    assert(post[d] == pre[d]);
                }
            }
        }
    }

    /// Takes a datagram `datagram` that arrived from the server at `now`:
    /// updates the connection, queues events, and returns the datagrams to
    /// send and whether the client must reconnect (with a new socket).
    pub fn handle_datagram(&mut self, datagram: &[u8], now: u64) -> (r: (Vec<Vec<u8>>, bool))
        requires
            old(self).wf(),
            client_datagram_in_range(datagram@),
        ensures
            final(self).wf(),
            client_received(old(self)@, final(self)@, datagram@, now, r.0@.map_values(|b: Vec<u8>| b@), r.1),
            keeps_sequence(old(self)@) && !r.1 ==> keeps_sequence(final(self)@),
    {
        let mut out: Vec<Vec<u8>> = Vec::new();
        assert(out@.map_values(|b: Vec<u8>| b@) =~= Seq::<Seq<u8>>::empty());
        let size = datagram.len();
        if size < PACKET_HEADER_SIZE {
            return (out, false);
        }
        let mut packet = Packet::new();
        packet.push_bytes(datagram);
        assert(packet@.data =~= datagram@);
        packet.set_read_position(size - PACKET_HEADER_SIZE);
        let header = packet.read::<PacketHeader>();
        packet.reset_read_position();
        let mut reconnect = false;
        match header.packet_type {
            PacketType::Connect => {
                if !self.is_connected {
                    let accepted = packet.read::<bool>();
                    if accepted {
                        self.is_connected = true;
                        self.channels.reliable = packet.read::<u32>();
                        self.channels.sequence = packet.read::<u32>();
                        self.push_event(ClientEvent::Connect);
                    } else {
                        self.is_connected = false;
                        self.push_event(ClientEvent::ConnectionDenied);
                    }
                }
                Self::send_receipt(&header, &mut out);
                assert(out@.map_values(|b: Vec<u8>| b@) =~= seq![receipt_bytes(header)]);
            },
            PacketType::Disconnect => {
                if self.is_connected {
                    self.is_connected = false;
                    self.push_event(ClientEvent::Disconnect);
                    reconnect = true;
                }
            },
            PacketType::Data => {
                self.handle_data(header, packet, now, &mut out);
            },
            PacketType::Ping => {
                if self.is_connected {
                    self.server.update_timeout_at(now);
                    self.push_event(ClientEvent::Ping);
                }
            },
            PacketType::Receipt => {
                let spi = StoredPacketIdentifier::new(self.address.clone(), header.channel_id, header.packet_id);
                self.stored_packets.remove(&spi);
            },
            PacketType::Undefined => {},
        }
        proof {
            if keeps_sequence(old(self)@) && !reconnect {
                lemma_received_keeps_sequence(
                    old(self)@,
                    self@,
                    datagram@,
                    now,
                    out@.map_values(|b: Vec<u8>| b@),
                    reconnect,
                );
            }
        }
        (out, reconnect)
    }

    /// The periodic upkeep at `now`: pings the server once a second while
    /// connected; times the connection out when the server was silent for too
    /// long (the client must then reconnect); otherwise sends again the stored
    /// packets that waited long enough and forgets old received ids. Returns
    /// the datagrams to send and whether the client must reconnect.
    pub fn internal_update(&mut self, now: u64) -> (r: (Vec<Vec<u8>>, bool))
        requires
            old(self).wf(),
        ensures
            final(self).wf(),
            client_upkeep(old(self)@, final(self)@, now, r.0@.map_values(|b: Vec<u8>| b@), r.1),
            keeps_sequence(old(self)@) && !r.1 ==> keeps_sequence(final(self)@),
    {
        let mut out: Vec<Vec<u8>> = Vec::new();
        if self.is_connected && crate::peerdata::has_elapsed(self.ping_timer, now, PING_INTERVAL_MS) {
            let packet = header_packet(PacketType::Ping, INTERNAL_CHANNEL, 0);
            out.push(packet.to_bytes());
            self.ping_timer = now;
        }
        let ghost pinged = out@.map_values(|b: Vec<u8>| b@);
        assert(pinged =~= if old(self)@.is_connected && elapsed_at_least(old(self)@.ping_timer, now, PING_INTERVAL_MS) {
            seq![ping_bytes()]
        } else {
            Seq::<Seq<u8>>::empty()
        });
        if self.server.has_timed_out_at(now) {
            self.is_connected = false;
            self.server.update_timeout_at(now);
            self.push_event(ClientEvent::Timeout);
            return (out, true);
        }
        let mut resent = self.stored_packets.resend_due(now);
        let ghost due = crate::stored::datagrams_view(resent@);
        let mut i: usize = 0;
        while i < resent.len()
            invariant
                0 <= i <= resent@.len(),
                due == crate::stored::datagrams_view(resent@),
                out@.map_values(|b: Vec<u8>| b@) == pinged + due.take(i as int).map_values(|d: (Seq<char>, Seq<u8>)| d.1),
            decreases resent@.len() - i,
        {
            let ghost before = out@;
            let bytes = resent[i].bytes.clone();
            let ghost bv = bytes@;
            assert(bytes@ =~= resent@[i as int].bytes@);
            assert(due[i as int].1 == resent@[i as int].bytes@);
            out.push(bytes);
            assert(due.take(i + 1) =~= due.take(i as int).push(due[i as int]));
            let ghost g = |d: (Seq<char>, Seq<u8>)| d.1;
            assert(out@.map_values(|b: Vec<u8>| b@) =~= before.map_values(|b: Vec<u8>| b@).push(bv));
            assert(due.take(i + 1).map_values(g) =~= due.take(i as int).map_values(g).push(due[i as int].1));
            assert(out@.map_values(|b: Vec<u8>| b@) =~= pinged + due.take(i + 1).map_values(|d: (Seq<char>, Seq<u8>)| d.1));
            i = i + 1;
        }
        assert(due.take(due.len() as int) =~= due);
        self.server.prune_received(now);
        proof {
            if keeps_sequence(old(self)@) {
                lemma_upkeep_keeps_sequence(old(self)@, self@, now, out@.map_values(|b: Vec<u8>| b@), false);
            }
        }
        (out, false)
    }

    /// Starts over at `now` after the connection was lost (the caller opened
    /// a new socket): resets everything but the server's address, asks to
    /// connect, and queues a reconnecting event. Returns the datagram to send.
    pub fn reconnect(&mut self, now: u64) -> (out: Vec<Vec<u8>>)
        requires
            old(self).wf(),
        ensures
            reconnected(old(self)@, final(self)@, now, out@.map_values(|b: Vec<u8>| b@)),
    {
        self.channels = Channels::new();
        self.is_connected = false;
        self.events = VecDeque::new();
        self.stored_packets = StoredPackets::new();
        self.server = PeerData::new_at(now);
        self.internal_packet_count = 0;
        self.ping_timer = now;
        assert(self@.events =~= Seq::<ClientEventView>::empty());
        let out = self.connect(now);
        self.push_event(ClientEvent::Reconnecting);
        proof {
            let bytes = header_only(PacketType::Connect, INTERNAL_CHANNEL, 0);
            reveal(Seq::filter);
            assert(Seq::<StoredView>::empty().filter(|e: StoredView| e.key != (old(self)@.address, INTERNAL_CHANNEL, 0u128)) =~= Seq::<StoredView>::empty());
            assert(self@.events =~= seq![ClientEventView::Reconnecting]);
        }
        out
    }

    /// Whether `handle_datagram` can take `datagram`: a user packet must
    /// name one of the 32 channels.
    pub fn accepts_datagram(datagram: &[u8]) -> (b: bool)
        ensures
            b == client_datagram_in_range(datagram@),
    {
        match crate::messages::trailing_header(datagram) {
            None => true,
            Some(h) => h.packet_type != PacketType::Data || h.channel_id < CHANNEL_COUNT,
        }
    }

    /// Whether the server accepted the connection and has not dropped it since.
    pub fn is_connected(&self) -> (b: bool)
        ensures
            b == self@.is_connected,
    {
        self.is_connected
    }
}

} // verus!
