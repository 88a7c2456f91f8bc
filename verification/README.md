# udpnet

A message-oriented networking layer over UDP datagrams, written in Verus.

Every datagram carries an 18-byte header at its end (packet id, packet type,
channel). Each of 32 channels has a delivery guarantee: reliable
(acknowledged, retransmitted, and delivered at most once while its id is
remembered, which is 5 seconds after it arrived), sequenced (also delivered
by packet id, in send order and without a gap), nonreliable, or
nonreliable-and-droppable (only newer packets are delivered). A server accepts connections up to a maximum, answers pings, and
drops clients that stay silent; a client pings, times out and reconnects.

Layout:

- `src/` — the verified library. `bytes`, `packet` and `packetserialize`
  encode values into packets and read them back; `channel` holds the channel
  guarantees; `peerdata` and `stored` the per-connection state and the packets
  awaiting receipts; `messages` the protocol's own packets; `server` and
  `client` the two ends as state machines that take a datagram (and the time)
  and return the datagrams to send.
- `app/` — the sockets, the clock and the main loop around the library.
  Each `update` runs the library's upkeep (pings, time-outs, resending)
  once after every datagram it receives, and stops when the socket has
  nothing waiting, before any upkeep; so an end that receives nothing does
  not ping, time out or resend until a datagram arrives.
- `tests/` — tests of the library.
