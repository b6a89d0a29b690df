//! The listener: it answers the messages of peers that are not connected,
//! leads them through the handshake, and keeps them from flooding the server.

use rand::random;
use vstd::prelude::*;

use super::socket::{Mappings, Tables};
use super::stream::{NetworkInfo, RakStream, StreamState};
use crate::generic::events::{emit, events_view, BlockReason, RakNetEvent, RakNetEventView};
use crate::protocol::binary::{buffer_to_vec, buffer_with_capacity, Error, Reader, UDPAddress};
use crate::protocol::message::{Message, MessageView};
use crate::protocol::{MAX_MTU_SIZE, PROTOCOL_VERSION, RAKNET_BLOCK_DUR, UDP_HEADER_SIZE};

verus! {

/// `rand::random` for a signed 64-bit number: any number may come back.
#[verifier::external_body]
fn random_guid() -> i64 {
    random::<i64>()
}

/// The listener of a server: the address it is bound to, its id, and its
/// tables.
pub struct Listener {
    pub addr: UDPAddress,
    pub guid: i64,
    pub mappings: Mappings,
}

/// What the listener has to say to a message of a peer that is not
/// connected: the datagram to send back, if any, and the connection that the
/// message has opened, if any.
pub struct Reply {
    pub datagram: Option<Vec<u8>>,
    pub connection: Option<(NetworkInfo, RakStream)>,
}

/// What became of a datagram that arrived at the listener.
pub enum Ingress {
    /// The datagram was dropped: its sender is blocked or has just been.
    Dropped,
    /// The datagram belongs to the connection with this handle.
    Connected(u64),
    /// The datagram was a message of a peer that is not connected.
    Unconnected(Reply),
    /// The datagram was malformed, and was counted against its sender.
    Malformed(Error),
}

/// The MTU that the server offers to a peer whose first request was `len`
/// bytes long: the length with the headers of IP and UDP, and no more than
/// `MAX_MTU_SIZE`.
pub open spec fn server_mtu(len: int) -> u16 {
    if len + UDP_HEADER_SIZE > MAX_MTU_SIZE {
        MAX_MTU_SIZE as u16
    } else {
        (len + UDP_HEADER_SIZE) as u16
    }
}

/// The MTU of a connection with a peer that asks for `client_mtu`: what it
/// asks for, and no more than `MAX_MTU_SIZE`.
pub open spec fn agreed_mtu(client_mtu: u16) -> u16 {
    if client_mtu > MAX_MTU_SIZE {
        MAX_MTU_SIZE as u16
    } else {
        client_mtu
    }
}

/// The answer of a server with the id `guid` and the status `status` to the
/// message `m` of the peer at `addr`, which arrived in a datagram of `len`
/// bytes. A ping is answered with a pong that carries the status. The first
/// request of the handshake is answered with the MTU that the server offers,
/// or with the version of the server where the peer speaks another. The
/// second request is answered with the MTU of the connection. Nothing else
/// is answered.
pub open spec fn answer(guid: i64, addr: UDPAddress, m: MessageView, len: int, status: Seq<u8>) -> Option<
    MessageView,
> {
    match m {
        MessageView::UnconnectedPing { send_timestamp, .. } => Some(
            MessageView::UnconnectedPong { send_timestamp, server_guid: guid, data: status },
        ),
        MessageView::UnconnectedPingOpenConnections { send_timestamp, .. } => Some(
            MessageView::UnconnectedPong { send_timestamp, server_guid: guid, data: status },
        ),
        MessageView::OpenConnectionRequest1 { protocol, .. } => if protocol != PROTOCOL_VERSION {
            Some(
                MessageView::IncompatibleProtocolVersion {
                    server_protocol: PROTOCOL_VERSION,
                    server_guid: guid,
                },
            )
        } else {
            Some(
                MessageView::OpenConnectionReply1 {
                    server_guid: guid,
                    secure: false,
                    server_mtu: server_mtu(len),
                },
            )
        },
        MessageView::OpenConnectionRequest2 { client_mtu, .. } => Some(
            MessageView::OpenConnectionReply2 {
                server_guid: guid,
                client_address: addr,
                mtu_size: agreed_mtu(client_mtu),
                secure: false,
            },
        ),
        _ => None,
    }
}

/// The events that the message `m` of the peer at `addr` gives rise to: a
/// first request of the handshake in the version of the server is a
/// connection request.
pub open spec fn announced(addr: UDPAddress, m: MessageView) -> Seq<RakNetEventView> {
    match m {
        MessageView::OpenConnectionRequest1 { protocol, .. } => if protocol == PROTOCOL_VERSION {
            seq![RakNetEventView::ConnectionRequest(addr)]
        } else {
            Seq::empty()
        },
        _ => Seq::empty(),
    }
}

/// The connection that the message `m` of the peer at `addr` opens at `now`,
/// if it opens one: the second request of the handshake does.
pub open spec fn opened(addr: UDPAddress, m: MessageView, now: u64) -> Option<
    (NetworkInfo, StreamState),
> {
    match m {
        MessageView::OpenConnectionRequest2 { server_address, client_mtu, .. } => Some(
            (
                NetworkInfo { local_addr: server_address, remote_addr: addr },
                StreamState::fresh(addr, agreed_mtu(client_mtu) as int, now),
            ),
        ),
        _ => None,
    }
}

impl Reply {
    /// The reply is the one that the message `m` asks for.
    pub open spec fn answers(
        &self,
        guid: i64,
        addr: UDPAddress,
        m: MessageView,
        len: int,
        status: Seq<u8>,
        now: u64,
    ) -> bool {
        &&& match answer(guid, addr, m, len, status) {
            Some(reply) => self.datagram matches Some(bytes) && bytes@ == reply.wire(),
            None => self.datagram is None,
        }
        &&& match opened(addr, m, now) {
            Some((info, state)) => self.connection matches Some((i, stream)) && i == info
                && stream.wf() && stream@ == state,
            None => self.connection is None,
        }
    }
}

/// The bytes of a message.
fn to_datagram(message: &Message) -> (bytes: Vec<u8>)
    requires
        message@.wf(),
    ensures
        bytes@ == message@.wire(),
{
    let mut buf = buffer_with_capacity(MAX_MTU_SIZE);
    message.serialize(&mut buf);
    let bytes = buffer_to_vec(&buf);
    assert(bytes@ =~= message@.wire());
    bytes
}

impl Listener {
    /// The invariant of the listener: that of its tables.
    pub open spec fn wf(&self) -> bool {
        self.mappings.wf()
    }

    /// A listener bound to `addr` with empty tables and an id drawn at random.
    pub fn new(addr: UDPAddress) -> (listener: Listener)
        ensures
            listener.wf(),
            listener.addr == addr,
            listener.mappings@ == Tables::empty(),
    {
        Listener::with_guid(addr, random_guid())
    }

    /// A listener bound to `addr` with empty tables and the id `guid`.
    pub fn with_guid(addr: UDPAddress, guid: i64) -> (listener: Listener)
        ensures
            listener.wf(),
            listener.addr == addr,
            listener.guid == guid,
            listener.mappings@ == Tables::empty(),
    {
        Listener { addr, guid, mappings: Mappings::new() }
    }

    /// Whether the peer is blocked at `now`. A block that has ended is
    /// forgotten.
    pub fn is_blocked(&mut self, addr: UDPAddress, now: u64) -> (blocked: bool)
        requires
            old(self).wf(),
        ensures
            final(self).wf(),
            final(self).addr == old(self).addr,
            final(self).guid == old(self).guid,
            blocked == old(self).mappings@.is_blocked(addr, now),
            final(self).mappings@ == old(self).mappings@.expire(addr, now),
    {
        self.mappings.is_blocked(addr, now)
    }

    /// Counts a datagram of the peer at `now` and says whether it is one too
    /// many; if so the peer is blocked for spamming.
    pub fn check_packet_spam(&mut self, addr: UDPAddress, ev: &mut Vec<RakNetEvent>, now: u64) -> (spam:
        bool)
        requires
            old(self).wf(),
        ensures
            final(self).wf(),
            final(self).addr == old(self).addr,
            final(self).guid == old(self).guid,
            spam == old(self).mappings@.spams(addr, now),
            final(self).mappings@ == old(self).mappings@.check_packet_spam(addr, now),
            events_view(final(ev)@) == if spam {
                events_view(old(ev)@).push(
                    RakNetEventView::Blocked(addr, RAKNET_BLOCK_DUR, BlockReason::PacketSpam),
                )
            } else {
                events_view(old(ev)@)
            },
    {
        self.mappings.check_packet_spam(addr, ev, now)
    }

    /// Counts a malformed datagram of the peer; the peer is blocked where it
    /// is one too many.
    pub fn check_invalid_packets(&mut self, addr: UDPAddress, ev: &mut Vec<RakNetEvent>, now: u64)
        requires
            old(self).wf(),
        ensures
            final(self).wf(),
            final(self).addr == old(self).addr,
            final(self).guid == old(self).guid,
            final(self).mappings@ == old(self).mappings@.check_invalid_packets(addr, now),
            events_view(final(ev)@) == if old(self).mappings@.offends(addr) {
                events_view(old(ev)@).push(
                    RakNetEventView::Blocked(addr, RAKNET_BLOCK_DUR, BlockReason::MalformedPackets),
                )
            } else {
                events_view(old(ev)@)
            },
    {
        self.mappings.check_invalid_packets(addr, ev, now)
    }

    /// Blocks the peer at `now` for `RAKNET_BLOCK_DUR` seconds and tells the
    /// host why.
    pub fn block(
        &mut self,
        addr: UDPAddress,
        ev: &mut Vec<RakNetEvent>,
        reason: BlockReason,
        now: u64,
    )
        requires
            old(self).wf(),
        ensures
            final(self).wf(),
            final(self).addr == old(self).addr,
            final(self).guid == old(self).guid,
            final(self).mappings@ == old(self).mappings@.block(addr, now),
            events_view(final(ev)@) == events_view(old(ev)@).push(
                RakNetEventView::Blocked(addr, RAKNET_BLOCK_DUR, reason),
            ),
    {
        self.mappings.block(addr, ev, reason, now)
    }

    /// The handle of the connection with the peer, if there is one.
    pub fn connection(&self, addr: UDPAddress) -> (handle: Option<u64>)
        requires
            self.wf(),
        ensures
            handle == if self.mappings@.connections.contains_key(addr) {
                Some(self.mappings@.connections[addr])
            } else {
                None
            },
    {
        self.mappings.connections.get(addr)
    }

    /// Enters the connection with the peer under the handle that the host
    /// gave it.
    pub fn register(&mut self, addr: UDPAddress, handle: u64)
        requires
            old(self).wf(),
        ensures
            final(self).wf(),
            final(self).addr == old(self).addr,
            final(self).guid == old(self).guid,
            final(self).mappings@ == (Tables {
                connections: old(self).mappings@.connections.insert(addr, handle),
                ..old(self).mappings@
            }),
    {
        self.mappings.connections.insert(addr, handle);
    }

    /// Strikes the connection with the peer, which has ended.
    pub fn forget(&mut self, addr: UDPAddress)
        requires
            old(self).wf(),
        ensures
            final(self).wf(),
            final(self).addr == old(self).addr,
            final(self).guid == old(self).guid,
            final(self).mappings@ == (Tables {
                connections: old(self).mappings@.connections.remove(addr),
                ..old(self).mappings@
            }),
    {
        self.mappings.connections.remove(addr);
    }

    /// Hands a datagram of a connected peer to the engine of its connection.
    /// A datagram that the engine cannot decode is counted against the peer,
    /// which is blocked where it is one malformed datagram too many.
    pub fn handle_connected_message(
        &mut self,
        addr: UDPAddress,
        buffer: &[u8],
        stream: &mut RakStream,
        handle: u64,
        ev: &mut Vec<RakNetEvent>,
        now: u64,
    ) -> (res: Result<(), Error>)
        requires
            old(self).wf(),
            old(stream).wf(),
        ensures
            final(self).wf(),
            final(stream).wf(),
            final(self).addr == old(self).addr,
            final(self).guid == old(self).guid,
            final(stream)@ == old(stream)@.decode(buffer@, handle, now).state,
            res == old(stream)@.decode(buffer@, handle, now).result,
            final(self).mappings@ == if res is Err {
                old(self).mappings@.check_invalid_packets(addr, now)
            } else {
                old(self).mappings@
            },
            events_view(final(ev)@) == events_view(old(ev)@) + old(stream)@.decode(
                buffer@,
                handle,
                now,
            ).events + if res is Err && old(self).mappings@.offends(addr) {
                seq![
                    RakNetEventView::Blocked(addr, RAKNET_BLOCK_DUR, BlockReason::MalformedPackets),
                ]
            } else {
                Seq::empty()
            },
    {
        let res = stream.decode(buffer, ev, handle, now);
        let ghost decoded = events_view(ev@);
        match res {
            Err(e) => {
                self.check_invalid_packets(addr, ev, now);
                proof {
                    if old(self).mappings@.offends(addr) {
                        assert(events_view(ev@) =~= decoded + seq![
                            RakNetEventView::Blocked(
                                addr,
                                RAKNET_BLOCK_DUR,
                                BlockReason::MalformedPackets,
                            ),
                        ]);
                    } else {
                        assert(events_view(ev@) =~= decoded + Seq::<RakNetEventView>::empty());
                    }
                }
            },
            Ok(_) => {
                assert(events_view(ev@) =~= decoded + Seq::<RakNetEventView>::empty());
            },
        }
        res
    }

    /// Answers the message in `buffer` of the peer at `addr`, which is not
    /// connected. `status` goes into the answer to a ping. The result has the
    /// datagram to send back and, after the second request of the handshake,
    /// the engine of the new connection, made at `now`. The tables do not
    /// change: the host enters the connection once it has a handle for it.
    pub fn handle_unconnected_message(
        &self,
        addr: UDPAddress,
        buffer: &[u8],
        status: &[u8],
        ev: &mut Vec<RakNetEvent>,
        now: u64,
    ) -> (res: Result<Reply, Error>)
        requires
            status@.len() <= 0xffff,
        ensures
            match MessageView::parse(buffer@, 0) {
                Ok(m) => res matches Ok(reply) && reply.answers(
                    self.guid,
                    addr,
                    m,
                    buffer@.len() as int,
                    status@,
                    now,
                ) && events_view(final(ev)@) == events_view(old(ev)@) + announced(addr, m),
                Err(e) => res matches Err(f) && f == e && events_view(final(ev)@) == events_view(
                    old(ev)@,
                ),
            },
    {
        let mut reader = Reader::new(buffer);
        let message = match Message::deserialize(&mut reader) {
            Ok(message) => message,
            Err(e) => {
                return Err(e);
            },
        };
        proof {
            assert(events_view(ev@) + Seq::<RakNetEventView>::empty() =~= events_view(ev@));
        }
        match message {
            Message::UnconnectedPing { send_timestamp, magic, client_guid } => {
                let resp = Message::UnconnectedPong {
                    send_timestamp,
                    server_guid: self.guid,
                    magic,
                    data: vstd::slice::slice_to_vec(status),
                };
                Ok(Reply { datagram: Some(to_datagram(&resp)), connection: None })
            },
            Message::UnconnectedPingOpenConnections { send_timestamp, magic, client_guid } => {
                let resp = Message::UnconnectedPong {
                    send_timestamp,
                    server_guid: self.guid,
                    magic,
                    data: vstd::slice::slice_to_vec(status),
                };
                Ok(Reply { datagram: Some(to_datagram(&resp)), connection: None })
            },
            Message::OpenConnectionRequest1 { magic, protocol, emptybuf } => {
                let len: usize = buffer.len();
                let server_mtu: usize = if len > MAX_MTU_SIZE - UDP_HEADER_SIZE {
                    MAX_MTU_SIZE
                } else {
                    len + UDP_HEADER_SIZE
                };
                if protocol != PROTOCOL_VERSION {
                    let resp = Message::IncompatibleProtocolVersion {
                        server_protocol: PROTOCOL_VERSION,
                        magic,
                        server_guid: self.guid,
                    };
                    return Ok(Reply { datagram: Some(to_datagram(&resp)), connection: None });
                }
                let resp = Message::OpenConnectionReply1 {
                    magic,
                    server_guid: self.guid,
                    secure: false,
                    server_mtu: server_mtu as u16,
                };
                emit(ev, RakNetEvent::ConnectionRequest(addr));
                assert(events_view(ev@) =~= events_view(old(ev)@) + seq![
                    RakNetEventView::ConnectionRequest(addr),
                ]);
                Ok(Reply { datagram: Some(to_datagram(&resp)), connection: None })
            },
            Message::OpenConnectionRequest2 { magic, server_address, client_mtu, client_guid } => {
                let mtu_size: usize = if client_mtu as usize > MAX_MTU_SIZE {
                    MAX_MTU_SIZE
                } else {
                    client_mtu as usize
                };
                let resp = Message::OpenConnectionReply2 {
                    magic,
                    server_guid: self.guid,
                    client_address: addr,
                    mtu_size: mtu_size as u16,
                    secure: false,
                };
                let info = NetworkInfo { local_addr: server_address, remote_addr: addr };
                let stream = RakStream::new(addr, mtu_size, now);
                Ok(Reply { datagram: Some(to_datagram(&resp)), connection: Some((info, stream)) })
            },
            _ => Ok(Reply { datagram: None, connection: None }),
        }
    }
}

} // verus!
