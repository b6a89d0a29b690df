//! The per-connection reliability engine, the listener, and the steps that
//! the host takes at every tick and for every datagram.

use vstd::prelude::*;

use crate::generic::events::{
    emit, events_view, BlockReason, DisconnectReason, RakNetEvent, RakNetEventView,
};
use crate::generic::window::elapsed;
use crate::protocol::binary::{Error, UDPAddress};
use crate::protocol::mcpe::{
    status_text, BroadcastGamemode, MaxPlayers, MinecraftProtocol, MinecraftVersion, OnlinePlayers,
    PrimaryMotd, SecondaryMotd, StatusResource,
};
use crate::protocol::binary::contents;
use crate::protocol::message::{lemma_wire_len, Message, MessageView};
use crate::protocol::reliability::Reliability;
use crate::protocol::RAKNET_BLOCK_DUR;

use self::listener::{announced, Ingress, Listener};
use self::socket::{SocketInfo, Tables};
use self::stream::{NetworkStatus, RakStream, StreamState};

pub mod client;
pub mod listener;
pub mod socket;
pub mod stream;

verus! {

/// The peer has been silent for more than `timeout` milliseconds at `now`.
pub open spec fn timed_out(status: NetworkStatus, timeout: u64, now: u64) -> bool {
    elapsed(status.last_activity, now) > timeout
}

/// Checks a connection for a timeout: where the peer has been silent for
/// more than `timeout` milliseconds, the connection ends.
pub fn check_timeout(
    status: &NetworkStatus,
    handle: u64,
    timeout: u64,
    ev: &mut Vec<RakNetEvent>,
    now: u64,
)
    ensures
        events_view(final(ev)@) == if timed_out(*status, timeout, now) {
            events_view(old(ev)@).push(
                RakNetEventView::Disconnect(handle, DisconnectReason::ClientTimeout),
            )
        } else {
            events_view(old(ev)@)
        },
{
    let silent: u64 = if now >= status.last_activity {
        now - status.last_activity
    } else {
        0
    };
    if silent > timeout {
        emit(ev, RakNetEvent::Disconnect(handle, DisconnectReason::ClientTimeout));
    }
}

/// Writes the status that goes into the answer to a ping anew from the
/// settings of the server.
pub fn server_update_status(
    primary: &PrimaryMotd,
    secondary: &SecondaryMotd,
    online: &OnlinePlayers,
    max: &MaxPlayers,
    protocol: &MinecraftProtocol,
    version: &MinecraftVersion,
    gamemode: &BroadcastGamemode,
    info: &SocketInfo,
    status: &mut StatusResource,
)
    ensures
        contents(final(status).bytes) == status_text(
            primary.0@,
            protocol.0,
            version.0@,
            online.0,
            max.0,
            info.guid,
            secondary.0@,
            gamemode.0@,
            match info.addr {
                UDPAddress::V4 { ip, port } => port,
                UDPAddress::V6 { ip, port } => port,
            },
        ),
{
    status.update(
        primary,
        secondary,
        online,
        max,
        protocol,
        version,
        gamemode,
        info.guid,
        info.addr.port(),
    );
}

/// The tables of the listener after a datagram from `addr` has arrived at
/// `now`. Nothing changes for a sender that is connected. For any other
/// sender a block that has ended is forgotten; unless the sender is blocked,
/// the datagram is counted; and unless that blocks the sender, a datagram
/// that is no message is counted as malformed.
pub open spec fn ingress_tables(tables: Tables, addr: UDPAddress, buffer: Seq<u8>, now: u64) -> Tables {
    if tables.connections.contains_key(addr) || tables.is_blocked(addr, now) {
        tables
    } else {
        let counted = tables.expire(addr, now).check_packet_spam(addr, now);
        if tables.expire(addr, now).spams(addr, now) || MessageView::parse(buffer, 0) is Ok {
            counted
        } else {
            counted.check_invalid_packets(addr, now)
        }
    }
}

/// The events that a datagram from `addr` gives rise to at the listener: a
/// sender that is not connected is blocked where the datagram is one too
/// many or one malformed datagram too many, and its message is announced.
pub open spec fn ingress_events(tables: Tables, addr: UDPAddress, buffer: Seq<u8>, now: u64) -> Seq<
    RakNetEventView,
> {
    let open = tables.expire(addr, now);
    let counted = open.check_packet_spam(addr, now);
    if tables.connections.contains_key(addr) || tables.is_blocked(addr, now) {
        Seq::empty()
    } else if open.spams(addr, now) {
        seq![RakNetEventView::Blocked(addr, RAKNET_BLOCK_DUR, BlockReason::PacketSpam)]
    } else {
        match MessageView::parse(buffer, 0) {
            Ok(m) => announced(addr, m),
            Err(e) => if counted.offends(addr) {
                seq![RakNetEventView::Blocked(addr, RAKNET_BLOCK_DUR, BlockReason::MalformedPackets)]
            } else {
                Seq::empty()
            },
        }
    }
}

/// Takes in a datagram that has arrived at the server from `addr`. A
/// datagram of a connected peer is for the engine of that connection, whose
/// handle is the result. Any other datagram is dropped where its sender is
/// blocked or is blocked for this very datagram; otherwise it is answered as
/// a message of a peer that is not connected, or counted as malformed.
pub fn server_read_udp(
    listener: &mut Listener,
    addr: UDPAddress,
    buffer: &[u8],
    status: &[u8],
    ev: &mut Vec<RakNetEvent>,
    now: u64,
) -> (res: Ingress)
    requires
        old(listener).wf(),
        status@.len() <= 0xffff,
    ensures
        final(listener).wf(),
        final(listener).addr == old(listener).addr,
        final(listener).guid == old(listener).guid,
        final(listener).mappings@ == ingress_tables(old(listener).mappings@, addr, buffer@, now),
        events_view(final(ev)@) == events_view(old(ev)@) + ingress_events(
            old(listener).mappings@,
            addr,
            buffer@,
            now,
        ),
        ({
            let tables = old(listener).mappings@;
            if tables.connections.contains_key(addr) {
                res matches Ingress::Connected(handle) && handle == tables.connections[addr]
            } else if tables.is_blocked(addr, now) || tables.expire(addr, now).spams(addr, now) {
                res is Dropped
            } else {
                match MessageView::parse(buffer@, 0) {
                    Ok(m) => res matches Ingress::Unconnected(reply) && reply.answers(
                        old(listener).guid,
                        addr,
                        m,
                        buffer@.len() as int,
                        status@,
                        now,
                    ),
                    Err(e) => res matches Ingress::Malformed(f) && f == e,
                }
            }
        }),
{
    proof {
        assert(events_view(ev@) + Seq::<RakNetEventView>::empty() =~= events_view(ev@));
    }
    match listener.connection(addr) {
        Some(handle) => {
            return Ingress::Connected(handle);
        },
        None => {},
    }
    if listener.is_blocked(addr, now) {
        return Ingress::Dropped;
    }
    if listener.check_packet_spam(addr, ev, now) {
        assert(events_view(ev@) =~= events_view(old(ev)@) + seq![
            RakNetEventView::Blocked(addr, RAKNET_BLOCK_DUR, BlockReason::PacketSpam),
        ]);
        return Ingress::Dropped;
    }
    let ghost counted = listener.mappings@;
    match listener.handle_unconnected_message(addr, buffer, status, ev, now) {
        Ok(reply) => Ingress::Unconnected(reply),
        Err(e) => {
            listener.check_invalid_packets(addr, ev, now);
            proof {
                if counted.offends(addr) {
                    assert(events_view(ev@) =~= events_view(old(ev)@) + seq![
                        RakNetEventView::Blocked(
                            addr,
                            RAKNET_BLOCK_DUR,
                            BlockReason::MalformedPackets,
                        ),
                    ]);
                }
            }
            Ingress::Malformed(e)
        },
    }
}

/// Takes in a datagram that has arrived at a client from its server.
pub fn client_read_udp(
    stream: &mut RakStream,
    buffer: &[u8],
    ev: &mut Vec<RakNetEvent>,
    handle: u64,
    now: u64,
) -> (res: Result<(), Error>)
    requires
        old(stream).wf(),
    ensures
        final(stream).wf(),
        final(stream)@ == old(stream)@.decode(buffer@, handle, now).state,
        events_view(final(ev)@) == events_view(old(ev)@) + old(stream)@.decode(
            buffer@,
            handle,
            now,
        ).events,
        res == old(stream)@.decode(buffer@, handle, now).result,
{
    stream.decode(buffer, ev, handle, now)
}

/// The tick of the receipts: the epoch of the connection is closed, and what
/// was received and what is missing is reported to the peer.
pub fn flush_receipts(stream: &mut RakStream)
    requires
        old(stream).wf(),
    ensures
        final(stream).wf(),
        final(stream)@ == old(stream)@.flush_receipts(),
{
    stream.flush_receipts();
}

/// The tick of the datagrams: the frames that the connection has batched go
/// out, if there are any.
pub fn flush_batch(stream: &mut RakStream, now: u64)
    requires
        old(stream).wf(),
    ensures
        final(stream).wf(),
        final(stream)@ == old(stream)@.try_flush(now),
{
    stream.try_flush(now);
}

/// The most bytes of game packets that go out in one batch.
pub const MAX_BATCH_SIZE: usize = 0x7fff_0000;

/// The state of a connection after the host has handed it the event.
/// Game packets of the host for this connection are encoded as a reliable
/// and ordered message, unless they are too many for one batch. The wish to
/// end the connection in good order has a disconnect notification encoded in
/// the same way and everything batched sent.
pub open spec fn tick_state(state: StreamState, event: RakNetEventView, handle: u64, now: u64) -> StreamState {
    match event {
        RakNetEventView::OutgoingBatch(h, data) => if h == handle && data.len() <= MAX_BATCH_SIZE {
            state.encode(
                MessageView::GamePacket { data }.wire(),
                Reliability::ReliableOrdered,
                now,
            )
        } else {
            state
        },
        RakNetEventView::GracefulDisconnect(h) => if h == handle {
            state.encode(seq![0x15u8], Reliability::ReliableOrdered, now).try_flush(now)
        } else {
            state
        },
        _ => state,
    }
}

/// The connection is to be torn down after the event: it has ended, or the
/// host wishes to end it.
pub open spec fn tick_ends(event: RakNetEventView, handle: u64) -> bool {
    match event {
        RakNetEventView::GracefulDisconnect(h) => h == handle,
        RakNetEventView::Disconnect(h, _) => h == handle,
        _ => false,
    }
}

/// Hands an event to the connection with the given handle and says whether
/// the connection is to be torn down.
pub fn connection_tick(event: &RakNetEvent, stream: &mut RakStream, handle: u64, now: u64) -> (ends:
    bool)
    requires
        old(stream).wf(),
    ensures
        final(stream).wf(),
        final(stream)@ == tick_state(old(stream)@, event@, handle, now),
        ends == tick_ends(event@, handle),
{
    match event {
        RakNetEvent::OutgoingBatch(h, data) => {
            if *h == handle && data.len() <= MAX_BATCH_SIZE {
                let message = Message::GamePacket {
                    data: vstd::slice::slice_to_vec(data.as_slice()),
                };
                proof {
                    lemma_wire_len(message@);
                }
                stream.encode(&message, Reliability::ReliableOrdered, now);
            }
            false
        },
        RakNetEvent::GracefulDisconnect(h) => {
            if *h == handle {
                stream.disconnect(now);
                true
            } else {
                false
            }
        },
        RakNetEvent::Disconnect(h, _) => *h == handle,
        _ => false,
    }
}

} // verus!
