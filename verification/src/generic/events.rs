//! The events that the transport hands to its host and the commands that it
//! takes from it. A connection is named by the handle that the host gave it.

use bytes::Bytes;
use vstd::prelude::*;

use crate::protocol::binary::UDPAddress;

verus! {

/// Why a connection has ended.
#[derive(Clone, Copy, Debug, PartialEq, Eq, Structural)]
pub enum DisconnectReason {
    IncompatibleProtocol,
    ClientDisconnect,
    ServerDisconnect,
    ClientTimeout,
    ServerShutdown,
    DuplicateLogin,
}

/// Why an address has been blocked.
#[derive(Clone, Copy, Debug, PartialEq, Eq, Structural)]
pub enum BlockReason {
    PacketSpam,
    MalformedPackets,
}

/// What happens on a connection, and what the host asks of one.
#[derive(Clone, Debug, PartialEq, Eq)]
pub enum RakNetEvent {
    /// A peer has asked to open a connection.
    ConnectionRequest(UDPAddress),
    /// The connection with the peer at this address is established.
    ConnectionEstablished(UDPAddress, u64),
    /// A batch of game packets has arrived.
    IncomingBatch(u64, Vec<u8>),
    /// The host asks to send a batch of game packets.
    OutgoingBatch(u64, Vec<u8>),
    /// The host asks to close the connection in good order.
    GracefulDisconnect(u64),
    /// The connection has ended.
    Disconnect(u64, DisconnectReason),
    /// The address is blocked for this many seconds.
    Blocked(UDPAddress, u64, BlockReason),
    /// The peer has answered a ping; the difference of the two timestamps.
    Ping(u64, u64),
    /// The round-trip time in milliseconds, after an acknowledgement.
    Latency(u64, u64),
    /// The peer speaks another protocol version; the version of the server.
    IncompatibleProtocol(u64, u8),
}

/// An event as a mathematical value.
pub ghost enum RakNetEventView {
    ConnectionRequest(UDPAddress),
    ConnectionEstablished(UDPAddress, u64),
    IncomingBatch(u64, Seq<u8>),
    OutgoingBatch(u64, Seq<u8>),
    GracefulDisconnect(u64),
    Disconnect(u64, DisconnectReason),
    Blocked(UDPAddress, u64, BlockReason),
    Ping(u64, u64),
    Latency(u64, u64),
    IncompatibleProtocol(u64, u8),
}

impl View for RakNetEvent {
    type V = RakNetEventView;

    open spec fn view(&self) -> RakNetEventView {
        match *self {
            RakNetEvent::ConnectionRequest(a) => RakNetEventView::ConnectionRequest(a),
            RakNetEvent::ConnectionEstablished(a, h) => RakNetEventView::ConnectionEstablished(a, h),
            RakNetEvent::IncomingBatch(h, data) => RakNetEventView::IncomingBatch(h, data@),
            RakNetEvent::OutgoingBatch(h, data) => RakNetEventView::OutgoingBatch(h, data@),
            RakNetEvent::GracefulDisconnect(h) => RakNetEventView::GracefulDisconnect(h),
            RakNetEvent::Disconnect(h, r) => RakNetEventView::Disconnect(h, r),
            RakNetEvent::Blocked(a, d, r) => RakNetEventView::Blocked(a, d, r),
            RakNetEvent::Ping(h, p) => RakNetEventView::Ping(h, p),
            RakNetEvent::Latency(h, l) => RakNetEventView::Latency(h, l),
            RakNetEvent::IncompatibleProtocol(h, v) => RakNetEventView::IncompatibleProtocol(h, v),
        }
    }
}

/// The events of a list as mathematical values, in their order.
pub open spec fn events_view(events: Seq<RakNetEvent>) -> Seq<RakNetEventView> {
    Seq::new(events.len(), |i: int| events[i]@)
}

/// Adds an event to the list.
pub fn emit(ev: &mut Vec<RakNetEvent>, event: RakNetEvent)
    ensures
        events_view(final(ev)@) == events_view(old(ev)@).push(event@),
{
    ev.push(event);
    assert(events_view(ev@) =~= events_view(old(ev)@).push(event@));
}

/// What happens in the layer above the transport, which carries Minecraft
/// packets that may be compressed and encrypted.
pub enum NetworkEvent {
    ConnectionRequest(u64),
    ConnectionEstablished(u64),
    IncomingPacket(u64, Bytes),
    OutgoingPacket(u64, Bytes),
}

} // verus!
