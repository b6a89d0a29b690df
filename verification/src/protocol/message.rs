//! The control messages, keyed by their one-byte id.

use bytes::BytesMut;
use vstd::prelude::*;
use vstd::slice::slice_to_vec;

use super::binary::{
    avail, be, bool_at, contents, i64_at, internal_address, lemma_address_roundtrip, lemma_be_len,
    lemma_be_roundtrip, lemma_fits_widths, lemma_magic_roundtrip, magic, put_i64, put_slice,
    put_u16, put_u8, u16_at, u8_at, unsigned64, Error, Magic, Reader, SystemAddresses, UDPAddress,
};
use super::SYSTEM_ADDRESS_COUNT;

verus! {

/// A control message.
#[derive(Debug, Clone, PartialEq, Eq)]
#[allow(inconsistent_fields)]
pub enum Message {
    UnconnectedPing { send_timestamp: i64, magic: Magic, client_guid: i64 },
    UnconnectedPingOpenConnections { send_timestamp: i64, magic: Magic, client_guid: i64 },
    UnconnectedPong { send_timestamp: i64, server_guid: i64, magic: Magic, data: Vec<u8> },
    OpenConnectionRequest1 { magic: Magic, protocol: u8, emptybuf: Vec<u8> },
    OpenConnectionReply1 { magic: Magic, server_guid: i64, secure: bool, server_mtu: u16 },
    OpenConnectionRequest2 {
        magic: Magic,
        server_address: UDPAddress,
        client_mtu: u16,
        client_guid: i64,
    },
    OpenConnectionReply2 {
        magic: Magic,
        server_guid: i64,
        client_address: UDPAddress,
        mtu_size: u16,
        secure: bool,
    },
    IncompatibleProtocolVersion { server_protocol: u8, magic: Magic, server_guid: i64 },
    ConnectedPing { client_timestamp: i64 },
    ConnectedPong { client_timestamp: i64, server_timestamp: i64 },
    ConnectionRequest { client_guid: i64, request_timestamp: i64, secure: bool },
    ConnectionRequestAccepted {
        client_address: UDPAddress,
        system_addresses: SystemAddresses,
        request_timestamp: i64,
        accept_timestamp: i64,
    },
    NewIncomingConnection {
        server_address: UDPAddress,
        system_addresses: SystemAddresses,
        request_timestamp: i64,
        accept_timestamp: i64,
    },
    DetectLostConnections {  },
    DisconnectNotification {  },
    GamePacket { data: Vec<u8> },
}

/// A control message as a mathematical value: byte strings are sequences, and
/// the fields that hold no information are left out.
#[allow(inconsistent_fields)]
pub ghost enum MessageView {
    UnconnectedPing { send_timestamp: i64, client_guid: i64 },
    UnconnectedPingOpenConnections { send_timestamp: i64, client_guid: i64 },
    UnconnectedPong { send_timestamp: i64, server_guid: i64, data: Seq<u8> },
    OpenConnectionRequest1 { protocol: u8, emptybuf: Seq<u8> },
    OpenConnectionReply1 { server_guid: i64, secure: bool, server_mtu: u16 },
    OpenConnectionRequest2 { server_address: UDPAddress, client_mtu: u16, client_guid: i64 },
    OpenConnectionReply2 {
        server_guid: i64,
        client_address: UDPAddress,
        mtu_size: u16,
        secure: bool,
    },
    IncompatibleProtocolVersion { server_protocol: u8, server_guid: i64 },
    ConnectedPing { client_timestamp: i64 },
    ConnectedPong { client_timestamp: i64, server_timestamp: i64 },
    ConnectionRequest { client_guid: i64, request_timestamp: i64, secure: bool },
    ConnectionRequestAccepted {
        client_address: UDPAddress,
        request_timestamp: i64,
        accept_timestamp: i64,
    },
    NewIncomingConnection {
        server_address: UDPAddress,
        request_timestamp: i64,
        accept_timestamp: i64,
    },
    DetectLostConnections,
    DisconnectNotification,
    GamePacket { data: Seq<u8> },
}

/// The byte of a truth value on the wire.
pub open spec fn bool_byte(b: bool) -> Seq<u8> {
    seq![if b { 1u8 } else { 0u8 }]
}

/// The eight bytes of a signed 64-bit number on the wire.
pub open spec fn i64_bytes(v: i64) -> Seq<u8> {
    be(unsigned64(v), 8)
}

impl MessageView {
    /// The id that starts the message on the wire.
    pub open spec fn id(self) -> u8 {
        match self {
            MessageView::UnconnectedPing { .. } => 0x01,
            MessageView::UnconnectedPingOpenConnections { .. } => 0x02,
            MessageView::UnconnectedPong { .. } => 0x1c,
            MessageView::OpenConnectionRequest1 { .. } => 0x05,
            MessageView::OpenConnectionReply1 { .. } => 0x06,
            MessageView::OpenConnectionRequest2 { .. } => 0x07,
            MessageView::OpenConnectionReply2 { .. } => 0x08,
            MessageView::IncompatibleProtocolVersion { .. } => 0x19,
            MessageView::ConnectedPing { .. } => 0x00,
            MessageView::ConnectedPong { .. } => 0x03,
            MessageView::ConnectionRequest { .. } => 0x09,
            MessageView::ConnectionRequestAccepted { .. } => 0x10,
            MessageView::NewIncomingConnection { .. } => 0x13,
            MessageView::DetectLostConnections => 0x04,
            MessageView::DisconnectNotification => 0x15,
            MessageView::GamePacket { .. } => 0xfe,
        }
    }

    /// The message can be written: the status of a pong is prefixed with its
    /// length in 16 bits.
    pub open spec fn wf(self) -> bool {
        match self {
            MessageView::UnconnectedPong { data, .. } => data.len() <= 0xffff,
            _ => true,
        }
    }

    /// The fields of the message on the wire, in order.
    pub open spec fn body(self) -> Seq<u8> {
        match self {
            MessageView::UnconnectedPing { send_timestamp, client_guid } => i64_bytes(
                send_timestamp,
            ) + magic() + i64_bytes(client_guid),
            MessageView::UnconnectedPingOpenConnections { send_timestamp, client_guid } => i64_bytes(
                send_timestamp,
            ) + magic() + i64_bytes(client_guid),
            MessageView::UnconnectedPong { send_timestamp, server_guid, data } => i64_bytes(
                send_timestamp,
            ) + i64_bytes(server_guid) + magic() + be(data.len(), 2) + data,
            MessageView::OpenConnectionRequest1 { protocol, emptybuf } => magic() + seq![protocol]
                + emptybuf,
            MessageView::OpenConnectionReply1 { server_guid, secure, server_mtu } => magic()
                + i64_bytes(server_guid) + bool_byte(secure) + be(server_mtu as nat, 2),
            MessageView::OpenConnectionRequest2 { server_address, client_mtu, client_guid } => magic()
                + server_address.wire() + be(client_mtu as nat, 2) + i64_bytes(client_guid),
            MessageView::OpenConnectionReply2 { server_guid, client_address, mtu_size, secure } => magic()
                + i64_bytes(server_guid) + client_address.wire() + be(mtu_size as nat, 2)
                + bool_byte(secure),
            MessageView::IncompatibleProtocolVersion { server_protocol, server_guid } => seq![
                server_protocol,
            ] + magic() + i64_bytes(server_guid),
            MessageView::ConnectedPing { client_timestamp } => i64_bytes(client_timestamp),
            MessageView::ConnectedPong { client_timestamp, server_timestamp } => i64_bytes(
                client_timestamp,
            ) + i64_bytes(server_timestamp),
            MessageView::ConnectionRequest { client_guid, request_timestamp, secure } => i64_bytes(
                client_guid,
            ) + i64_bytes(request_timestamp) + bool_byte(secure),
            MessageView::ConnectionRequestAccepted {
                client_address,
                request_timestamp,
                accept_timestamp,
            } => client_address.wire() + SystemAddresses::wire() + i64_bytes(request_timestamp)
                + i64_bytes(accept_timestamp),
            MessageView::NewIncomingConnection {
                server_address,
                request_timestamp,
                accept_timestamp,
            } => server_address.wire() + SystemAddresses::wire() + i64_bytes(request_timestamp)
                + i64_bytes(accept_timestamp),
            MessageView::DetectLostConnections => Seq::empty(),
            MessageView::DisconnectNotification => Seq::empty(),
            MessageView::GamePacket { data } => data,
        }
    }

    /// The message on the wire: its id, then its fields.
    pub open spec fn wire(self) -> Seq<u8> {
        seq![self.id()] + self.body()
    }

    /// An unconnected ping, of either kind, whose fields start at `b`.
    pub open spec fn parse_ping(s: Seq<u8>, b: int, open: bool) -> Result<MessageView, Error> {
        if !avail(s, b, 8) {
            Err(Error::UnexpectedEof)
        } else {
            match Magic::parse(s, b + 8) {
                Err(e) => Err(e),
                Ok(_) => if !avail(s, b + 24, 8) {
                    Err(Error::UnexpectedEof)
                } else if open {
                    Ok(
                        MessageView::UnconnectedPingOpenConnections {
                            send_timestamp: i64_at(s, b),
                            client_guid: i64_at(s, b + 24),
                        },
                    )
                } else {
                    Ok(
                        MessageView::UnconnectedPing {
                            send_timestamp: i64_at(s, b),
                            client_guid: i64_at(s, b + 24),
                        },
                    )
                },
            }
        }
    }

    /// An unconnected pong whose fields start at `b`.
    pub open spec fn parse_pong(s: Seq<u8>, b: int) -> Result<MessageView, Error> {
        if !avail(s, b, 16) {
            Err(Error::UnexpectedEof)
        } else {
            match Magic::parse(s, b + 16) {
                Err(e) => Err(e),
                Ok(_) => if !avail(s, b + 32, 2) || !avail(s, b + 34, u16_at(s, b + 32) as int) {
                    Err(Error::UnexpectedEof)
                } else {
                    Ok(
                        MessageView::UnconnectedPong {
                            send_timestamp: i64_at(s, b),
                            server_guid: i64_at(s, b + 8),
                            data: s.subrange(b + 34, b + 34 + u16_at(s, b + 32)),
                        },
                    )
                },
            }
        }
    }

    /// The messages of the handshake that start with the magic sequence at `b`.
    pub open spec fn parse_open(s: Seq<u8>, b: int, id: u8) -> Result<MessageView, Error> {
        match Magic::parse(s, b) {
            Err(e) => Err(e),
            Ok(_) => if id == 0x05 {
                if !avail(s, b + 16, 1) {
                    Err(Error::UnexpectedEof)
                } else {
                    Ok(
                        MessageView::OpenConnectionRequest1 {
                            protocol: u8_at(s, b + 16),
                            emptybuf: s.subrange(b + 17, s.len() as int),
                        },
                    )
                }
            } else if id == 0x06 {
                if !avail(s, b + 16, 11) {
                    Err(Error::UnexpectedEof)
                } else {
                    Ok(
                        MessageView::OpenConnectionReply1 {
                            server_guid: i64_at(s, b + 16),
                            secure: bool_at(s, b + 24),
                            server_mtu: u16_at(s, b + 25),
                        },
                    )
                }
            } else if id == 0x07 {
                match UDPAddress::parse(s, b + 16) {
                    Err(e) => Err(e),
                    Ok((address, next)) => if !avail(s, next, 10) {
                        Err(Error::UnexpectedEof)
                    } else {
                        Ok(
                            MessageView::OpenConnectionRequest2 {
                                server_address: address,
                                client_mtu: u16_at(s, next),
                                client_guid: i64_at(s, next + 2),
                            },
                        )
                    },
                }
            } else if !avail(s, b + 16, 8) {
                Err(Error::UnexpectedEof)
            } else {
                match UDPAddress::parse(s, b + 24) {
                    Err(e) => Err(e),
                    Ok((address, next)) => if !avail(s, next, 3) {
                        Err(Error::UnexpectedEof)
                    } else {
                        Ok(
                            MessageView::OpenConnectionReply2 {
                                server_guid: i64_at(s, b + 16),
                                client_address: address,
                                mtu_size: u16_at(s, next),
                                secure: bool_at(s, next + 2),
                            },
                        )
                    },
                }
            },
        }
    }

    /// An incompatible protocol version message whose fields start at `b`.
    pub open spec fn parse_incompatible(s: Seq<u8>, b: int) -> Result<MessageView, Error> {
        if !avail(s, b, 1) {
            Err(Error::UnexpectedEof)
        } else {
            match Magic::parse(s, b + 1) {
                Err(e) => Err(e),
                Ok(_) => if !avail(s, b + 17, 8) {
                    Err(Error::UnexpectedEof)
                } else {
                    Ok(
                        MessageView::IncompatibleProtocolVersion {
                            server_protocol: u8_at(s, b),
                            server_guid: i64_at(s, b + 17),
                        },
                    )
                },
            }
        }
    }

    /// The two messages that carry an address, the system address list and
    /// two timestamps, with fields that start at `b`.
    pub open spec fn parse_accepted(s: Seq<u8>, b: int, incoming: bool) -> Result<
        MessageView,
        Error,
    > {
        match UDPAddress::parse(s, b) {
            Err(e) => Err(e),
            Ok((address, after_address)) => match SystemAddresses::parse(
                s,
                after_address,
                SYSTEM_ADDRESS_COUNT as nat,
            ) {
                Err(e) => Err(e),
                Ok(next) => if !avail(s, next, 16) {
                    Err(Error::UnexpectedEof)
                } else if incoming {
                    Ok(
                        MessageView::NewIncomingConnection {
                            server_address: address,
                            request_timestamp: i64_at(s, next),
                            accept_timestamp: i64_at(s, next + 8),
                        },
                    )
                } else {
                    Ok(
                        MessageView::ConnectionRequestAccepted {
                            client_address: address,
                            request_timestamp: i64_at(s, next),
                            accept_timestamp: i64_at(s, next + 8),
                        },
                    )
                },
            },
        }
    }

    /// The messages made of signed 64-bit numbers and a flag, with fields that
    /// start at `b`.
    pub open spec fn parse_connected(s: Seq<u8>, b: int, id: u8) -> Result<MessageView, Error> {
        if id == 0x00 {
            if !avail(s, b, 8) {
                Err(Error::UnexpectedEof)
            } else {
                Ok(MessageView::ConnectedPing { client_timestamp: i64_at(s, b) })
            }
        } else if id == 0x03 {
            if !avail(s, b, 16) {
                Err(Error::UnexpectedEof)
            } else {
                Ok(
                    MessageView::ConnectedPong {
                        client_timestamp: i64_at(s, b),
                        server_timestamp: i64_at(s, b + 8),
                    },
                )
            }
        } else if !avail(s, b, 17) {
            Err(Error::UnexpectedEof)
        } else {
            Ok(
                MessageView::ConnectionRequest {
                    client_guid: i64_at(s, b),
                    request_timestamp: i64_at(s, b + 8),
                    secure: bool_at(s, b + 16),
                },
            )
        }
    }

    /// The message that starts at `at`. A message whose last field is a byte
    /// string without a length takes all that is left; bytes that follow any
    /// other message are ignored.
    pub open spec fn parse(s: Seq<u8>, at: int) -> Result<MessageView, Error> {
        if !avail(s, at, 1) {
            Err(Error::UnexpectedEof)
        } else {
            let id = s[at];
            let b = at + 1;
            if id == 0x01 {
                Self::parse_ping(s, b, false)
            } else if id == 0x02 {
                Self::parse_ping(s, b, true)
            } else if id == 0x1c {
                Self::parse_pong(s, b)
            } else if id == 0x05 || id == 0x06 || id == 0x07 || id == 0x08 {
                Self::parse_open(s, b, id)
            } else if id == 0x19 {
                Self::parse_incompatible(s, b)
            } else if id == 0x00 || id == 0x03 || id == 0x09 {
                Self::parse_connected(s, b, id)
            } else if id == 0x10 {
                Self::parse_accepted(s, b, false)
            } else if id == 0x13 {
                Self::parse_accepted(s, b, true)
            } else if id == 0x04 {
                Ok(MessageView::DetectLostConnections)
            } else if id == 0x15 {
                Ok(MessageView::DisconnectNotification)
            } else if id == 0xfe {
                Ok(MessageView::GamePacket { data: s.subrange(b, s.len() as int) })
            } else {
                Err(Error::UnknownMessageId)
            }
        }
    }
}

impl View for Message {
    type V = MessageView;

    open spec fn view(&self) -> MessageView {
        match *self {
            Message::UnconnectedPing { send_timestamp, magic, client_guid } => MessageView::UnconnectedPing {
                send_timestamp,
                client_guid,
            },
            Message::UnconnectedPingOpenConnections { send_timestamp, magic, client_guid } => MessageView::UnconnectedPingOpenConnections {
                send_timestamp,
                client_guid,
            },
            Message::UnconnectedPong { send_timestamp, server_guid, magic, data } => MessageView::UnconnectedPong {
                send_timestamp,
                server_guid,
                data: data@,
            },
            Message::OpenConnectionRequest1 { magic, protocol, emptybuf } => MessageView::OpenConnectionRequest1 {
                protocol,
                emptybuf: emptybuf@,
            },
            Message::OpenConnectionReply1 { magic, server_guid, secure, server_mtu } => MessageView::OpenConnectionReply1 {
                server_guid,
                secure,
                server_mtu,
            },
            Message::OpenConnectionRequest2 { magic, server_address, client_mtu, client_guid } => MessageView::OpenConnectionRequest2 {
                server_address,
                client_mtu,
                client_guid,
            },
            Message::OpenConnectionReply2 {
                magic,
                server_guid,
                client_address,
                mtu_size,
                secure,
            } => MessageView::OpenConnectionReply2 { server_guid, client_address, mtu_size, secure },
            Message::IncompatibleProtocolVersion { server_protocol, magic, server_guid } => MessageView::IncompatibleProtocolVersion {
                server_protocol,
                server_guid,
            },
            Message::ConnectedPing { client_timestamp } => MessageView::ConnectedPing {
                client_timestamp,
            },
            Message::ConnectedPong { client_timestamp, server_timestamp } => MessageView::ConnectedPong {
                client_timestamp,
                server_timestamp,
            },
            Message::ConnectionRequest { client_guid, request_timestamp, secure } => MessageView::ConnectionRequest {
                client_guid,
                request_timestamp,
                secure,
            },
            Message::ConnectionRequestAccepted {
                client_address,
                system_addresses,
                request_timestamp,
                accept_timestamp,
            } => MessageView::ConnectionRequestAccepted {
                client_address,
                request_timestamp,
                accept_timestamp,
            },
            Message::NewIncomingConnection {
                server_address,
                system_addresses,
                request_timestamp,
                accept_timestamp,
            } => MessageView::NewIncomingConnection {
                server_address,
                request_timestamp,
                accept_timestamp,
            },
            Message::DetectLostConnections {  } => MessageView::DetectLostConnections,
            Message::DisconnectNotification {  } => MessageView::DisconnectNotification,
            Message::GamePacket { data } => MessageView::GamePacket { data: data@ },
        }
    }
}

/// Appends a signed 64-bit number.
fn write_i64(buf: &mut BytesMut, v: i64)
    ensures
        contents(*final(buf)) == contents(*old(buf)) + i64_bytes(v),
{
    put_i64(buf, v);
}

/// Appends a truth value as one byte, 1 or 0.
fn write_bool(buf: &mut BytesMut, v: bool)
    ensures
        contents(*final(buf)) == contents(*old(buf)) + bool_byte(v),
{
    put_u8(buf, if v { 1 } else { 0 });
    assert(contents(*buf) =~= contents(*old(buf)) + bool_byte(v));
}

impl Message {
    /// The id that starts the message on the wire.
    pub fn id(&self) -> (id: u8)
        ensures
            id == self@.id(),
    {
        match self {
            Message::UnconnectedPing { .. } => 0x01,
            Message::UnconnectedPingOpenConnections { .. } => 0x02,
            Message::UnconnectedPong { .. } => 0x1c,
            Message::OpenConnectionRequest1 { .. } => 0x05,
            Message::OpenConnectionReply1 { .. } => 0x06,
            Message::OpenConnectionRequest2 { .. } => 0x07,
            Message::OpenConnectionReply2 { .. } => 0x08,
            Message::IncompatibleProtocolVersion { .. } => 0x19,
            Message::ConnectedPing { .. } => 0x00,
            Message::ConnectedPong { .. } => 0x03,
            Message::ConnectionRequest { .. } => 0x09,
            Message::ConnectionRequestAccepted { .. } => 0x10,
            Message::NewIncomingConnection { .. } => 0x13,
            Message::DetectLostConnections { .. } => 0x04,
            Message::DisconnectNotification { .. } => 0x15,
            Message::GamePacket { .. } => 0xfe,
        }
    }

    /// Whether the message can be written: the status of a pong must fit a
    /// 16-bit length.
    pub fn writable(&self) -> (b: bool)
        ensures
            b == self@.wf(),
    {
        match self {
            Message::UnconnectedPong { data, .. } => data.len() <= 0xffff,
            _ => true,
        }
    }

    /// Appends the message to `buf`: its id, then its fields.
    pub fn serialize(&self, buf: &mut BytesMut)
        requires
            self@.wf(),
        ensures
            contents(*final(buf)) == contents(*old(buf)) + self@.wire(),
    {
        put_u8(buf, self.id());
        match self {
            Message::UnconnectedPing { send_timestamp, magic, client_guid } => {
                write_i64(buf, *send_timestamp);
                magic.serialize(buf);
                write_i64(buf, *client_guid);
            },
            Message::UnconnectedPingOpenConnections { send_timestamp, magic, client_guid } => {
                write_i64(buf, *send_timestamp);
                magic.serialize(buf);
                write_i64(buf, *client_guid);
            },
            Message::UnconnectedPong { send_timestamp, server_guid, magic, data } => {
                write_i64(buf, *send_timestamp);
                write_i64(buf, *server_guid);
                magic.serialize(buf);
                put_u16(buf, data.len() as u16);
                put_slice(buf, data.as_slice());
            },
            Message::OpenConnectionRequest1 { magic, protocol, emptybuf } => {
                magic.serialize(buf);
                put_u8(buf, *protocol);
                put_slice(buf, emptybuf.as_slice());
            },
            Message::OpenConnectionReply1 { magic, server_guid, secure, server_mtu } => {
                magic.serialize(buf);
                write_i64(buf, *server_guid);
                write_bool(buf, *secure);
                put_u16(buf, *server_mtu);
            },
            Message::OpenConnectionRequest2 { magic, server_address, client_mtu, client_guid } => {
                magic.serialize(buf);
                server_address.serialize(buf);
                put_u16(buf, *client_mtu);
                write_i64(buf, *client_guid);
            },
            Message::OpenConnectionReply2 {
                magic,
                server_guid,
                client_address,
                mtu_size,
                secure,
            } => {
                magic.serialize(buf);
                write_i64(buf, *server_guid);
                client_address.serialize(buf);
                put_u16(buf, *mtu_size);
                write_bool(buf, *secure);
            },
            Message::IncompatibleProtocolVersion { server_protocol, magic, server_guid } => {
                put_u8(buf, *server_protocol);
                magic.serialize(buf);
                write_i64(buf, *server_guid);
            },
            Message::ConnectedPing { client_timestamp } => {
                write_i64(buf, *client_timestamp);
            },
            Message::ConnectedPong { client_timestamp, server_timestamp } => {
                write_i64(buf, *client_timestamp);
                write_i64(buf, *server_timestamp);
            },
            Message::ConnectionRequest { client_guid, request_timestamp, secure } => {
                write_i64(buf, *client_guid);
                write_i64(buf, *request_timestamp);
                write_bool(buf, *secure);
            },
            Message::ConnectionRequestAccepted {
                client_address,
                system_addresses,
                request_timestamp,
                accept_timestamp,
            } => {
                client_address.serialize(buf);
                system_addresses.serialize(buf);
                write_i64(buf, *request_timestamp);
                write_i64(buf, *accept_timestamp);
            },
            Message::NewIncomingConnection {
                server_address,
                system_addresses,
                request_timestamp,
                accept_timestamp,
            } => {
                server_address.serialize(buf);
                system_addresses.serialize(buf);
                write_i64(buf, *request_timestamp);
                write_i64(buf, *accept_timestamp);
            },
            Message::DetectLostConnections {  } => {},
            Message::DisconnectNotification {  } => {},
            Message::GamePacket { data } => {
                put_slice(buf, data.as_slice());
            },
        }
        assert(contents(*buf) =~= contents(*old(buf)) + self@.wire());
    }

    /// Reads the message that starts where the reader stands.
    pub fn deserialize(r: &mut Reader) -> (res: Result<Message, Error>)
        requires
            old(r).wf(),
        ensures
            final(r).buf@ == old(r).buf@,
            final(r).wf(),
            match MessageView::parse(old(r).buf@, old(r).pos as int) {
                Ok(m) => res is Ok && res->Ok_0@ == m,
                Err(e) => res == Err::<Message, Error>(e),
            },
    {
        let id: u8 = r.read_u8()?;
        match id {
            0x01 => {
                let send_timestamp: i64 = r.read_i64()?;
                let magic = Magic::deserialize(r)?;
                let client_guid: i64 = r.read_i64()?;
                Ok(Message::UnconnectedPing { send_timestamp, magic, client_guid })
            },
            0x02 => {
                let send_timestamp: i64 = r.read_i64()?;
                let magic = Magic::deserialize(r)?;
                let client_guid: i64 = r.read_i64()?;
                Ok(Message::UnconnectedPingOpenConnections { send_timestamp, magic, client_guid })
            },
            0x1c => {
                let send_timestamp: i64 = r.read_i64()?;
                let server_guid: i64 = r.read_i64()?;
                let magic = Magic::deserialize(r)?;
                let len: u16 = r.read_u16()?;
                let data = slice_to_vec(r.take(len as usize)?);
                Ok(Message::UnconnectedPong { send_timestamp, server_guid, magic, data })
            },
            0x05 => {
                let magic = Magic::deserialize(r)?;
                let protocol: u8 = r.read_u8()?;
                let emptybuf = slice_to_vec(r.rest());
                Ok(Message::OpenConnectionRequest1 { magic, protocol, emptybuf })
            },
            0x06 => {
                let magic = Magic::deserialize(r)?;
                let server_guid: i64 = r.read_i64()?;
                let secure = r.read_bool()?;
                let server_mtu: u16 = r.read_u16()?;
                Ok(Message::OpenConnectionReply1 { magic, server_guid, secure, server_mtu })
            },
            0x07 => {
                let magic = Magic::deserialize(r)?;
                let server_address = UDPAddress::deserialize(r)?;
                let client_mtu: u16 = r.read_u16()?;
                let client_guid: i64 = r.read_i64()?;
                Ok(Message::OpenConnectionRequest2 { magic, server_address, client_mtu, client_guid })
            },
            0x08 => {
                let magic = Magic::deserialize(r)?;
                let server_guid: i64 = r.read_i64()?;
                let client_address = UDPAddress::deserialize(r)?;
                let mtu_size: u16 = r.read_u16()?;
                let secure = r.read_bool()?;
                Ok(
                    Message::OpenConnectionReply2 {
                        magic,
                        server_guid,
                        client_address,
                        mtu_size,
                        secure,
                    },
                )
            },
            0x19 => {
                let server_protocol: u8 = r.read_u8()?;
                let magic = Magic::deserialize(r)?;
                let server_guid: i64 = r.read_i64()?;
                Ok(Message::IncompatibleProtocolVersion { server_protocol, magic, server_guid })
            },
            0x00 => {
                let client_timestamp: i64 = r.read_i64()?;
                Ok(Message::ConnectedPing { client_timestamp })
            },
            0x03 => {
                let client_timestamp: i64 = r.read_i64()?;
                let server_timestamp: i64 = r.read_i64()?;
                Ok(Message::ConnectedPong { client_timestamp, server_timestamp })
            },
            0x09 => {
                let client_guid: i64 = r.read_i64()?;
                let request_timestamp: i64 = r.read_i64()?;
                let secure = r.read_bool()?;
                Ok(Message::ConnectionRequest { client_guid, request_timestamp, secure })
            },
            0x10 => {
                let client_address = UDPAddress::deserialize(r)?;
                let system_addresses = SystemAddresses::deserialize(r)?;
                let request_timestamp: i64 = r.read_i64()?;
                let accept_timestamp: i64 = r.read_i64()?;
                Ok(
                    Message::ConnectionRequestAccepted {
                        client_address,
                        system_addresses,
                        request_timestamp,
                        accept_timestamp,
                    },
                )
            },
            0x13 => {
                let server_address = UDPAddress::deserialize(r)?;
                let system_addresses = SystemAddresses::deserialize(r)?;
                let request_timestamp: i64 = r.read_i64()?;
                let accept_timestamp: i64 = r.read_i64()?;
                Ok(
                    Message::NewIncomingConnection {
                        server_address,
                        system_addresses,
                        request_timestamp,
                        accept_timestamp,
                    },
                )
            },
            0x04 => Ok(Message::DetectLostConnections {  }),
            0x15 => Ok(Message::DisconnectNotification {  }),
            0xfe => {
                let data = slice_to_vec(r.rest());
                Ok(Message::GamePacket { data })
            },
            _ => Err(Error::UnknownMessageId),
        }
    }
}


// ---------------------------------------------------------------------------
// What is written comes back
// ---------------------------------------------------------------------------

/// A signed 64-bit number reads back from its eight bytes, whatever stands
/// before and after them.
pub proof fn lemma_i64_at(before: Seq<u8>, v: i64, after: Seq<u8>)
    ensures
        i64_bytes(v).len() == 8,
        avail(before + i64_bytes(v) + after, before.len() as int, 8),
        i64_at(before + i64_bytes(v) + after, before.len() as int) == v,
{
    lemma_fits_widths();
    lemma_be_roundtrip(unsigned64(v), 8);
    let s = before + i64_bytes(v) + after;
    assert(s.subrange(before.len() as int, before.len() as int + 8) =~= i64_bytes(v));
}

/// A 16-bit number reads back from its two bytes, whatever stands before and
/// after them.
pub proof fn lemma_u16_at(before: Seq<u8>, v: u16, after: Seq<u8>)
    ensures
        be(v as nat, 2).len() == 2,
        avail(before + be(v as nat, 2) + after, before.len() as int, 2),
        u16_at(before + be(v as nat, 2) + after, before.len() as int) == v,
{
    lemma_fits_widths();
    lemma_be_roundtrip(v as nat, 2);
    let s = before + be(v as nat, 2) + after;
    assert(s.subrange(before.len() as int, before.len() as int + 2) =~= be(v as nat, 2));
}

/// The length of an address on the wire: 7 bytes for IPv4 and 29 for IPv6.
pub proof fn lemma_address_len(a: UDPAddress)
    ensures
        a.wire().len() == match a {
            UDPAddress::V4 { .. } => 7nat,
            UDPAddress::V6 { .. } => 29nat,
        },
{
    lemma_be_len(0, 4);
    match a {
        UDPAddress::V4 { ip, port } => {
            lemma_be_len(ip as nat, 4);
            lemma_be_len(port as nat, 2);
        },
        UDPAddress::V6 { ip, port } => {
            lemma_be_len(ip as nat, 16);
            lemma_be_len(port as nat, 2);
        },
    }
}

/// A placeholder may be taken from the front of a run of placeholders as
/// well as from its end.
pub proof fn lemma_placeholders_front(n: nat)
    requires
        n > 0,
    ensures
        SystemAddresses::placeholders(n) == internal_address().wire()
            + SystemAddresses::placeholders((n - 1) as nat),
        SystemAddresses::placeholders(n).len() == 7 * n,
    decreases n,
{
    let w = internal_address().wire();
    lemma_address_len(internal_address());
    if n == 1 {
        assert(SystemAddresses::placeholders(0) =~= Seq::<u8>::empty());
        assert(SystemAddresses::placeholders(1) =~= w + SystemAddresses::placeholders(0));
    } else {
        lemma_placeholders_front((n - 1) as nat);
        assert(SystemAddresses::placeholders(n) =~= w + SystemAddresses::placeholders(
            (n - 1) as nat,
        ));
    }
}

/// A run of `n` placeholders that is followed by exactly 16 bytes is read to
/// its end.
pub proof fn lemma_placeholders_roundtrip(before: Seq<u8>, n: nat, after: Seq<u8>)
    requires
        after.len() == 16,
    ensures
        SystemAddresses::placeholders(n).len() == 7 * n,
        SystemAddresses::parse(
            before + SystemAddresses::placeholders(n) + after,
            before.len() as int,
            n,
        ) == Ok::<int, Error>((before.len() + 7 * n) as int),
    decreases n,
{
    let s = before + SystemAddresses::placeholders(n) + after;
    if n > 0 {
        let w = internal_address().wire();
        let rest = SystemAddresses::placeholders((n - 1) as nat);
        lemma_placeholders_front(n);
        lemma_address_len(internal_address());
        lemma_address_roundtrip(internal_address(), before, rest + after);
        assert(s =~= before + w + (rest + after));
        lemma_placeholders_roundtrip(before + w, (n - 1) as nat, after);
        assert(s =~= (before + w) + rest + after);
    }
}

/// Regrouping the bytes of a message with one field.
proof fn lemma_group1(i: Seq<u8>, a: Seq<u8>)
    ensures
        i + a == (i + a) + Seq::<u8>::empty(),
{
    assert(i + a =~= (i + a) + Seq::<u8>::empty());
}

/// Regrouping the bytes of a message with two fields.
proof fn lemma_group2(i: Seq<u8>, a: Seq<u8>, b: Seq<u8>)
    ensures
        i + (a + b) == (i + a) + b,
        i + (a + b) == ((i + a) + b) + Seq::<u8>::empty(),
{
    assert(i + (a + b) =~= (i + a) + b);
    assert(i + (a + b) =~= ((i + a) + b) + Seq::<u8>::empty());
}

/// Regrouping the bytes of a message with three fields.
proof fn lemma_group3(i: Seq<u8>, a: Seq<u8>, b: Seq<u8>, c: Seq<u8>)
    ensures
        i + (a + b + c) == (i + a) + (b + c),
        i + (a + b + c) == ((i + a) + b) + c,
        i + (a + b + c) == (((i + a) + b) + c) + Seq::<u8>::empty(),
{
    let s = i + (a + b + c);
    assert(s =~= (i + a) + (b + c));
    assert(s =~= ((i + a) + b) + c);
    assert(s =~= (((i + a) + b) + c) + Seq::<u8>::empty());
}

/// Regrouping the bytes of a message with four fields.
proof fn lemma_group4(i: Seq<u8>, a: Seq<u8>, b: Seq<u8>, c: Seq<u8>, d: Seq<u8>)
    ensures
        i + (a + b + c + d) == (i + a) + (b + c + d),
        i + (a + b + c + d) == ((i + a) + b) + (c + d),
        i + (a + b + c + d) == (((i + a) + b) + c) + d,
        i + (a + b + c + d) == ((((i + a) + b) + c) + d) + Seq::<u8>::empty(),
{
    let s = i + (a + b + c + d);
    assert(s =~= (i + a) + (b + c + d));
    assert(s =~= ((i + a) + b) + (c + d));
    assert(s =~= (((i + a) + b) + c) + d);
    assert(s =~= ((((i + a) + b) + c) + d) + Seq::<u8>::empty());
}

/// Regrouping the bytes of a message with five fields.
proof fn lemma_group5(i: Seq<u8>, a: Seq<u8>, b: Seq<u8>, c: Seq<u8>, d: Seq<u8>, e: Seq<u8>)
    ensures
        i + (a + b + c + d + e) == (i + a) + (b + c + d + e),
        i + (a + b + c + d + e) == ((i + a) + b) + (c + d + e),
        i + (a + b + c + d + e) == (((i + a) + b) + c) + (d + e),
        i + (a + b + c + d + e) == ((((i + a) + b) + c) + d) + e,
{
    let s = i + (a + b + c + d + e);
    assert(s =~= (i + a) + (b + c + d + e));
    assert(s =~= ((i + a) + b) + (c + d + e));
    assert(s =~= (((i + a) + b) + c) + (d + e));
    assert(s =~= ((((i + a) + b) + c) + d) + e);
}

/// A byte string that ends the input is what is left after the bytes before it.
proof fn lemma_tail(before: Seq<u8>, data: Seq<u8>)
    ensures
        (before + data).subrange(before.len() as int, (before + data).len() as int) == data,
        (before + data).len() == before.len() + data.len(),
{
    assert((before + data).subrange(before.len() as int, (before + data).len() as int) =~= data);
}

/// The magic sequence is 16 bytes long.
proof fn lemma_magic_len()
    ensures
        magic().len() == 16,
{
}

/// An unconnected ping, of either kind, comes back.
proof fn lemma_roundtrip_ping(t: i64, g: i64, open: bool)
    ensures
        MessageView::parse_ping(
            seq![if open { 0x02u8 } else { 0x01u8 }] + (i64_bytes(t) + magic() + i64_bytes(g)),
            1,
            open,
        ) == Ok::<MessageView, Error>(
            if open {
                MessageView::UnconnectedPingOpenConnections { send_timestamp: t, client_guid: g }
            } else {
                MessageView::UnconnectedPing { send_timestamp: t, client_guid: g }
            },
        ),
{
    let i = seq![if open { 0x02u8 } else { 0x01u8 }];
    let e = Seq::<u8>::empty();
    lemma_magic_len();
    lemma_group3(i, i64_bytes(t), magic(), i64_bytes(g));
    lemma_i64_at(i, t, magic() + i64_bytes(g));
    lemma_magic_roundtrip(i + i64_bytes(t), magic(), i64_bytes(g));
    lemma_i64_at(i + i64_bytes(t) + magic(), g, e);
}

/// An unconnected pong comes back.
proof fn lemma_roundtrip_pong(t: i64, g: i64, data: Seq<u8>)
    requires
        data.len() <= 0xffff,
    ensures
        MessageView::parse_pong(
            seq![0x1cu8] + (i64_bytes(t) + i64_bytes(g) + magic() + be(data.len(), 2) + data),
            1,
        ) == Ok::<MessageView, Error>(
            MessageView::UnconnectedPong { send_timestamp: t, server_guid: g, data },
        ),
{
    let i = seq![0x1cu8];
    let n = data.len() as u16;
    let s = i + (i64_bytes(t) + i64_bytes(g) + magic() + be(data.len(), 2) + data);
    lemma_magic_len();
    lemma_group5(i, i64_bytes(t), i64_bytes(g), magic(), be(n as nat, 2), data);
    lemma_i64_at(i, t, i64_bytes(g) + magic() + be(n as nat, 2) + data);
    lemma_i64_at(i + i64_bytes(t), g, magic() + be(n as nat, 2) + data);
    lemma_magic_roundtrip(i + i64_bytes(t) + i64_bytes(g), magic(), be(n as nat, 2) + data);
    lemma_u16_at(i + i64_bytes(t) + i64_bytes(g) + magic(), n, data);
    lemma_tail(i + i64_bytes(t) + i64_bytes(g) + magic() + be(n as nat, 2), data);
    assert(s.len() == 35 + n);
    assert(s.subrange(35, 35 + n) == data);
}

/// The first request of the handshake comes back.
proof fn lemma_roundtrip_request1(protocol: u8, emptybuf: Seq<u8>)
    ensures
        MessageView::parse_open(seq![0x05u8] + (magic() + seq![protocol] + emptybuf), 1, 0x05)
            == Ok::<MessageView, Error>(MessageView::OpenConnectionRequest1 { protocol, emptybuf }),
{
    let i = seq![0x05u8];
    let s = i + (magic() + seq![protocol] + emptybuf);
    lemma_magic_len();
    lemma_group3(i, magic(), seq![protocol], emptybuf);
    lemma_magic_roundtrip(i, magic(), seq![protocol] + emptybuf);
    lemma_tail(i + magic() + seq![protocol], emptybuf);
    assert(s.len() == 18 + emptybuf.len());
    assert(s[17] == protocol);
}

/// The first reply of the handshake comes back.
proof fn lemma_roundtrip_reply1(g: i64, secure: bool, mtu: u16)
    ensures
        MessageView::parse_open(
            seq![0x06u8] + (magic() + i64_bytes(g) + bool_byte(secure) + be(mtu as nat, 2)),
            1,
            0x06,
        ) == Ok::<MessageView, Error>(
            MessageView::OpenConnectionReply1 { server_guid: g, secure, server_mtu: mtu },
        ),
{
    let i = seq![0x06u8];
    let e = Seq::<u8>::empty();
    let s = i + (magic() + i64_bytes(g) + bool_byte(secure) + be(mtu as nat, 2));
    lemma_magic_len();
    lemma_group4(i, magic(), i64_bytes(g), bool_byte(secure), be(mtu as nat, 2));
    lemma_magic_roundtrip(i, magic(), i64_bytes(g) + bool_byte(secure) + be(mtu as nat, 2));
    lemma_i64_at(i + magic(), g, bool_byte(secure) + be(mtu as nat, 2));
    lemma_u16_at(i + magic() + i64_bytes(g) + bool_byte(secure), mtu, e);
    assert(s[25] == bool_byte(secure)[0]);
}

/// The second request of the handshake comes back.
proof fn lemma_roundtrip_request2(a: UDPAddress, mtu: u16, g: i64)
    ensures
        MessageView::parse_open(
            seq![0x07u8] + (magic() + a.wire() + be(mtu as nat, 2) + i64_bytes(g)),
            1,
            0x07,
        ) == Ok::<MessageView, Error>(
            MessageView::OpenConnectionRequest2 { server_address: a, client_mtu: mtu, client_guid: g },
        ),
{
    let i = seq![0x07u8];
    let e = Seq::<u8>::empty();
    lemma_magic_len();
    lemma_address_len(a);
    lemma_group4(i, magic(), a.wire(), be(mtu as nat, 2), i64_bytes(g));
    lemma_magic_roundtrip(i, magic(), a.wire() + be(mtu as nat, 2) + i64_bytes(g));
    lemma_address_roundtrip(a, i + magic(), be(mtu as nat, 2) + i64_bytes(g));
    lemma_u16_at(i + magic() + a.wire(), mtu, i64_bytes(g));
    lemma_i64_at(i + magic() + a.wire() + be(mtu as nat, 2), g, e);
}

/// The second reply of the handshake comes back.
proof fn lemma_roundtrip_reply2(g: i64, a: UDPAddress, mtu: u16, secure: bool)
    ensures
        MessageView::parse_open(
            seq![0x08u8] + (magic() + i64_bytes(g) + a.wire() + be(mtu as nat, 2) + bool_byte(
                secure,
            )),
            1,
            0x08,
        ) == Ok::<MessageView, Error>(
            MessageView::OpenConnectionReply2 {
                server_guid: g,
                client_address: a,
                mtu_size: mtu,
                secure,
            },
        ),
{
    let i = seq![0x08u8];
    let s = i + (magic() + i64_bytes(g) + a.wire() + be(mtu as nat, 2) + bool_byte(secure));
    lemma_magic_len();
    lemma_address_len(a);
    lemma_group5(i, magic(), i64_bytes(g), a.wire(), be(mtu as nat, 2), bool_byte(secure));
    lemma_magic_roundtrip(i, magic(), i64_bytes(g) + a.wire() + be(mtu as nat, 2) + bool_byte(secure));
    lemma_i64_at(i + magic(), g, a.wire() + be(mtu as nat, 2) + bool_byte(secure));
    lemma_address_roundtrip(a, i + magic() + i64_bytes(g), be(mtu as nat, 2) + bool_byte(secure));
    lemma_u16_at(i + magic() + i64_bytes(g) + a.wire(), mtu, bool_byte(secure));
    let p = (i + magic() + i64_bytes(g) + a.wire() + be(mtu as nat, 2)).len() as int;
    assert(s[p] == bool_byte(secure)[0]);
}

/// An incompatible protocol version message comes back.
proof fn lemma_roundtrip_incompatible(protocol: u8, g: i64)
    ensures
        MessageView::parse_incompatible(
            seq![0x19u8] + (seq![protocol] + magic() + i64_bytes(g)),
            1,
        ) == Ok::<MessageView, Error>(
            MessageView::IncompatibleProtocolVersion { server_protocol: protocol, server_guid: g },
        ),
{
    let i = seq![0x19u8];
    let e = Seq::<u8>::empty();
    let s = i + (seq![protocol] + magic() + i64_bytes(g));
    lemma_magic_len();
    lemma_group3(i, seq![protocol], magic(), i64_bytes(g));
    lemma_magic_roundtrip(i + seq![protocol], magic(), i64_bytes(g));
    lemma_i64_at(i + seq![protocol] + magic(), g, e);
    assert(s[1] == protocol);
}

/// The connected messages made of numbers and a flag come back.
proof fn lemma_roundtrip_connected(m: MessageView)
    requires
        m is ConnectedPing || m is ConnectedPong || m is ConnectionRequest,
    ensures
        MessageView::parse_connected(m.wire(), 1, m.id()) == Ok::<MessageView, Error>(m),
{
    let i = seq![m.id()];
    let e = Seq::<u8>::empty();
    let s = m.wire();
    match m {
        MessageView::ConnectedPing { client_timestamp: t } => {
            lemma_group1(i, i64_bytes(t));
            lemma_i64_at(i, t, e);
        },
        MessageView::ConnectedPong { client_timestamp: t, server_timestamp: u } => {
            lemma_group2(i, i64_bytes(t), i64_bytes(u));
            lemma_i64_at(i, t, i64_bytes(u));
            lemma_i64_at(i + i64_bytes(t), u, e);
        },
        MessageView::ConnectionRequest { client_guid: g, request_timestamp: t, secure } => {
            lemma_group3(i, i64_bytes(g), i64_bytes(t), bool_byte(secure));
            lemma_i64_at(i, g, i64_bytes(t) + bool_byte(secure));
            lemma_i64_at(i + i64_bytes(g), t, bool_byte(secure));
            assert(s[17] == bool_byte(secure)[0]);
        },
        _ => {},
    }
}

/// The fields shared by the two messages with a system address list come back.
proof fn lemma_roundtrip_accepted(a: UDPAddress, t: i64, u: i64, incoming: bool)
    ensures
        MessageView::parse_accepted(
            seq![if incoming { 0x13u8 } else { 0x10u8 }] + (a.wire() + SystemAddresses::wire()
                + i64_bytes(t) + i64_bytes(u)),
            1,
            incoming,
        ) == Ok::<MessageView, Error>(
            if incoming {
                MessageView::NewIncomingConnection {
                    server_address: a,
                    request_timestamp: t,
                    accept_timestamp: u,
                }
            } else {
                MessageView::ConnectionRequestAccepted {
                    client_address: a,
                    request_timestamp: t,
                    accept_timestamp: u,
                }
            },
        ),
{
    let i = seq![if incoming { 0x13u8 } else { 0x10u8 }];
    let list = SystemAddresses::wire();
    let stamps = i64_bytes(t) + i64_bytes(u);
    let e = Seq::<u8>::empty();
    lemma_address_len(a);
    lemma_be_len(unsigned64(t), 8);
    lemma_be_len(unsigned64(u), 8);
    lemma_group4(i, a.wire(), list, i64_bytes(t), i64_bytes(u));
    lemma_address_roundtrip(a, i, list + i64_bytes(t) + i64_bytes(u));
    lemma_group2(i + a.wire(), list, stamps);
    assert(list + i64_bytes(t) + i64_bytes(u) =~= list + stamps);
    lemma_placeholders_roundtrip(i + a.wire(), SYSTEM_ADDRESS_COUNT as nat, stamps);
    lemma_i64_at(i + a.wire() + list, t, i64_bytes(u));
    lemma_i64_at(i + a.wire() + list + i64_bytes(t), u, e);
}

/// What is written comes back: every message that can be written parses from
/// its own bytes as itself.
pub proof fn lemma_message_roundtrip(m: MessageView)
    requires
        m.wf(),
    ensures
        MessageView::parse(m.wire(), 0) == Ok::<MessageView, Error>(m),
{
    let s = m.wire();
    assert(s[0] == m.id());
    assert(s.len() >= 1);
    match m {
        MessageView::UnconnectedPing { send_timestamp, client_guid } => {
            lemma_roundtrip_ping(send_timestamp, client_guid, false);
        },
        MessageView::UnconnectedPingOpenConnections { send_timestamp, client_guid } => {
            lemma_roundtrip_ping(send_timestamp, client_guid, true);
        },
        MessageView::UnconnectedPong { send_timestamp, server_guid, data } => {
            lemma_roundtrip_pong(send_timestamp, server_guid, data);
        },
        MessageView::OpenConnectionRequest1 { protocol, emptybuf } => {
            lemma_roundtrip_request1(protocol, emptybuf);
        },
        MessageView::OpenConnectionReply1 { server_guid, secure, server_mtu } => {
            lemma_roundtrip_reply1(server_guid, secure, server_mtu);
        },
        MessageView::OpenConnectionRequest2 { server_address, client_mtu, client_guid } => {
            lemma_roundtrip_request2(server_address, client_mtu, client_guid);
        },
        MessageView::OpenConnectionReply2 { server_guid, client_address, mtu_size, secure } => {
            lemma_roundtrip_reply2(server_guid, client_address, mtu_size, secure);
        },
        MessageView::IncompatibleProtocolVersion { server_protocol, server_guid } => {
            lemma_roundtrip_incompatible(server_protocol, server_guid);
        },
        MessageView::ConnectedPing { .. } => {
            lemma_roundtrip_connected(m);
        },
        MessageView::ConnectedPong { .. } => {
            lemma_roundtrip_connected(m);
        },
        MessageView::ConnectionRequest { .. } => {
            lemma_roundtrip_connected(m);
        },
        MessageView::ConnectionRequestAccepted {
            client_address,
            request_timestamp,
            accept_timestamp,
        } => {
            lemma_roundtrip_accepted(client_address, request_timestamp, accept_timestamp, false);
        },
        MessageView::NewIncomingConnection {
            server_address,
            request_timestamp,
            accept_timestamp,
        } => {
            lemma_roundtrip_accepted(server_address, request_timestamp, accept_timestamp, true);
        },
        MessageView::DetectLostConnections => {},
        MessageView::DisconnectNotification => {},
        MessageView::GamePacket { data } => {
            lemma_tail(seq![0xfeu8], data);
        },
    }
}


/// The length of the byte string that a message carries, if it carries one.
pub open spec fn bytes_len(m: MessageView) -> nat {
    match m {
        MessageView::UnconnectedPong { data, .. } => data.len(),
        MessageView::OpenConnectionRequest1 { emptybuf, .. } => emptybuf.len(),
        MessageView::GamePacket { data } => data.len(),
        _ => 0,
    }
}

/// A message on the wire is at most 187 bytes longer than the byte string it
/// carries.
pub proof fn lemma_wire_len(m: MessageView)
    ensures
        m.wire().len() <= 187 + bytes_len(m),
{
    lemma_magic_len();
    lemma_address_len(internal_address());
    lemma_placeholders_front(SYSTEM_ADDRESS_COUNT as nat);
    match m {
        MessageView::UnconnectedPing { send_timestamp, client_guid } => {
            lemma_be_len(unsigned64(send_timestamp), 8);
            lemma_be_len(unsigned64(client_guid), 8);
        },
        MessageView::UnconnectedPingOpenConnections { send_timestamp, client_guid } => {
            lemma_be_len(unsigned64(send_timestamp), 8);
            lemma_be_len(unsigned64(client_guid), 8);
        },
        MessageView::UnconnectedPong { send_timestamp, server_guid, data } => {
            lemma_be_len(unsigned64(send_timestamp), 8);
            lemma_be_len(unsigned64(server_guid), 8);
            lemma_be_len(data.len(), 2);
        },
        MessageView::OpenConnectionRequest1 { protocol, emptybuf } => {},
        MessageView::OpenConnectionReply1 { server_guid, secure, server_mtu } => {
            lemma_be_len(unsigned64(server_guid), 8);
            lemma_be_len(server_mtu as nat, 2);
        },
        MessageView::OpenConnectionRequest2 { server_address, client_mtu, client_guid } => {
            lemma_address_len(server_address);
            lemma_be_len(unsigned64(client_guid), 8);
            lemma_be_len(client_mtu as nat, 2);
        },
        MessageView::OpenConnectionReply2 { server_guid, client_address, mtu_size, secure } => {
            lemma_address_len(client_address);
            lemma_be_len(unsigned64(server_guid), 8);
            lemma_be_len(mtu_size as nat, 2);
        },
        MessageView::IncompatibleProtocolVersion { server_protocol, server_guid } => {
            lemma_be_len(unsigned64(server_guid), 8);
        },
        MessageView::ConnectedPing { client_timestamp } => {
            lemma_be_len(unsigned64(client_timestamp), 8);
        },
        MessageView::ConnectedPong { client_timestamp, server_timestamp } => {
            lemma_be_len(unsigned64(client_timestamp), 8);
            lemma_be_len(unsigned64(server_timestamp), 8);
        },
        MessageView::ConnectionRequest { client_guid, request_timestamp, secure } => {
            lemma_be_len(unsigned64(client_guid), 8);
            lemma_be_len(unsigned64(request_timestamp), 8);
        },
        MessageView::ConnectionRequestAccepted {
            client_address,
            request_timestamp,
            accept_timestamp,
        } => {
            lemma_address_len(client_address);
            lemma_be_len(unsigned64(request_timestamp), 8);
            lemma_be_len(unsigned64(accept_timestamp), 8);
        },
        MessageView::NewIncomingConnection {
            server_address,
            request_timestamp,
            accept_timestamp,
        } => {
            lemma_address_len(server_address);
            lemma_be_len(unsigned64(request_timestamp), 8);
            lemma_be_len(unsigned64(accept_timestamp), 8);
        },
        MessageView::DetectLostConnections => {},
        MessageView::DisconnectNotification => {},
        MessageView::GamePacket { data } => {},
    }
}

} // verus!
