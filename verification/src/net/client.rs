//! The handshake of a client with a server, as a state machine: the host
//! sends what the machine asks for and hands it what arrives.

use vstd::prelude::*;

use crate::protocol::binary::{
    buffer_to_vec, buffer_with_capacity, Error, Magic, Reader, UDPAddress,
};
use super::stream::{RakStream, StreamState};
use crate::generic::{seconds, timestamp};
use crate::protocol::message::{lemma_wire_len, Message, MessageView};
use crate::protocol::reliability::Reliability;
use crate::protocol::{CLIENT_PADDING_DECREASE, MAX_MTU_SIZE, PROTOCOL_VERSION};

verus! {

/// The bytes of a first request that are not padding: the headers of IP and
/// UDP, the id of the message, the magic sequence, the protocol version, and
/// one byte more that the padding leaves free.
pub const REQUEST_OVERHEAD: usize = 46;

/// How far a client has come with the handshake.
#[derive(Clone, Copy, Debug, PartialEq, Eq, Structural)]
pub enum ClientStage {
    /// A ping is out and the pong is awaited.
    AwaitingPong,
    /// A first request is out and the first reply is awaited; the request
    /// was padded for this MTU.
    Discovering(usize),
    /// The second request is out and the second reply is awaited; this is
    /// the MTU that the server offered.
    Requesting(usize),
    /// The handshake is done, with this MTU.
    Established(usize),
    /// The handshake has failed.
    Failed,
}

/// Why a handshake has failed.
#[derive(Clone, Copy, Debug, PartialEq, Eq, Structural)]
pub enum ClientError {
    /// The server sent another message than the one awaited.
    UnexpectedMessage,
    /// The server sent what is no message.
    Malformed(Error),
    /// The server did not answer in time.
    TimedOut,
    /// The server answered no first request, however small.
    Unreachable,
    /// The handshake was over already.
    Finished,
}

/// What the host is to do next.
pub enum ClientAction {
    /// Send this datagram to the server and wait for an answer.
    Send(Vec<u8>),
    /// Run the connection with this MTU and send a connection request over it.
    Connect(usize),
    /// Give up.
    Fail(ClientError),
}

/// The handshake of a client with the server at `remote`.
pub struct ClientHandshake {
    pub remote: UDPAddress,
    pub guid: i64,
    pub stage: ClientStage,
}

/// The ping that opens a handshake at `now`.
pub open spec fn ping(guid: i64, now: u64) -> MessageView {
    MessageView::UnconnectedPing { send_timestamp: seconds(now) as i64, client_guid: guid }
}

/// The first request, padded with zero bytes for the MTU `mtu`.
pub open spec fn request1(mtu: int) -> MessageView {
    MessageView::OpenConnectionRequest1 {
        protocol: PROTOCOL_VERSION,
        emptybuf: Seq::new((mtu - REQUEST_OVERHEAD) as nat, |i: int| 0u8),
    }
}

/// The second request, which takes up the MTU that the server offered.
pub open spec fn request2(remote: UDPAddress, guid: i64, server_mtu: u16) -> MessageView {
    MessageView::OpenConnectionRequest2 {
        server_address: remote,
        client_mtu: server_mtu,
        client_guid: guid,
    }
}

/// What the machine does, as a mathematical value: the stage it goes to and
/// the message it has sent, if any.
pub ghost struct ClientStep {
    pub stage: ClientStage,
    pub send: Option<MessageView>,
    pub error: Option<ClientError>,
}

/// What the machine does when `input` arrives from the server, or
/// nothing arrives in time where `input` is `None`. The pong is answered
/// with a first request padded for the largest MTU. The first reply is
/// answered with the second request. Where no first reply arrives in time,
/// or what arrives is no message, the first request goes out again with
/// `CLIENT_PADDING_DECREASE` bytes less, as long as there is padding left. The second reply
/// ends the handshake. Anything else is a failure.
pub open spec fn client_step(
    stage: ClientStage,
    remote: UDPAddress,
    guid: i64,
    input: Option<Seq<u8>>,
) -> ClientStep {
    let parsed = match input {
        Some(bytes) => Some(MessageView::parse(bytes, 0)),
        None => None,
    };
    let failed = |e: ClientError| ClientStep { stage: ClientStage::Failed, send: None, error: Some(e) };
    match stage {
        ClientStage::AwaitingPong => match parsed {
            Some(Ok(MessageView::UnconnectedPong { .. })) => ClientStep {
                stage: ClientStage::Discovering(MAX_MTU_SIZE),
                send: Some(request1(MAX_MTU_SIZE as int)),
                error: None,
            },
            Some(Ok(_)) => failed(ClientError::UnexpectedMessage),
            Some(Err(e)) => failed(ClientError::Malformed(e)),
            None => failed(ClientError::TimedOut),
        },
        ClientStage::Discovering(mtu) => match parsed {
            Some(Ok(MessageView::OpenConnectionReply1 { server_mtu, .. })) => ClientStep {
                stage: ClientStage::Requesting(server_mtu as usize),
                send: Some(request2(remote, guid, server_mtu)),
                error: None,
            },
            Some(Ok(_)) => failed(ClientError::UnexpectedMessage),
            _ => if mtu - CLIENT_PADDING_DECREASE >= REQUEST_OVERHEAD {
                ClientStep {
                    stage: ClientStage::Discovering((mtu - CLIENT_PADDING_DECREASE) as usize),
                    send: Some(request1(mtu - CLIENT_PADDING_DECREASE)),
                    error: None,
                }
            } else {
                failed(ClientError::Unreachable)
            },
        },
        ClientStage::Requesting(mtu) => match parsed {
            Some(Ok(MessageView::OpenConnectionReply2 { .. })) => ClientStep {
                stage: ClientStage::Established(mtu),
                send: None,
                error: None,
            },
            Some(Ok(_)) => failed(ClientError::UnexpectedMessage),
            Some(Err(e)) => failed(ClientError::Malformed(e)),
            None => failed(ClientError::TimedOut),
        },
        _ => failed(ClientError::Finished),
    }
}

/// The bytes of a message.
fn to_datagram(message: &Message) -> (bytes: Vec<u8>)
    requires
        message@.wf(),
    ensures
        bytes@ == message@.wire(),
{
    let mut buf = buffer_with_capacity(MAX_MTU_SIZE);
    message.serialize(&mut buf);
    let bytes = buffer_to_vec(&buf);
    assert(bytes@ =~= message@.wire());
    bytes
}

/// A first request padded for the MTU `mtu`.
fn padded_request(mtu: usize) -> (bytes: Vec<u8>)
    requires
        REQUEST_OVERHEAD <= mtu <= MAX_MTU_SIZE,
    ensures
        bytes@ == request1(mtu as int).wire(),
{
    let size: usize = mtu - REQUEST_OVERHEAD;
    let mut emptybuf: Vec<u8> = Vec::new();
    let mut i: usize = 0;
    while i < size
        invariant
            i <= size,
            emptybuf@ == Seq::new(i as nat, |k: int| 0u8),
        decreases size - i,
    {
        emptybuf.push(0);
        i = i + 1;
        assert(emptybuf@ =~= Seq::new(i as nat, |k: int| 0u8));
    }
    let message = Message::OpenConnectionRequest1 {
        magic: Magic,
        protocol: PROTOCOL_VERSION,
        emptybuf,
    };
    to_datagram(&message)
}

impl ClientHandshake {
    /// The machine can go on: while it looks for the MTU, the request that
    /// is out was padded for an MTU that a request can be padded for.
    pub open spec fn wf(&self) -> bool {
        match self.stage {
            ClientStage::Discovering(mtu) => REQUEST_OVERHEAD <= mtu <= MAX_MTU_SIZE,
            _ => true,
        }
    }

    /// Opens a handshake with the server at `remote` at `now`. The second
    /// result is the ping to send first.
    pub fn begin(remote: UDPAddress, guid: i64, now: u64) -> (res: (
        ClientHandshake,
        Vec<u8>,
    ))
        ensures
            res.0.wf(),
            res.0.remote == remote,
            res.0.guid == guid,
            res.0.stage == ClientStage::AwaitingPong,
            res.1@ == ping(guid, now).wire(),
    {
        let message = Message::UnconnectedPing {
            send_timestamp: timestamp(now) as i64,
            magic: Magic,
            client_guid: guid,
        };
        let bytes = to_datagram(&message);
        (
            ClientHandshake { remote, guid, stage: ClientStage::AwaitingPong },
            bytes,
        )
    }

    /// Takes in what has arrived from the server, or that nothing has
    /// arrived in time where `input` is `None`, and says what to do next.
    pub fn step(&mut self, input: Option<&[u8]>) -> (action: ClientAction)
        requires
            old(self).wf(),
        ensures
            final(self).wf(),
            final(self).remote == old(self).remote,
            final(self).guid == old(self).guid,
            ({
                let step = client_step(
                    old(self).stage,
                    old(self).remote,
                    old(self).guid,
                    match input {
                        Some(bytes) => Some(bytes@),
                        None => None,
                    },
                );
                &&& final(self).stage == step.stage
                &&& match action {
                    ClientAction::Send(bytes) => step.send matches Some(m) && bytes@ == m.wire(),
                    ClientAction::Connect(mtu) => step.send is None && step.error is None
                        && step.stage == ClientStage::Established(mtu),
                    ClientAction::Fail(e) => step.error == Some(e),
                }
            }),
    {
        let parsed: Option<Result<Message, Error>> = match input {
            Some(bytes) => {
                let mut reader = Reader::new(bytes);
                Some(Message::deserialize(&mut reader))
            },
            None => None,
        };
        match self.stage {
            ClientStage::AwaitingPong => match parsed {
                Some(Ok(Message::UnconnectedPong { .. })) => {
                    self.stage = ClientStage::Discovering(MAX_MTU_SIZE);
                    ClientAction::Send(padded_request(MAX_MTU_SIZE))
                },
                Some(Ok(_)) => self.fail(ClientError::UnexpectedMessage),
                Some(Err(e)) => self.fail(ClientError::Malformed(e)),
                None => self.fail(ClientError::TimedOut),
            },
            ClientStage::Discovering(mtu) => match parsed {
                Some(Ok(Message::OpenConnectionReply1 { magic, server_guid, secure, server_mtu })) => {
                    self.stage = ClientStage::Requesting(server_mtu as usize);
                    let message = Message::OpenConnectionRequest2 {
                        magic,
                        server_address: self.remote,
                        client_mtu: server_mtu,
                        client_guid: self.guid,
                    };
                    ClientAction::Send(to_datagram(&message))
                },
                Some(Ok(_)) => self.fail(ClientError::UnexpectedMessage),
                _ => {
                    if mtu >= CLIENT_PADDING_DECREASE + REQUEST_OVERHEAD {
                        let smaller: usize = mtu - CLIENT_PADDING_DECREASE;
                        self.stage = ClientStage::Discovering(smaller);
                        ClientAction::Send(padded_request(smaller))
                    } else {
                        self.fail(ClientError::Unreachable)
                    }
                },
            },
            ClientStage::Requesting(mtu) => match parsed {
                Some(Ok(Message::OpenConnectionReply2 { .. })) => {
                    self.stage = ClientStage::Established(mtu);
                    ClientAction::Connect(mtu)
                },
                Some(Ok(_)) => self.fail(ClientError::UnexpectedMessage),
                Some(Err(e)) => self.fail(ClientError::Malformed(e)),
                None => self.fail(ClientError::TimedOut),
            },
            _ => self.fail(ClientError::Finished),
        }
    }

    /// The engine of the connection that the handshake has led to, made at
    /// `now` for the MTU `mtu_size` that the handshake has ended with. A connection request is the first thing
    /// that goes out over it, as a reliable message.
    pub fn connect(&self, mtu_size: usize, now: u64) -> (stream: RakStream)
        requires
            self.stage == ClientStage::Established(mtu_size),
        ensures
            stream.wf(),
            stream@ == StreamState::fresh(self.remote, mtu_size as int, now).encode(
                MessageView::ConnectionRequest {
                    client_guid: self.guid,
                    request_timestamp: seconds(now) as i64,
                    secure: false,
                }.wire(),
                Reliability::Reliable,
                now,
            ),
    {
        let mut stream = RakStream::new(self.remote, mtu_size, now);
        let message = Message::ConnectionRequest {
            client_guid: self.guid,
            request_timestamp: timestamp(now) as i64,
            secure: false,
        };
        proof {
            lemma_wire_len(message@);
        }
        stream.encode(&message, Reliability::Reliable, now);
        stream
    }

    /// Gives up.
    fn fail(&mut self, error: ClientError) -> (action: ClientAction)
        ensures
            final(self).wf(),
            final(self).remote == old(self).remote,
            final(self).guid == old(self).guid,
            final(self).stage == ClientStage::Failed,
            action matches ClientAction::Fail(e) && e == error,
    {
        self.stage = ClientStage::Failed;
        ClientAction::Fail(error)
    }
}

} // verus!
