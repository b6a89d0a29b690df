//! The reliability engine of one connection: it turns messages into frames
//! and datagrams, and datagrams back into messages and events.

use bytes::BytesMut;
use std::collections::HashMap;
use vstd::prelude::*;
use vstd::slice::{slice_subrange, slice_to_vec};

use crate::generic::events::{emit, events_view, DisconnectReason, RakNetEvent, RakNetEventView};
use crate::generic::{seconds, timestamp};
use crate::generic::window::{
    ascending, complete, doubled, elapsed, joined, lemma_sorted_of, mean, recent, sorted_of,
    MessageState,
    MessageWindow, Record, RecoveryWindow, Sample, SequenceState, SequenceWindow, SplitWindow,
};
use crate::protocol::binary::{
    avail, buffer_clear, buffer_len, buffer_to_vec, buffer_with_capacity, contents, freeze, frozen,
    le, lemma_fits_widths, lemma_le_roundtrip, put_slice, put_u24_le, put_u8, thaw, u24_at, Error,
    Reader, SystemAddresses, UDPAddress,
};
use crate::protocol::frame::{
    fragment, fragment_count, fragment_size, frame_header, header_len, header_size,
    lemma_fragment_bounds, lemma_fragment_count, lemma_frame_roundtrip, lemma_header_len,
    parse_frame, read_frame,
    write_header, Frame, RawFrame, Split,
};
use crate::protocol::message::{bytes_len, lemma_wire_len, Message, MessageView};
use crate::protocol::receipt::{
    collect_runs, expand, lemma_receipt_roundtrip, lemma_runs_bound, lemma_runs_minimal,
    parse_receipt, read_receipts, receipt, receipts, runs, span, write_receipt,
};
use crate::protocol::reliability::Reliability;
use crate::protocol::{
    DATAGRAM_HEADER_SIZE, FLAG_ACK, FLAG_DATAGRAM, FLAG_NACK, FLAG_NEEDS_B_AND_AS,
    FRAME_ADDITIONAL_SIZE, FRAME_HEADER_SIZE, MAX_BATCHED_PACKETS, MAX_MTU_SIZE,
    MAX_RECEIPT_RECORDS, MAX_SPLIT_PACKETS, MIN_MTU_SIZE, U24_MAX, UDP_HEADER_SIZE,
};

verus! {

/// The two ends of an established connection.
#[derive(Clone, Copy, Debug, PartialEq, Eq, Structural)]
pub struct NetworkInfo {
    pub local_addr: UDPAddress,
    pub remote_addr: UDPAddress,
}

/// The state of the network as last measured: the last ping, the round-trip
/// time in milliseconds, and the time of the last datagram from the peer.
#[derive(Clone, Copy, Debug, PartialEq, Eq, Structural)]
pub struct NetworkStatus {
    pub ping: u64,
    pub latency: u64,
    pub last_activity: u64,
}

/// The reliability engine of one connection. Datagrams to send are queued in
/// `outbox`, in the order in which they are to go out to `addr`.
pub struct RakStream {
    pub addr: UDPAddress,
    pub mtu_size: usize,
    pub sequence_number: u32,
    pub message_index: u32,
    pub sequence_index: u32,
    pub order_index: u32,
    pub split_id: u16,
    pub sequence_window: SequenceWindow,
    pub message_window: MessageWindow,
    pub split_window: HashMap<u16, SplitWindow>,
    pub recovery_window: RecoveryWindow,
    pub receiptbuf: BytesMut,
    pub msgbuf: BytesMut,
    pub buffer: BytesMut,
    pub outbox: Vec<Vec<u8>>,
    pub status: NetworkStatus,
}

/// A datagram that was sent and not yet acknowledged, as a mathematical value.
pub ghost struct Sent {
    pub packet: Seq<u8>,
    pub instant: u64,
}

/// The engine of a connection as a mathematical value.
#[verifier::ext_equal]
pub ghost struct StreamState {
    pub addr: UDPAddress,
    pub mtu: int,
    pub sequence_number: int,
    pub message_index: int,
    pub sequence_index: int,
    pub order_index: int,
    pub split_id: int,
    pub sequences: SequenceState,
    pub messages: MessageState,
    pub splits: Map<u16, Seq<Option<Seq<u8>>>>,
    pub unacknowledged: Map<u32, Sent>,
    pub delays: Seq<Sample>,
    pub buffer: Seq<u8>,
    pub outbox: Seq<Seq<u8>>,
    pub status: NetworkStatus,
}

/// The fragments held for each split id.
pub open spec fn splits_view(m: Map<u16, SplitWindow>) -> Map<u16, Seq<Option<Seq<u8>>>> {
    Map::new(|id: u16| m.contains_key(id), |id: u16| m[id]@)
}

/// The datagrams held for recovery, with their bytes.
pub open spec fn sent_view(m: Map<u32, Record>) -> Map<u32, Sent> {
    Map::new(
        |k: u32| m.contains_key(k),
        |k: u32| Sent { packet: frozen(m[k].packet), instant: m[k].instant },
    )
}

/// The queued datagrams as byte sequences.
pub open spec fn outbox_view(v: Seq<Vec<u8>>) -> Seq<Seq<u8>> {
    Seq::new(v.len(), |i: int| v[i]@)
}

/// The most bytes of frames that are ever batched at this MTU: what the
/// headers of IP and UDP and the flag byte of a datagram leave. One frame
/// with the longest header and the longest content for its kind is that long.
pub open spec fn batch_limit(mtu: int) -> int {
    mtu - UDP_HEADER_SIZE - 1
}

/// The counter after `n`: 24-bit counters start again at zero after their
/// largest value.
pub open spec fn next24(n: int) -> int {
    if n >= U24_MAX {
        0
    } else {
        n + 1
    }
}

/// The split id after `n`: it starts again at zero after its largest value.
pub open spec fn next16(n: int) -> int {
    if n >= 0xffff {
        0
    } else {
        n + 1
    }
}

/// A datagram that carries frames: the flags, the sequence number in 24 bits
/// little-endian, then the frames.
pub open spec fn datagram(sequence_number: int, frames: Seq<u8>) -> Seq<u8> {
    seq![FLAG_DATAGRAM | FLAG_NEEDS_B_AND_AS] + le(sequence_number as nat, 3) + frames
}

/// What handling a datagram, a frame or a message leads to: the state of the
/// engine afterwards, the events for the host, and whether it failed.
pub ghost struct Outcome {
    pub state: StreamState,
    pub events: Seq<RakNetEventView>,
    pub result: Result<(), Error>,
}

/// The ping time that a pong gives: the server timestamp less the client
/// timestamp, as an unsigned 64-bit number.
pub open spec fn ping_time(client_timestamp: i64, server_timestamp: i64) -> u64 {
    if server_timestamp >= client_timestamp {
        (server_timestamp - client_timestamp) as u64
    } else {
        (server_timestamp - client_timestamp + 0x1_0000_0000_0000_0000) as u64
    }
}

/// The ping time that a pong gives.
fn ping_between(client_timestamp: i64, server_timestamp: i64) -> (ping: u64)
    ensures
        ping == ping_time(client_timestamp, server_timestamp),
{
    let difference: i128 = server_timestamp as i128 - client_timestamp as i128;
    if difference >= 0 {
        difference as u64
    } else {
        (difference + 0x1_0000_0000_0000_0000) as u64
    }
}

impl StreamState {
    /// The state of the engine of a new connection with the peer at `addr`,
    /// made at `now`. The MTU is brought into the range that the protocol
    /// runs with; every counter starts at zero and nothing is queued or held.
    pub open spec fn fresh(addr: UDPAddress, mtu_size: int, now: u64) -> StreamState {
        StreamState {
            addr,
            mtu: if mtu_size < MIN_MTU_SIZE {
                MIN_MTU_SIZE as int
            } else if mtu_size > MAX_MTU_SIZE {
                MAX_MTU_SIZE as int
            } else {
                mtu_size
            },
            sequence_number: 0,
            message_index: 0,
            sequence_index: 0,
            order_index: 0,
            split_id: 0,
            sequences: SequenceState::fresh(),
            messages: MessageState::fresh(),
            splits: Map::empty(),
            unacknowledged: Map::empty(),
            delays: Seq::empty(),
            buffer: Seq::empty(),
            outbox: Seq::empty(),
            status: NetworkStatus { ping: 0, latency: 0, last_activity: now },
        }
    }

    /// The state after the frames `frames` have gone out as a datagram at
    /// `now`: the datagram is queued, it is held for recovery under its
    /// sequence number, and the sequence number moves on.
    pub open spec fn send(self, frames: Seq<u8>, now: u64) -> StreamState {
        StreamState {
            outbox: self.outbox.push(datagram(self.sequence_number, frames)),
            unacknowledged: self.unacknowledged.insert(
                self.sequence_number as u32,
                Sent { packet: frames, instant: now },
            ),
            sequence_number: next24(self.sequence_number),
            ..self
        }
    }

    /// The state after the batched frames have gone out as a datagram.
    pub open spec fn flush(self, now: u64) -> StreamState {
        StreamState { buffer: Seq::empty(), ..self.send(self.buffer, now) }
    }

    /// The state after a tick of the datagram flush: batched frames go out,
    /// if there are any.
    pub open spec fn try_flush(self, now: u64) -> StreamState {
        if self.buffer.len() == 0 {
            self
        } else {
            self.flush(now)
        }
    }

    /// The state after one frame has been added to the batch. The frame takes
    /// the next message index if it is reliable and the next sequence index
    /// if it is sequenced.
    pub open spec fn write_frame(
        self,
        reliability: Reliability,
        order_index: int,
        split: Option<Split>,
        content: Seq<u8>,
    ) -> StreamState {
        StreamState {
            buffer: self.buffer + frame_header(
                reliability,
                content.len() as int,
                self.message_index,
                self.sequence_index,
                order_index,
                split,
            ) + content,
            message_index: if reliability.is_reliable() {
                next24(self.message_index)
            } else {
                self.message_index
            },
            sequence_index: if reliability.is_sequenced() {
                next24(self.sequence_index)
            } else {
                self.sequence_index
            },
            ..self
        }
    }

    /// The state after one frame has been written. Frames that are batched
    /// already go out first where this one would not fit in with them. The
    /// frame goes out at once unless it is reliable and ordered.
    pub open spec fn put_frame(
        self,
        reliability: Reliability,
        order_index: int,
        split: Option<Split>,
        content: Seq<u8>,
        now: u64,
    ) -> StreamState {
        let room = self.mtu - UDP_HEADER_SIZE - DATAGRAM_HEADER_SIZE;
        let needed = header_size(reliability, split is Some) + content.len();
        let before = if self.buffer.len() > 0 && self.buffer.len() + needed > room {
            self.flush(now)
        } else {
            self
        };
        let written = before.write_frame(reliability, order_index, split, content);
        if reliability != Reliability::ReliableOrdered {
            written.flush(now)
        } else {
            written
        }
    }

    /// The state after the fragments `index..count` of a message have been
    /// written, each in a frame of its own.
    pub open spec fn put_frames(
        self,
        reliability: Reliability,
        order_index: int,
        split_id: int,
        payload: Seq<u8>,
        size: int,
        count: int,
        index: int,
        now: u64,
    ) -> StreamState
        decreases count - index,
    {
        if index >= count {
            self
        } else {
            self.put_frame(
                reliability,
                order_index,
                if count > 1 {
                    Some(Split { count: count as u32, id: split_id as u16, index: index as u32 })
                } else {
                    None
                },
                fragment(payload, size, index),
                now,
            ).put_frames(reliability, order_index, split_id, payload, size, count, index + 1, now)
        }
    }

    /// The state after the serialized message `payload` has been encoded.
    /// The message takes the next order index whatever its class, and the
    /// next split id if it goes out in more than one frame.
    #[verifier::opaque]
    pub open spec fn encode(self, payload: Seq<u8>, reliability: Reliability, now: u64) -> StreamState {
        let count = fragment_count(self.mtu, payload.len() as int);
        StreamState {
            order_index: next24(self.order_index),
            split_id: if count > 1 {
                next16(self.split_id)
            } else {
                self.split_id
            },
            ..self
        }.put_frames(
            reliability,
            self.order_index,
            self.split_id,
            payload,
            fragment_size(self.mtu, payload.len() as int),
            count,
            0,
            now,
        )
    }
    /// The state after the receipts of the epoch have gone out: the window of
    /// sequence numbers is shifted; what was received goes out in a receipt
    /// with the acknowledgement flag and what is missing in one with the
    /// negative flag, each run-length encoded in ascending order; both lists
    /// start empty again. Nothing goes out for an empty list.
    pub open spec fn flush_receipts(self) -> StreamState {
        StreamState {
            sequences: SequenceState {
                acks: Set::empty(),
                nacks: Set::empty(),
                ..self.sequences.shift()
            },
            outbox: self.outbox + receipts(
                FLAG_DATAGRAM | FLAG_ACK,
                runs(sorted_of(self.sequences.acks)),
            ) + receipts(FLAG_DATAGRAM | FLAG_NACK, runs(sorted_of(self.sequences.nacks))),
            ..self
        }
    }

    /// The state after the peer has acknowledged the datagram `seq`: it is no
    /// longer held, and the time since it was sent is a sample.
    pub open spec fn acknowledge(self, seq: u32, now: u64) -> StreamState {
        if self.unacknowledged.contains_key(seq) {
            StreamState {
                unacknowledged: self.unacknowledged.remove(seq),
                delays: self.delays.push(
                    Sample { at: now, delay: elapsed(self.unacknowledged[seq].instant, now) },
                ),
                ..self
            }
        } else {
            self
        }
    }

    /// The state after the round-trip time has been measured: samples older
    /// than five seconds are dropped and the mean of the others is the latency.
    pub open spec fn measure(self, now: u64) -> StreamState {
        StreamState {
            delays: recent(self.delays, now),
            status: NetworkStatus {
                latency: mean(recent(self.delays, now)) as u64,
                ..self.status
            },
            ..self
        }
    }

    /// The state after the peer has reported the datagram `seq` missing: its
    /// frames go out again under a new sequence number, and twice the time
    /// since it was sent is a sample.
    pub open spec fn retransmit(self, seq: u32, now: u64) -> StreamState {
        if self.unacknowledged.contains_key(seq) {
            StreamState {
                unacknowledged: self.unacknowledged.remove(seq),
                delays: self.delays.push(
                    Sample {
                        at: now,
                        delay: doubled(elapsed(self.unacknowledged[seq].instant, now)),
                    },
                ),
                ..self
            }.send(self.unacknowledged[seq].packet, now)
        } else {
            self
        }
    }

    /// The state after a receipt has named the datagram `seq`: a positive
    /// receipt acknowledges it, a negative one reports it missing.
    pub open spec fn settle(self, negative: bool, seq: u32, now: u64) -> StreamState {
        if negative {
            self.retransmit(seq, now)
        } else {
            self.acknowledge(seq, now)
        }
    }

    /// The state after a receipt has named the datagrams `first..=last`, one
    /// after the other.
    pub open spec fn settle_span(self, negative: bool, first: int, last: int, now: u64) -> StreamState
        decreases last - first + 1,
    {
        if first > last {
            self
        } else {
            self.settle(negative, first as u32, now).settle_span(negative, first + 1, last, now)
        }
    }

    /// The state after a receipt with these records has arrived: each record
    /// names the datagrams from its first to its last number.
    pub open spec fn settle_all(
        self,
        negative: bool,
        records: Seq<(u32, u32)>,
        now: u64,
    ) -> StreamState
        decreases records.len(),
    {
        if records.len() == 0 {
            self
        } else {
            self.settle_span(negative, records[0].0 as int, records[0].1 as int, now).settle_all(
                negative,
                records.drop_first(),
                now,
            )
        }
    }

    /// The state after a receipt has named the datagrams with the numbers
    /// `numbers`, one after the other.
    pub open spec fn settle_each(self, negative: bool, numbers: Seq<u32>, now: u64) -> StreamState
        decreases numbers.len(),
    {
        if numbers.len() == 0 {
            self
        } else {
            self.settle_each(negative, numbers.drop_last(), now).settle(
                negative,
                numbers.last(),
                now,
            )
        }
    }

    /// The state after a datagram has arrived from the peer at `now`.
    pub open spec fn touch(self, now: u64) -> StreamState {
        StreamState { status: NetworkStatus { last_activity: now, ..self.status }, ..self }
    }

    /// What handling the message `m` leads to. A ping is answered with
    /// a pong that echoes its timestamp; a pong gives the ping time; a
    /// connection request is accepted; an accepted request is answered and
    /// the connection is established; game packets are handed to the host; a
    /// disconnect notification ends the connection; a check for a lost
    /// connection is answered with a ping; a version mismatch is reported.
    /// Answers are encoded as unreliable.
    #[verifier::opaque]
    pub open spec fn dispatch(self, m: MessageView, handle: u64, now: u64) -> Outcome {
        match m {
            MessageView::ConnectedPing { client_timestamp } => Outcome {
                state: self.encode(
                    MessageView::ConnectedPong {
                        client_timestamp,
                        server_timestamp: client_timestamp,
                    }.wire(),
                    Reliability::Unreliable,
                    now,
                ),
                events: Seq::empty(),
                result: Ok(()),
            },
            MessageView::ConnectedPong { client_timestamp, server_timestamp } => Outcome {
                state: StreamState {
                    status: NetworkStatus {
                        ping: ping_time(client_timestamp, server_timestamp),
                        ..self.status
                    },
                    ..self
                },
                events: seq![
                    RakNetEventView::Ping(handle, ping_time(client_timestamp, server_timestamp)),
                ],
                result: Ok(()),
            },
            MessageView::ConnectionRequest { request_timestamp, .. } => Outcome {
                state: self.encode(
                    MessageView::ConnectionRequestAccepted {
                        client_address: self.addr,
                        request_timestamp,
                        accept_timestamp: request_timestamp,
                    }.wire(),
                    Reliability::Unreliable,
                    now,
                ),
                events: Seq::empty(),
                result: Ok(()),
            },
            MessageView::ConnectionRequestAccepted {
                request_timestamp,
                accept_timestamp,
                ..
            } => Outcome {
                state: self.encode(
                    MessageView::NewIncomingConnection {
                        server_address: self.addr,
                        request_timestamp,
                        accept_timestamp,
                    }.wire(),
                    Reliability::Unreliable,
                    now,
                ),
                events: seq![RakNetEventView::ConnectionEstablished(self.addr, handle)],
                result: Ok(()),
            },
            MessageView::NewIncomingConnection { .. } => Outcome {
                state: self,
                events: seq![RakNetEventView::ConnectionEstablished(self.addr, handle)],
                result: Ok(()),
            },
            MessageView::GamePacket { data } => Outcome {
                state: self,
                events: seq![RakNetEventView::IncomingBatch(handle, data)],
                result: Ok(()),
            },
            MessageView::DisconnectNotification => Outcome {
                state: self,
                events: seq![
                    RakNetEventView::Disconnect(handle, DisconnectReason::ClientDisconnect),
                ],
                result: Ok(()),
            },
            MessageView::DetectLostConnections => Outcome {
                state: self.encode(
                    MessageView::ConnectedPing { client_timestamp: seconds(now) as i64 }.wire(),
                    Reliability::Unreliable,
                    now,
                ),
                events: Seq::empty(),
                result: Ok(()),
            },
            MessageView::IncompatibleProtocolVersion { server_protocol, .. } => Outcome {
                state: self,
                events: seq![RakNetEventView::IncompatibleProtocol(handle, server_protocol)],
                result: Ok(()),
            },
            _ => Outcome { state: self, events: Seq::empty(), result: Ok(()) },
        }
    }

    /// What handling the serialized message `payload` leads to: it fails
    /// where the bytes are no message, and otherwise the message is handled.
    #[verifier::opaque]
    pub open spec fn handle_message(self, payload: Seq<u8>, handle: u64, now: u64) -> Outcome {
        match MessageView::parse(payload, 0) {
            Err(e) => Outcome { state: self, events: Seq::empty(), result: Err(e) },
            Ok(m) => self.dispatch(m, handle, now),
        }
    }

    /// What one frame leads to. A reliable frame whose message index was
    /// delivered before is dropped. A fragment is stored with the others of
    /// its split id; the fragment that completes a message has the message
    /// handled. Any other frame has its content handled as a message.
    #[verifier::opaque]
    pub open spec fn accept_frame(self, frame: Frame, handle: u64, now: u64) -> Outcome {
        if frame.reliability.is_reliable() && !self.messages.accepts(frame.message_index) {
            Outcome { state: self, events: Seq::empty(), result: Ok(()) }
        } else {
            let gated = if frame.reliability.is_reliable() {
                StreamState { messages: self.messages.receive(frame.message_index), ..self }
            } else {
                self
            };
            match frame.split {
                None => gated.handle_message(frame.content, handle, now),
                Some(split) => {
                    let held = if gated.splits.contains_key(split.id) {
                        gated.splits[split.id]
                    } else {
                        Seq::new(split.count as nat, |i: int| None::<Seq<u8>>)
                    };
                    let stored = if split.index < split.count {
                        held.update(split.index as int, Some(frame.content))
                    } else {
                        held
                    };
                    let without = StreamState { splits: gated.splits.remove(split.id), ..gated };
                    if split.count > MAX_SPLIT_PACKETS {
                        Outcome {
                            state: gated,
                            events: Seq::empty(),
                            result: Err(Error::TooManySplits),
                        }
                    } else if held.len() != split.count {
                        Outcome {
                            state: without,
                            events: Seq::empty(),
                            result: Err(Error::SplitCountMismatch),
                        }
                    } else if split.index < split.count && complete(stored) {
                        without.handle_message(joined(stored, split.count as int), handle, now)
                    } else {
                        Outcome {
                            state: StreamState {
                                splits: gated.splits.insert(split.id, stored),
                                ..gated
                            },
                            events: Seq::empty(),
                            result: Ok(()),
                        }
                    }
                },
            }
        }
    }

    /// What the frames from `at` on lead to, `count` frames of the datagram
    /// having been read so far. The frames are taken one after the other
    /// until the datagram ends or a frame fails. Every frame that is read
    /// counts, whatever becomes of it, and the datagram fails with the frame
    /// that is one more than `MAX_BATCHED_PACKETS`, before that frame is
    /// handled.
    pub open spec fn decode_frames(self, s: Seq<u8>, at: int, count: int, handle: u64, now: u64) -> Outcome
        decreases
                (if at < s.len() {
                    s.len() - at
                } else {
                    0
                }),
    {
        if at >= s.len() {
            Outcome { state: self, events: Seq::empty(), result: Ok(()) }
        } else {
            match parse_frame(s, at) {
                Err(e) => Outcome { state: self, events: Seq::empty(), result: Err(e) },
                Ok(frame) => if count >= MAX_BATCHED_PACKETS {
                    Outcome { state: self, events: Seq::empty(), result: Err(Error::TooManyFrames) }
                } else {
                    let step = self.accept_frame(frame, handle, now);
                    if step.result is Err {
                        step
                    } else {
                        let rest = step.state.decode_frames(
                            s,
                            at + frame.size(),
                            count + 1,
                            handle,
                            now,
                        );
                        Outcome {
                            state: rest.state,
                            events: step.events + rest.events,
                            result: rest.result,
                        }
                    }
                },
            }
        }
    }

    /// What the datagram `s` from the peer leads to. It fails unless its
    /// first byte has the datagram flag. A receipt has the datagrams it names
    /// acknowledged, with the latency measured anew and reported, or sent
    /// again. Any other datagram is let through by its sequence number or
    /// dropped; where it is let through, its frames are handled.
    pub open spec fn decode(self, s: Seq<u8>, handle: u64, now: u64) -> Outcome {
        if s.len() < 1 {
            Outcome { state: self, events: Seq::empty(), result: Err(Error::UnexpectedEof) }
        } else if s[0] & FLAG_DATAGRAM == 0 {
            Outcome { state: self, events: Seq::empty(), result: Err(Error::MissingDatagramFlag) }
        } else if s[0] & FLAG_ACK != 0 {
            match parse_receipt(s, 1) {
                Err(e) => Outcome { state: self.touch(now), events: Seq::empty(), result: Err(e) },
                Ok(records) => {
                    let state = self.touch(now).settle_all(false, records, now).measure(now);
                    Outcome {
                        state,
                        events: seq![RakNetEventView::Latency(handle, state.status.latency)],
                        result: Ok(()),
                    }
                },
            }
        } else if s[0] & FLAG_NACK != 0 {
            match parse_receipt(s, 1) {
                Err(e) => Outcome { state: self.touch(now), events: Seq::empty(), result: Err(e) },
                Ok(records) => Outcome {
                    state: self.touch(now).settle_all(true, records, now),
                    events: Seq::empty(),
                    result: Ok(()),
                },
            }
        } else if !avail(s, 1, 3) {
            Outcome {
                state: self.touch(now),
                events: Seq::empty(),
                result: Err(Error::UnexpectedEof),
            }
        } else if !self.sequences.accepts(u24_at(s, 1)) {
            Outcome { state: self.touch(now), events: Seq::empty(), result: Ok(()) }
        } else {
            StreamState {
                sequences: self.sequences.receive(u24_at(s, 1)),
                ..self.touch(now)
            }.decode_frames(s, 4, 0, handle, now)
        }
    }
}

impl View for RakStream {
    type V = StreamState;

    open spec fn view(&self) -> StreamState {
        StreamState {
            addr: self.addr,
            mtu: self.mtu_size as int,
            sequence_number: self.sequence_number as int,
            message_index: self.message_index as int,
            sequence_index: self.sequence_index as int,
            order_index: self.order_index as int,
            split_id: self.split_id as int,
            sequences: self.sequence_window@,
            messages: self.message_window@,
            splits: splits_view(self.split_window@),
            unacknowledged: sent_view(self.recovery_window.unacknowledged@),
            delays: self.recovery_window.delays@,
            buffer: contents(self.buffer),
            outbox: outbox_view(self.outbox@),
            status: self.status,
        }
    }
}

/// The counter after `n`.
fn advance24(n: u32) -> (m: u32)
    requires
        n <= U24_MAX,
    ensures
        m == next24(n as int),
        m <= U24_MAX,
{
    if n >= U24_MAX {
        0
    } else {
        n + 1
    }
}

impl RakStream {
    /// The invariant of the engine: the MTU lies between the smallest and
    /// the largest the protocol runs with, the batched frames are no longer
    /// than the longest frame at that MTU, the counters fit 24 bits, the
    /// windows are in order, and the scratch buffers are empty.
    pub open spec fn wf(&self) -> bool {
        &&& MIN_MTU_SIZE <= self.mtu_size <= MAX_MTU_SIZE
        &&& contents(self.buffer).len() <= batch_limit(self.mtu_size as int)
        &&& self.sequence_number <= U24_MAX
        &&& self.message_index <= U24_MAX
        &&& self.sequence_index <= U24_MAX
        &&& self.order_index <= U24_MAX
        &&& self.sequence_window.wf()
        &&& self.message_window.wf()
        &&& forall|id: u16| #[trigger]
            self.split_window@.contains_key(id) ==> self.split_window@[id].wf()
                && self.split_window@[id].count <= MAX_SPLIT_PACKETS
        &&& contents(self.msgbuf) == Seq::<u8>::empty()
        &&& contents(self.receiptbuf) == Seq::<u8>::empty()
    }

    /// The engine of a new connection with the peer at `addr`. The MTU is
    /// brought into the range the protocol runs with. Every counter starts at
    /// zero and nothing is queued.
    pub fn new(addr: UDPAddress, mtu_size: usize, now: u64) -> (stream: RakStream)
        ensures
            stream.wf(),
            stream@ == StreamState::fresh(addr, mtu_size as int, now),
    {
        let mtu: usize = if mtu_size < MIN_MTU_SIZE {
            MIN_MTU_SIZE
        } else if mtu_size > MAX_MTU_SIZE {
            MAX_MTU_SIZE
        } else {
            mtu_size
        };
        let stream = RakStream {
            addr,
            mtu_size: mtu,
            sequence_number: 0,
            message_index: 0,
            sequence_index: 0,
            order_index: 0,
            split_id: 0,
            sequence_window: SequenceWindow::new(),
            message_window: MessageWindow::new(),
            split_window: HashMap::new(),
            recovery_window: RecoveryWindow::new(),
            receiptbuf: buffer_with_capacity(256),
            msgbuf: buffer_with_capacity(MAX_MTU_SIZE),
            buffer: buffer_with_capacity(MAX_MTU_SIZE),
            outbox: Vec::new(),
            status: NetworkStatus { ping: 0, latency: 0, last_activity: now },
        };
        assert(stream@.splits =~= Map::empty());
        assert(stream@.unacknowledged =~= Map::empty());
        assert(stream@.outbox =~= Seq::empty());
        stream
    }

    /// Takes the queued datagrams out, in the order in which they are to be
    /// sent to the peer.
    pub fn take_outgoing(&mut self) -> (datagrams: Vec<Vec<u8>>)
        requires
            old(self).wf(),
        ensures
            final(self).wf(),
            outbox_view(datagrams@) == old(self)@.outbox,
            final(self)@ == (StreamState { outbox: Seq::empty(), ..old(self)@ }),
    {
        let mut datagrams: Vec<Vec<u8>> = Vec::new();
        std::mem::swap(&mut self.outbox, &mut datagrams);
        assert(self@.outbox =~= Seq::empty());
        datagrams
    }

    /// Sends `frames` as a datagram under the next sequence number: the
    /// datagram is queued and the frames are held for recovery.
    fn send(&mut self, frames: Vec<u8>, now: u64)
        requires
            old(self).wf(),
        ensures
            final(self).wf(),
            final(self)@ == old(self)@.send(frames@, now),
    {
        let mut out = buffer_with_capacity(MAX_MTU_SIZE);
        put_u8(&mut out, FLAG_DATAGRAM | FLAG_NEEDS_B_AND_AS);
        put_u24_le(&mut out, self.sequence_number);
        put_slice(&mut out, frames.as_slice());
        let bytes = buffer_to_vec(&out);
        assert(bytes@ =~= datagram(self.sequence_number as int, frames@));
        self.outbox.push(bytes);
        self.recovery_window.add(self.sequence_number, freeze(frames.as_slice()), now);
        self.sequence_number = advance24(self.sequence_number);
        assert(self@.outbox =~= old(self)@.send(frames@, now).outbox);
        assert(self@.unacknowledged =~= old(self)@.send(frames@, now).unacknowledged);
    }

    /// Sends the batched frames as a datagram and starts a new batch.
    fn flush(&mut self, now: u64)
        requires
            old(self).wf(),
        ensures
            final(self).wf(),
            final(self)@ == old(self)@.flush(now),
    {
        let frames = buffer_to_vec(&self.buffer);
        buffer_clear(&mut self.buffer);
        self.send(frames, now);
    }

    /// Sends the frames batched so far, if there are any.
    pub fn try_flush(&mut self, now: u64)
        requires
            old(self).wf(),
        ensures
            final(self).wf(),
            final(self)@ == old(self)@.try_flush(now),
    {
        if buffer_len(&self.buffer) == 0 {
            return ;
        }
        self.flush(now);
    }

    /// Adds one frame with the content `content` to the batch.
    fn write_frame(
        &mut self,
        reliability: Reliability,
        order_index: u32,
        split: Option<(u32, u16, u32)>,
        content: &[u8],
    )
        requires
            old(self).wf(),
            order_index <= U24_MAX,
            contents(old(self).buffer).len() + header_size(reliability, split is Some)
                + content@.len() <= batch_limit(old(self).mtu_size as int),
        ensures
            final(self).wf(),
            final(self)@ == old(self)@.write_frame(
                reliability,
                order_index as int,
                match split {
                    Some(s) => Some(Split { count: s.0, id: s.1, index: s.2 }),
                    None => None,
                },
                content@,
            ),
    {
        let ghost ghost_split = match split {
            Some(s) => Some(Split { count: s.0, id: s.1, index: s.2 }),
            None => None,
        };
        let ghost before = self@;
        let ghost start = contents(self.buffer);
        proof {
            lemma_header_len(
                reliability,
                content@.len() as int,
                self.message_index as int,
                self.sequence_index as int,
                order_index as int,
                ghost_split,
            );
        }
        write_header(
            &mut self.buffer,
            reliability,
            content.len(),
            self.message_index,
            self.sequence_index,
            order_index,
            split,
        );
        put_slice(&mut self.buffer, content);
        if reliability.reliable() {
            self.message_index = advance24(self.message_index);
        }
        if reliability.sequenced() {
            self.sequence_index = advance24(self.sequence_index);
        }
        assert(contents(self.buffer) =~= start + frame_header(
            reliability,
            content@.len() as int,
            before.message_index,
            before.sequence_index,
            order_index as int,
            ghost_split,
        ) + content@);
    }

    /// Writes one frame with the content `content`.
    fn put_frame(
        &mut self,
        reliability: Reliability,
        order_index: u32,
        split: Option<(u32, u16, u32)>,
        content: &[u8],
        now: u64,
    )
        requires
            old(self).wf(),
            order_index <= U24_MAX,
            header_size(reliability, split is Some) + content@.len() <= batch_limit(
                old(self).mtu_size as int,
            ),
        ensures
            final(self).wf(),
            final(self)@ == old(self)@.put_frame(
                reliability,
                order_index as int,
                match split {
                    Some(s) => Some(Split { count: s.0, id: s.1, index: s.2 }),
                    None => None,
                },
                content@,
                now,
            ),
    {
        let room: usize = self.mtu_size - UDP_HEADER_SIZE - DATAGRAM_HEADER_SIZE;
        let needed: usize = header_len(reliability, split.is_some()) + content.len();
        let batched: usize = buffer_len(&self.buffer);
        if batched > 0 && (batched > room || needed > room - batched) {
            self.flush(now);
        }
        self.write_frame(reliability, order_index, split, content);
        let ordered = match reliability {
            Reliability::ReliableOrdered => true,
            _ => false,
        };
        if !ordered {
            self.flush(now);
        }
    }

    /// Encodes the serialized message `payload`.
    fn encode_payload(&mut self, payload: &[u8], reliability: Reliability, now: u64)
        requires
            old(self).wf(),
            payload@.len() <= 0x7fff_ffff,
        ensures
            final(self).wf(),
            final(self)@ == old(self)@.encode(payload@, reliability, now),
    {
        reveal(StreamState::encode);
        let len: usize = payload.len();
        let max: usize = self.mtu_size - UDP_HEADER_SIZE - DATAGRAM_HEADER_SIZE - FRAME_HEADER_SIZE;
        let size: usize = if len > max {
            max - FRAME_ADDITIONAL_SIZE
        } else {
            max
        };
        let mut count: usize = len / size;
        if len % size != 0 {
            count = count + 1;
        }
        let order_index: u32 = self.order_index;
        self.order_index = advance24(self.order_index);
        let split_id: u16 = self.split_id;
        if count > 1 {
            self.split_id = if split_id == 0xffff {
                0
            } else {
                split_id + 1
            };
        }
        let ghost goal = old(self)@.encode(payload@, reliability, now);
        let mut index: usize = 0;
        let mut offset: usize = 0;
        assert(0 * size == 0) by (nonlinear_arith);
        proof {
            if len >= 1 {
                lemma_fragment_count(len as int, self.mtu_size as int);
            }
        }
        while index < count
            invariant
                self.wf(),
                index <= count,
                len == payload@.len(),
                len <= 0x7fff_ffff,
                0 < size <= MAX_MTU_SIZE,
                size + 42 <= self.mtu_size,
                count > 1 ==> size + 52 == self.mtu_size,
                order_index <= U24_MAX,
                count == len / size + if len % size != 0 {
                    1int
                } else {
                    0int
                },
                offset == index * size,
                goal == self@.put_frames(
                    reliability,
                    order_index as int,
                    split_id as int,
                    payload@,
                    size as int,
                    count as int,
                    index as int,
                    now,
                ),
            decreases count - index,
        {
            proof {
                lemma_fragment_bounds(len as int, size as int, index as int);
            }
            let end: usize = if size > len - offset {
                len
            } else {
                offset + size
            };
            let content = slice_subrange(payload, offset, end);
            assert(content@ == fragment(payload@, size as int, index as int));
            let split: Option<(u32, u16, u32)> = if count > 1 {
                Some((count as u32, split_id, index as u32))
            } else {
                None
            };
            self.put_frame(reliability, order_index, split, content, now);
            index = index + 1;
            offset = offset + size;
        }
    }

    /// Encodes the message with the given reliability class and batches it
    /// for transmission. The message is serialized and cut into as many
    /// fragments as its length asks for at the MTU of the connection; each
    /// goes into a frame of its own.
    pub fn encode(&mut self, message: &Message, reliability: Reliability, now: u64)
        requires
            old(self).wf(),
            message@.wf(),
            message@.wire().len() <= 0x7fff_ffff,
        ensures
            final(self).wf(),
            final(self)@ == old(self)@.encode(message@.wire(), reliability, now),
    {
        message.serialize(&mut self.msgbuf);
        let payload = buffer_to_vec(&self.msgbuf);
        buffer_clear(&mut self.msgbuf);
        assert(payload@ =~= message@.wire());
        self.encode_payload(payload.as_slice(), reliability, now);
    }

    /// Queues the receipts for the records, with the given flags.
    fn write_receipts(&mut self, flag: u8, records: &Vec<(u32, u32)>)
        requires
            old(self).wf(),
        ensures
            final(self).wf(),
            final(self)@ == (StreamState {
                outbox: old(self)@.outbox + receipts(flag, records@),
                ..old(self)@
            }),
    {
        let ghost goal = old(self)@.outbox + receipts(flag, records@);
        let n: usize = records.len();
        let mut from: usize = 0;
        assert(records@.skip(0) =~= records@);
        while from < n
            invariant
                self.wf(),
                from <= n,
                n == records@.len(),
                self@ == (StreamState { outbox: self@.outbox, ..old(self)@ }),
                goal == self@.outbox + receipts(flag, records@.skip(from as int)),
            decreases n - from,
        {
            let to: usize = if n - from > MAX_RECEIPT_RECORDS {
                from + MAX_RECEIPT_RECORDS
            } else {
                n
            };
            let ghost rest = records@.skip(from as int);
            write_receipt(&mut self.receiptbuf, flag, records, from, to);
            let bytes = buffer_to_vec(&self.receiptbuf);
            buffer_clear(&mut self.receiptbuf);
            let ghost before = self@.outbox;
            self.outbox.push(bytes);
            proof {
                assert(self@.outbox =~= before.push(bytes@));
                if rest.len() <= MAX_RECEIPT_RECORDS {
                    assert(records@.subrange(from as int, to as int) =~= rest);
                    assert(records@.skip(to as int) =~= Seq::<(u32, u32)>::empty());
                    assert(before + receipts(flag, rest) =~= before.push(bytes@) + receipts(
                        flag,
                        records@.skip(to as int),
                    ));
                } else {
                    assert(records@.subrange(from as int, to as int) =~= rest.take(
                        MAX_RECEIPT_RECORDS as int,
                    ));
                    assert(records@.skip(to as int) =~= rest.skip(MAX_RECEIPT_RECORDS as int));
                    assert(before + receipts(flag, rest) =~= before.push(bytes@) + receipts(
                        flag,
                        records@.skip(to as int),
                    ));
                }
            }
            from = to;
        }
        assert(records@.skip(n as int) =~= Seq::<(u32, u32)>::empty());
        assert(self@.outbox =~= goal);
    }

    /// Closes the epoch of the sequence window and queues the receipts for
    /// it: one that acknowledges what was received and one that reports what
    /// is missing.
    pub fn flush_receipts(&mut self)
        requires
            old(self).wf(),
        ensures
            final(self).wf(),
            final(self)@ == old(self)@.flush_receipts(),
    {
        let (acks, nacks) = self.sequence_window.drain();
        proof {
            lemma_sorted_of(acks@);
            lemma_sorted_of(nacks@);
            assert(self.sequence_window.acks@.to_set() =~= Set::<u32>::empty());
            assert(self.sequence_window.nacks@.to_set() =~= Set::<u32>::empty());
        }
        let ack_records = collect_runs(&acks);
        self.write_receipts(FLAG_DATAGRAM | FLAG_ACK, &ack_records);
        let nack_records = collect_runs(&nacks);
        self.write_receipts(FLAG_DATAGRAM | FLAG_NACK, &nack_records);
        assert(self@.sequences == old(self)@.flush_receipts().sequences);
    }

    /// Applies the acknowledgement of one datagram.
    fn acknowledge(&mut self, seq: u32, now: u64)
        requires
            old(self).wf(),
        ensures
            final(self).wf(),
            final(self)@ == old(self)@.acknowledge(seq, now),
    {
        self.recovery_window.acknowledge(seq, now);
        assert(self@.unacknowledged =~= old(self)@.acknowledge(seq, now).unacknowledged);
    }

    /// Sends one datagram again that the peer reported missing.
    fn retransmit(&mut self, seq: u32, now: u64)
        requires
            old(self).wf(),
        ensures
            final(self).wf(),
            final(self)@ == old(self)@.retransmit(seq, now),
    {
        match self.recovery_window.retransmit(seq, now) {
            Some(packet) => {
                let frames = thaw(&packet);
                let ghost middle = self@;
                assert(middle.unacknowledged =~= old(self)@.unacknowledged.remove(seq));
                self.send(frames, now);
            },
            None => {
                assert(self@.unacknowledged =~= old(self)@.unacknowledged);
            },
        }
    }

    /// Applies a receipt to one datagram.
    fn settle(&mut self, negative: bool, seq: u32, now: u64)
        requires
            old(self).wf(),
        ensures
            final(self).wf(),
            final(self)@ == old(self)@.settle(negative, seq, now),
    {
        if negative {
            self.retransmit(seq, now);
        } else {
            self.acknowledge(seq, now);
        }
    }

    /// Applies a receipt: the datagrams that its records name are forgotten
    /// where it is positive and sent again where it is negative.
    fn settle_all(&mut self, negative: bool, records: &Vec<(u32, u32)>, now: u64)
        requires
            old(self).wf(),
            forall|k: int|
                0 <= k < records@.len() ==> (#[trigger] records@[k]).0 <= U24_MAX && records@[k].1
                    <= U24_MAX,
        ensures
            final(self).wf(),
            final(self)@ == old(self)@.settle_all(negative, records@, now),
    {
        let ghost goal = old(self)@.settle_all(negative, records@, now);
        let mut i: usize = 0;
        assert(records@.skip(0) =~= records@);
        while i < records.len()
            invariant
                self.wf(),
                i <= records@.len(),
                forall|k: int|
                    0 <= k < records@.len() ==> (#[trigger] records@[k]).0 <= U24_MAX
                        && records@[k].1 <= U24_MAX,
                goal == self@.settle_all(negative, records@.skip(i as int), now),
            decreases records@.len() - i,
        {
            let first: u32 = records[i].0;
            let last: u32 = records[i].1;
            let ghost rest = records@.skip(i as int);
            assert(rest[0] == records@[i as int]);
            assert(rest.drop_first() =~= records@.skip(i + 1));
            let ghost inner = self@.settle_span(negative, first as int, last as int, now);
            let mut seq: u32 = first;
            while seq <= last
                invariant
                    self.wf(),
                    last <= U24_MAX,
                    first <= seq,
                    inner == self@.settle_span(negative, seq as int, last as int, now),
                decreases last + 1 - seq,
            {
                self.settle(negative, seq, now);
                seq = seq + 1;
            }
            i = i + 1;
        }
    }

    /// Measures the round-trip time and keeps it as the latency.
    fn measure(&mut self, now: u64) -> (latency: u64)
        requires
            old(self).wf(),
        ensures
            final(self).wf(),
            final(self)@ == old(self)@.measure(now),
            latency == final(self)@.status.latency,
    {
        let latency: u64 = self.recovery_window.rtt(now);
        self.status.latency = latency;
        latency
    }

    /// Handles a message that has arrived, in one frame or put together
    /// from several.
    fn handle_message(
        &mut self,
        payload: &[u8],
        ev: &mut Vec<RakNetEvent>,
        handle: u64,
        now: u64,
    ) -> (res: Result<(), Error>)
        requires
            old(self).wf(),
        ensures
            final(self).wf(),
            final(self)@ == old(self)@.handle_message(payload@, handle, now).state,
            events_view(final(ev)@) == events_view(old(ev)@) + old(self)@.handle_message(
                payload@,
                handle,
                now,
            ).events,
            res == old(self)@.handle_message(payload@, handle, now).result,
    {
        reveal(StreamState::handle_message);
        let mut r = Reader::new(payload);
        match Message::deserialize(&mut r) {
            Ok(message) => {
                self.dispatch(message, ev, handle, now);
                Ok(())
            },
            Err(e) => {
                assert(events_view(ev@) + Seq::<RakNetEventView>::empty() =~= events_view(ev@));
                Err(e)
            },
        }
    }

    /// Encodes an answer to the peer as unreliable.
    fn reply(&mut self, message: &Message, now: u64)
        requires
            old(self).wf(),
            message@.wf(),
            bytes_len(message@) == 0,
        ensures
            final(self).wf(),
            final(self)@ == old(self)@.encode(message@.wire(), Reliability::Unreliable, now),
    {
        proof {
            lemma_wire_len(message@);
        }
        self.encode(message, Reliability::Unreliable, now);
    }

    /// Acts on a message from the peer.
    fn dispatch(&mut self, message: Message, ev: &mut Vec<RakNetEvent>, handle: u64, now: u64)
        requires
            old(self).wf(),
        ensures
            final(self).wf(),
            final(self)@ == old(self)@.dispatch(message@, handle, now).state,
            events_view(final(ev)@) == events_view(old(ev)@) + old(self)@.dispatch(
                message@,
                handle,
                now,
            ).events,
            old(self)@.dispatch(message@, handle, now).result == Ok::<(), Error>(()),
    {
        reveal(StreamState::dispatch);
        proof {
            assert(events_view(ev@) + Seq::<RakNetEventView>::empty() =~= events_view(ev@));
        }
        match message {
            Message::ConnectedPing { client_timestamp } => {
                let reply = Message::ConnectedPong {
                    client_timestamp,
                    server_timestamp: client_timestamp,
                };
                self.reply(&reply, now);
            },
            Message::ConnectedPong { client_timestamp, server_timestamp } => {
                let ping: u64 = ping_between(client_timestamp, server_timestamp);
                self.status.ping = ping;
                emit(ev, RakNetEvent::Ping(handle, ping));
                assert(events_view(ev@) =~= events_view(old(ev)@) + seq![
                    RakNetEventView::Ping(handle, ping),
                ]);
            },
            Message::ConnectionRequest { client_guid, request_timestamp, secure } => {
                let reply = Message::ConnectionRequestAccepted {
                    client_address: self.addr,
                    system_addresses: SystemAddresses,
                    request_timestamp,
                    accept_timestamp: request_timestamp,
                };
                self.reply(&reply, now);
            },
            Message::ConnectionRequestAccepted {
                client_address,
                system_addresses,
                request_timestamp,
                accept_timestamp,
            } => {
                let reply = Message::NewIncomingConnection {
                    server_address: self.addr,
                    system_addresses,
                    request_timestamp,
                    accept_timestamp,
                };
                let addr = self.addr;
                self.reply(&reply, now);
                emit(ev, RakNetEvent::ConnectionEstablished(addr, handle));
                assert(events_view(ev@) =~= events_view(old(ev)@) + seq![
                    RakNetEventView::ConnectionEstablished(addr, handle),
                ]);
            },
            Message::NewIncomingConnection { .. } => {
                emit(ev, RakNetEvent::ConnectionEstablished(self.addr, handle));
                assert(events_view(ev@) =~= events_view(old(ev)@) + seq![
                    RakNetEventView::ConnectionEstablished(self.addr, handle),
                ]);
            },
            Message::GamePacket { data } => {
                let ghost bytes = data@;
                emit(ev, RakNetEvent::IncomingBatch(handle, data));
                assert(events_view(ev@) =~= events_view(old(ev)@) + seq![
                    RakNetEventView::IncomingBatch(handle, bytes),
                ]);
            },
            Message::DisconnectNotification {  } => {
                emit(ev, RakNetEvent::Disconnect(handle, DisconnectReason::ClientDisconnect));
                assert(events_view(ev@) =~= events_view(old(ev)@) + seq![
                    RakNetEventView::Disconnect(handle, DisconnectReason::ClientDisconnect),
                ]);
            },
            Message::DetectLostConnections {  } => {
                let reply = Message::ConnectedPing { client_timestamp: timestamp(now) as i64 };
                self.reply(&reply, now);
            },
            Message::IncompatibleProtocolVersion { server_protocol, magic, server_guid } => {
                emit(ev, RakNetEvent::IncompatibleProtocol(handle, server_protocol));
                assert(events_view(ev@) =~= events_view(old(ev)@) + seq![
                    RakNetEventView::IncompatibleProtocol(handle, server_protocol),
                ]);
            },
            _ => {},
        }
    }

    /// Takes in one frame of a datagram.
    fn accept_frame(
        &mut self,
        frame: &RawFrame,
        ev: &mut Vec<RakNetEvent>,
        handle: u64,
        now: u64,
    ) -> (res: Result<(), Error>)
        requires
            old(self).wf(),
            frame.message_index <= U24_MAX,
        ensures
            final(self).wf(),
            final(self)@ == old(self)@.accept_frame(frame.frame(), handle, now).state,
            events_view(final(ev)@) == events_view(old(ev)@) + old(self)@.accept_frame(
                frame.frame(),
                handle,
                now,
            ).events,
            res == old(self)@.accept_frame(frame.frame(), handle, now).result,
    {
        broadcast use vstd::std_specs::hash::group_hash_axioms;

        reveal(StreamState::accept_frame);
        proof {
            assert(events_view(ev@) + Seq::<RakNetEventView>::empty() =~= events_view(ev@));
        }
        if frame.reliability.reliable() {
            if !self.message_window.receive(frame.message_index) {
                return Ok(());
            }
        }
        let ghost gated = self@;
        match frame.split {
            None => self.handle_message(frame.content, ev, handle, now),
            Some((count, id, index)) => {
                if count > MAX_SPLIT_PACKETS {
                    return Err(Error::TooManySplits);
                }
                let mut window = match self.split_window.remove(&id) {
                    Some(window) => window,
                    None => SplitWindow::new(count),
                };
                assert(self@.splits =~= gated.splits.remove(id));
                assert(window@ == if gated.splits.contains_key(id) {
                    gated.splits[id]
                } else {
                    Seq::new(count as nat, |i: int| None::<Seq<u8>>)
                });
                if window.count != count {
                    return Err(Error::SplitCountMismatch);
                }
                let fragment = slice_to_vec(frame.content);
                match window.receive(index, fragment) {
                    Some(bytes) => self.handle_message(bytes.as_slice(), ev, handle, now),
                    None => {
                        let ghost stored = window@;
                        self.split_window.insert(id, window);
                        assert(self@.splits =~= gated.splits.insert(id, stored));
                        Ok(())
                    },
                }
            },
        }
    }

    /// Handles the frames of a datagram that was let through.
    fn decode_frames(
        &mut self,
        r: &mut Reader,
        ev: &mut Vec<RakNetEvent>,
        handle: u64,
        now: u64,
    ) -> (res: Result<(), Error>)
        requires
            old(self).wf(),
            old(r).wf(),
        ensures
            final(self).wf(),
            final(self)@ == old(self)@.decode_frames(
                old(r).buf@,
                old(r).pos as int,
                0,
                handle,
                now,
            ).state,
            events_view(final(ev)@) == events_view(old(ev)@) + old(self)@.decode_frames(
                old(r).buf@,
                old(r).pos as int,
                0,
                handle,
                now,
            ).events,
            res == old(self)@.decode_frames(old(r).buf@, old(r).pos as int, 0, handle, now).result,
    {
        let ghost s = r.buf@;
        let ghost goal = old(self)@.decode_frames(s, r.pos as int, 0, handle, now);
        let ghost wanted = events_view(ev@) + goal.events;
        let mut count: usize = 0;
        while r.remaining() != 0
            invariant
                self.wf(),
                r.wf(),
                r.buf@ == s,
                s == old(r).buf@,
                count <= MAX_BATCHED_PACKETS,
                goal == old(self)@.decode_frames(s, old(r).pos as int, 0, handle, now),
                wanted == events_view(old(ev)@) + goal.events,
                goal.state == self@.decode_frames(s, r.pos as int, count as int, handle, now).state,
                goal.result == self@.decode_frames(
                    s,
                    r.pos as int,
                    count as int,
                    handle,
                    now,
                ).result,
                wanted == events_view(ev@) + self@.decode_frames(
                    s,
                    r.pos as int,
                    count as int,
                    handle,
                    now,
                ).events,
            decreases s.len() - r.pos,
        {
            let ghost before = self@;
            let ghost seen = events_view(ev@);
            proof {
                assert(seen + Seq::<RakNetEventView>::empty() =~= seen);
            }
            let frame = match read_frame(r) {
                Ok(frame) => frame,
                Err(e) => {
                    return Err(e);
                },
            };
            if count >= MAX_BATCHED_PACKETS {
                return Err(Error::TooManyFrames);
            }
            count = count + 1;
            let ghost next = r.pos as int;
            let result = self.accept_frame(&frame, ev, handle, now);
            let ghost step = before.accept_frame(frame.frame(), handle, now);
            match result {
                Err(e) => {
                    return Err(e);
                },
                Ok(_) => {},
            }
            proof {
                let rest = self@.decode_frames(s, next, count as int, handle, now);
                assert(seen + (step.events + rest.events) =~= (seen + step.events) + rest.events);
            }
        }
        proof {
            assert(events_view(ev@) + Seq::<RakNetEventView>::empty() =~= events_view(ev@));
        }
        Ok(())
    }

    /// Decodes a datagram from the peer, be it a receipt or a datagram that
    /// carries frames, and handles what it holds. Events for the host are
    /// added to `ev` under the handle of the connection; answers and
    /// datagrams that are sent again are queued.
    pub fn decode(
        &mut self,
        buffer: &[u8],
        ev: &mut Vec<RakNetEvent>,
        handle: u64,
        now: u64,
    ) -> (res: Result<(), Error>)
        requires
            old(self).wf(),
        ensures
            final(self).wf(),
            final(self)@ == old(self)@.decode(buffer@, handle, now).state,
            events_view(final(ev)@) == events_view(old(ev)@) + old(self)@.decode(
                buffer@,
                handle,
                now,
            ).events,
            res == old(self)@.decode(buffer@, handle, now).result,
    {
        proof {
            assert(events_view(ev@) + Seq::<RakNetEventView>::empty() =~= events_view(ev@));
        }
        let mut r = Reader::new(buffer);
        let header: u8 = match r.read_u8() {
            Ok(header) => header,
            Err(e) => {
                return Err(e);
            },
        };
        if header & FLAG_DATAGRAM == 0 {
            return Err(Error::MissingDatagramFlag);
        }
        self.status.last_activity = now;
        if header & FLAG_ACK != 0 {
            let records = match read_receipts(&mut r) {
                Ok(records) => records,
                Err(e) => {
                    return Err(e);
                },
            };
            self.settle_all(false, &records, now);
            let latency: u64 = self.measure(now);
            emit(ev, RakNetEvent::Latency(handle, latency));
            assert(events_view(ev@) =~= events_view(old(ev)@) + seq![
                RakNetEventView::Latency(handle, latency),
            ]);
            return Ok(());
        }
        if header & FLAG_NACK != 0 {
            let records = match read_receipts(&mut r) {
                Ok(records) => records,
                Err(e) => {
                    return Err(e);
                },
            };
            self.settle_all(true, &records, now);
            return Ok(());
        }
        let seq: u32 = match r.read_u24() {
            Ok(seq) => seq,
            Err(e) => {
                return Err(e);
            },
        };
        if !self.sequence_window.receive(seq) {
            return Ok(());
        }
        self.decode_frames(&mut r, ev, handle, now)
    }

    /// Closes the connection in good order: a disconnect notification is
    /// encoded as reliable and ordered, and everything batched goes out.
    pub fn disconnect(&mut self, now: u64)
        requires
            old(self).wf(),
        ensures
            final(self).wf(),
            final(self)@ == old(self)@.encode(seq![0x15u8], Reliability::ReliableOrdered, now).try_flush(
                now,
            ),
    {
        let message = Message::DisconnectNotification {  };
        assert(message@.wire() =~= seq![0x15u8]);
        self.encode(&message, Reliability::ReliableOrdered, now);
        self.try_flush(now);
    }
}


// ---------------------------------------------------------------------------
// What is sent arrives
// ---------------------------------------------------------------------------

/// The flag byte of a datagram that carries frames has the datagram flag and
/// neither receipt flag.
proof fn lemma_datagram_flags(datagram: u8, needs: u8, ack: u8, nack: u8)
    by (bit_vector)
    requires
        datagram == 0x80,
        needs == 0x04,
        ack == 0x40,
        nack == 0x20,
    ensures
        (datagram | needs) & datagram != 0,
        (datagram | needs) & ack == 0,
        (datagram | needs) & nack == 0,
{
}

/// The bytes of a datagram with one frame that is no fragment: the flag
/// byte, the sequence number, and the frame, which ends the datagram.
proof fn lemma_datagram_bytes(
    sequence_number: u32,
    reliability: Reliability,
    message_index: u32,
    sequence_index: u32,
    order_index: u32,
    payload: Seq<u8>,
)
    requires
        sequence_number <= U24_MAX,
        message_index <= U24_MAX,
        sequence_index <= U24_MAX,
        order_index <= U24_MAX,
        1 <= payload.len() <= 8191,
    ensures
        ({
            let s = datagram(
                sequence_number as int,
                frame_header(
                    reliability,
                    payload.len() as int,
                    message_index as int,
                    sequence_index as int,
                    order_index as int,
                    None,
                ) + payload,
            );
            let frame = Frame {
                reliability,
                message_index: if reliability.is_reliable() {
                    message_index
                } else {
                    0
                },
                split: None,
                content: payload,
            };
            &&& s.len() == 4 + frame.size()
            &&& s[0] == (FLAG_DATAGRAM | FLAG_NEEDS_B_AND_AS)
            &&& u24_at(s, 1) == sequence_number
            &&& parse_frame(s, 4) == Ok::<Frame, Error>(frame)
        }),
{
    let header = frame_header(
        reliability,
        payload.len() as int,
        message_index as int,
        sequence_index as int,
        order_index as int,
        None,
    );
    let flags = seq![FLAG_DATAGRAM | FLAG_NEEDS_B_AND_AS];
    let prefix = flags + le(sequence_number as nat, 3);
    let s = datagram(sequence_number as int, header + payload);
    lemma_fits_widths();
    lemma_le_roundtrip(sequence_number as nat, 3);
    lemma_header_len(
        reliability,
        payload.len() as int,
        message_index as int,
        sequence_index as int,
        order_index as int,
        None,
    );
    assert(prefix.len() == 4);
    assert(s =~= prefix + header + payload + Seq::<u8>::empty());
    assert(s.subrange(1, 4) =~= le(sequence_number as nat, 3));
    lemma_frame_roundtrip(
        prefix,
        reliability,
        message_index,
        sequence_index,
        order_index,
        None,
        payload,
        Seq::empty(),
    );
}

/// A frame that is no fragment and ends the datagram has its content
/// handled as a message, provided its message index is let through where it
/// is reliable.
proof fn lemma_last_frame(
    arrived: StreamState,
    s: Seq<u8>,
    at: int,
    frame: Frame,
    handle: u64,
    now: u64,
)
    requires
        0 <= at < s.len(),
        parse_frame(s, at) == Ok::<Frame, Error>(frame),
        s.len() == at + frame.size(),
        frame.split is None,
        frame.reliability.is_reliable() ==> arrived.messages.accepts(frame.message_index),
    ensures
        arrived.decode_frames(s, at, 0, handle, now) == (StreamState {
            messages: if frame.reliability.is_reliable() {
                arrived.messages.receive(frame.message_index)
            } else {
                arrived.messages
            },
            ..arrived
        }).handle_message(frame.content, handle, now),
{
    reveal(StreamState::accept_frame);
    let gated = StreamState {
        messages: if frame.reliability.is_reliable() {
            arrived.messages.receive(frame.message_index)
        } else {
            arrived.messages
        },
        ..arrived
    };
    let handled = gated.handle_message(frame.content, handle, now);
    let step = arrived.accept_frame(frame, handle, now);
    assert(step == handled);
    let rest = handled.state.decode_frames(s, at + frame.size(), 1, handle, now);
    assert(rest == Outcome { state: handled.state, events: Seq::empty(), result: Ok(()) });
    assert(handled.events + Seq::<RakNetEventView>::empty() =~= handled.events);
    let whole = arrived.decode_frames(s, at, 0, handle, now);
    if handled.result is Err {
        assert(whole == handled);
    } else {
        match handled.result {
            Ok(unit) => {
                assert(unit == ());
            },
            Err(_) => {},
        }
        assert(handled.result == Ok::<(), Error>(()));
        assert(whole.state == handled.state);
        assert(whole.events == handled.events);
        assert(whole.result == handled.result);
    }
}

/// A datagram with one frame that is no fragment has the message in that
/// frame handled, provided the receiver lets the sequence number of the
/// datagram through and, for a reliable frame, the message index of the
/// frame. The receiver notes the time, the sequence number and the message
/// index, and what handling the message leads to is what the datagram leads
/// to.
pub proof fn lemma_datagram_arrives(
    receiver: StreamState,
    sequence_number: u32,
    reliability: Reliability,
    message_index: u32,
    sequence_index: u32,
    order_index: u32,
    payload: Seq<u8>,
    handle: u64,
    now: u64,
)
    requires
        sequence_number <= U24_MAX,
        message_index <= U24_MAX,
        sequence_index <= U24_MAX,
        order_index <= U24_MAX,
        1 <= payload.len() <= 8191,
        receiver.sequences.accepts(sequence_number),
        reliability.is_reliable() ==> receiver.messages.accepts(message_index),
    ensures
        receiver.decode(
            datagram(
                sequence_number as int,
                frame_header(
                    reliability,
                    payload.len() as int,
                    message_index as int,
                    sequence_index as int,
                    order_index as int,
                    None,
                ) + payload,
            ),
            handle,
            now,
        ) == (StreamState {
            sequences: receiver.sequences.receive(sequence_number),
            messages: if reliability.is_reliable() {
                receiver.messages.receive(message_index)
            } else {
                receiver.messages
            },
            ..receiver.touch(now)
        }).handle_message(payload, handle, now),
{
    let s = datagram(
        sequence_number as int,
        frame_header(
            reliability,
            payload.len() as int,
            message_index as int,
            sequence_index as int,
            order_index as int,
            None,
        ) + payload,
    );
    let arrived = StreamState {
        sequences: receiver.sequences.receive(sequence_number),
        ..receiver.touch(now)
    };
    let frame = Frame {
        reliability,
        message_index: if reliability.is_reliable() {
            message_index
        } else {
            0
        },
        split: None,
        content: payload,
    };
    lemma_datagram_flags(FLAG_DATAGRAM, FLAG_NEEDS_B_AND_AS, FLAG_ACK, FLAG_NACK);
    lemma_datagram_bytes(
        sequence_number,
        reliability,
        message_index,
        sequence_index,
        order_index,
        payload,
    );
    lemma_last_frame(arrived, s, 4, frame, handle, now);
}


/// A message that fits one frame goes out in one datagram. Where nothing is
/// batched, encoding the message and sending what is batched queues one
/// datagram with one frame that is no fragment, under the counters of the
/// sender.
pub proof fn lemma_encode_sends(
    sender: StreamState,
    payload: Seq<u8>,
    reliability: Reliability,
    now: u64,
)
    requires
        MIN_MTU_SIZE <= sender.mtu,
        0 <= sender.sequence_number <= U24_MAX,
        sender.buffer.len() == 0,
        1 <= payload.len() <= sender.mtu - UDP_HEADER_SIZE - DATAGRAM_HEADER_SIZE
            - FRAME_HEADER_SIZE,
    ensures
        sender.encode(payload, reliability, now).try_flush(now).outbox == sender.outbox.push(
            datagram(
                sender.sequence_number,
                frame_header(
                    reliability,
                    payload.len() as int,
                    sender.message_index,
                    sender.sequence_index,
                    sender.order_index,
                    None,
                ) + payload,
            ),
        ),
{
    reveal(StreamState::encode);
    reveal_with_fuel(StreamState::put_frames, 2);
    let len = payload.len() as int;
    let size = fragment_size(sender.mtu, len);
    lemma_fragment_count(len, sender.mtu);
    assert(fragment_count(sender.mtu, len) == 1);
    assert(0 * size == 0) by (nonlinear_arith);
    assert((0 + 1) * size == size) by (nonlinear_arith);
    assert(fragment(payload, size, 0) =~= payload);
    let header = frame_header(
        reliability,
        len,
        sender.message_index,
        sender.sequence_index,
        sender.order_index,
        None,
    );
    lemma_header_len(
        reliability,
        len,
        sender.message_index,
        sender.sequence_index,
        sender.order_index,
        None,
    );
    assert(Seq::<u8>::empty() + header + payload =~= header + payload);
    assert((header + payload).len() > 0);
}

/// What is sent arrives. A sender with nothing batched encodes a message
/// that fits one frame and sends what is batched; one datagram is queued. A
/// receiver that lets the sequence number of the sender through and, where
/// the message is reliable, its message index, handles that message when the
/// datagram reaches it.
pub proof fn lemma_sent_arrives(
    sender: StreamState,
    receiver: StreamState,
    payload: Seq<u8>,
    reliability: Reliability,
    sent: u64,
    handle: u64,
    now: u64,
)
    requires
        MIN_MTU_SIZE <= sender.mtu <= MAX_MTU_SIZE,
        0 <= sender.sequence_number <= U24_MAX,
        0 <= sender.message_index <= U24_MAX,
        0 <= sender.sequence_index <= U24_MAX,
        0 <= sender.order_index <= U24_MAX,
        sender.buffer.len() == 0,
        1 <= payload.len() <= sender.mtu - UDP_HEADER_SIZE - DATAGRAM_HEADER_SIZE
            - FRAME_HEADER_SIZE,
        receiver.sequences.accepts(sender.sequence_number as u32),
        reliability.is_reliable() ==> receiver.messages.accepts(sender.message_index as u32),
    ensures
        sender.encode(payload, reliability, sent).try_flush(sent).outbox.len() == sender.outbox.len()
            + 1,
        receiver.decode(
            sender.encode(payload, reliability, sent).try_flush(sent).outbox.last(),
            handle,
            now,
        ) == (StreamState {
            sequences: receiver.sequences.receive(sender.sequence_number as u32),
            messages: if reliability.is_reliable() {
                receiver.messages.receive(sender.message_index as u32)
            } else {
                receiver.messages
            },
            ..receiver.touch(now)
        }).handle_message(payload, handle, now),
{
    lemma_encode_sends(sender, payload, reliability, sent);
    lemma_datagram_arrives(
        receiver,
        sender.sequence_number as u32,
        reliability,
        sender.message_index as u32,
        sender.sequence_index as u32,
        sender.order_index as u32,
        payload,
        handle,
        now,
    );
}


/// The number of frames that stand one after the other in `s` from `at` on,
/// up to the end or to what is no frame.
pub open spec fn frame_count(s: Seq<u8>, at: int) -> nat
    decreases
            (if at < s.len() {
                s.len() - at
            } else {
                0
            }),
{
    if at >= s.len() {
        0
    } else {
        match parse_frame(s, at) {
            Err(_) => 0,
            Ok(frame) => 1 + frame_count(s, at + frame.size()),
        }
    }
}

/// No more than `MAX_BATCHED_PACKETS` frames of a datagram are taken in:
/// where more frames stand from `at` on than are left of that number after
/// the `count` frames read so far, the frames fail.
pub proof fn lemma_frame_cap(
    state: StreamState,
    s: Seq<u8>,
    at: int,
    count: int,
    handle: u64,
    now: u64,
)
    requires
        0 <= count <= MAX_BATCHED_PACKETS,
        frame_count(s, at) + count > MAX_BATCHED_PACKETS,
    ensures
        state.decode_frames(s, at, count, handle, now).result is Err,
    decreases
            (if at < s.len() {
                s.len() - at
            } else {
                0
            }),
{
    if at < s.len() {
        match parse_frame(s, at) {
            Err(_) => {},
            Ok(frame) => {
                if count < MAX_BATCHED_PACKETS {
                    let step = state.accept_frame(frame, handle, now);
                    if step.result is Ok {
                        lemma_frame_cap(step.state, s, at + frame.size(), count + 1, handle, now);
                    }
                }
            },
        }
    }
}

/// A datagram that carries more than `MAX_BATCHED_PACKETS` frames fails,
/// where its sequence number is let through.
pub proof fn lemma_datagram_frame_cap(state: StreamState, s: Seq<u8>, handle: u64, now: u64)
    requires
        s.len() >= 4,
        s[0] & FLAG_DATAGRAM != 0,
        s[0] & FLAG_ACK == 0,
        s[0] & FLAG_NACK == 0,
        state.sequences.accepts(u24_at(s, 1)),
        frame_count(s, 4) > MAX_BATCHED_PACKETS,
    ensures
        state.decode(s, handle, now).result is Err,
{
    lemma_frame_cap(
        StreamState { sequences: state.sequences.receive(u24_at(s, 1)), ..state.touch(now) },
        s,
        4,
        0,
        handle,
        now,
    );
}

/// The flag byte of a positive receipt has the datagram flag and the
/// acknowledgement flag; that of a negative receipt has the datagram flag
/// and the negative flag, and not the acknowledgement flag.
proof fn lemma_receipt_flags(datagram: u8, ack: u8, nack: u8)
    by (bit_vector)
    requires
        datagram == 0x80,
        ack == 0x40,
        nack == 0x20,
    ensures
        (datagram | ack) & datagram != 0,
        (datagram | ack) & ack != 0,
        (datagram | nack) & datagram != 0,
        (datagram | nack) & ack == 0,
        (datagram | nack) & nack != 0,
{
}

/// A receipt arrives as what it says. A positive receipt has the sender
/// forget the datagrams that its records name, measure the latency anew and
/// report it; a negative receipt has the sender send those datagrams again.
/// The receipt has no more records than it can state, with numbers that fit
/// 24 bits.
pub proof fn lemma_receipt_arrives(
    sender: StreamState,
    records: Seq<(u32, u32)>,
    negative: bool,
    handle: u64,
    now: u64,
)
    requires
        records.len() <= MAX_RECEIPT_RECORDS,
        forall|k: int|
            0 <= k < records.len() ==> (#[trigger] records[k]).0 <= U24_MAX && records[k].1
                <= U24_MAX,
    ensures
        !negative ==> sender.decode(receipt(FLAG_DATAGRAM | FLAG_ACK, records), handle, now)
            == (Outcome {
            state: sender.touch(now).settle_all(false, records, now).measure(now),
            events: seq![
                RakNetEventView::Latency(
                    handle,
                    sender.touch(now).settle_all(false, records, now).measure(now).status.latency,
                ),
            ],
            result: Ok(()),
        }),
        negative ==> sender.decode(receipt(FLAG_DATAGRAM | FLAG_NACK, records), handle, now)
            == (Outcome {
            state: sender.touch(now).settle_all(true, records, now),
            events: Seq::empty(),
            result: Ok(()),
        }),
{
    lemma_receipt_flags(FLAG_DATAGRAM, FLAG_ACK, FLAG_NACK);
    if negative {
        let flag = seq![FLAG_DATAGRAM | FLAG_NACK];
        lemma_receipt_roundtrip(flag, records);
        assert(receipt(FLAG_DATAGRAM | FLAG_NACK, records)[0] == (FLAG_DATAGRAM | FLAG_NACK));
    } else {
        let flag = seq![FLAG_DATAGRAM | FLAG_ACK];
        lemma_receipt_roundtrip(flag, records);
        assert(receipt(FLAG_DATAGRAM | FLAG_ACK, records)[0] == (FLAG_DATAGRAM | FLAG_ACK));
    }
}


// ---------------------------------------------------------------------------
// What a receipt stands for
// ---------------------------------------------------------------------------

/// Naming two lists of numbers in a row is naming the one and then the other.
proof fn lemma_settle_each_add(
    state: StreamState,
    negative: bool,
    a: Seq<u32>,
    b: Seq<u32>,
    now: u64,
)
    ensures
        state.settle_each(negative, a + b, now) == state.settle_each(negative, a, now).settle_each(
            negative,
            b,
            now,
        ),
    decreases b.len(),
{
    if b.len() == 0 {
        assert(a + b =~= a);
    } else {
        lemma_settle_each_add(state, negative, a, b.drop_last(), now);
        assert((a + b).drop_last() =~= a + b.drop_last());
    }
}

/// Naming a range is naming each of its numbers.
proof fn lemma_settle_span(state: StreamState, negative: bool, first: u32, last: u32, now: u64)
    ensures
        state.settle_span(negative, first as int, last as int, now) == state.settle_each(
            negative,
            span((first, last)),
            now,
        ),
    decreases last + 1 - first,
{
    if first > last {
    } else {
        let rest = if first < last {
            span(((first + 1) as u32, last))
        } else {
            Seq::<u32>::empty()
        };
        assert(span((first, last)) =~= seq![first] + rest);
        lemma_settle_each_add(state, negative, seq![first], rest, now);
        assert(seq![first].drop_last() =~= Seq::<u32>::empty());
        assert(state.settle_each(negative, Seq::<u32>::empty(), now) == state);
        assert(seq![first].last() == first);
        let next = state.settle(negative, first, now);
        assert(state.settle_each(negative, seq![first], now) == next);
        assert(state.settle_span(negative, first as int, last as int, now) == next.settle_span(
            negative,
            first + 1,
            last as int,
            now,
        ));
        if first < last {
            lemma_settle_span(next, negative, (first + 1) as u32, last, now);
        } else {
            assert(next.settle_span(negative, first + 1, last as int, now) == next);
            assert(next.settle_each(negative, rest, now) == next);
        }
        assert(state.settle_each(negative, seq![first] + rest, now) == next.settle_each(
            negative,
            rest,
            now,
        ));
    }
}

/// The numbers of a list of records are those of its first record followed
/// by those of the others.
proof fn lemma_expand_front(records: Seq<(u32, u32)>)
    requires
        records.len() > 0,
    ensures
        expand(records) == span(records[0]) + expand(records.drop_first()),
    decreases records.len(),
{
    if records.len() == 1 {
        assert(records.drop_last() =~= Seq::<(u32, u32)>::empty());
        assert(records.drop_first() =~= Seq::<(u32, u32)>::empty());
        assert(expand(records) =~= span(records[0]) + expand(records.drop_first()));
    } else {
        lemma_expand_front(records.drop_last());
        assert(records.drop_last().drop_first() =~= records.drop_first().drop_last());
        assert(records.drop_last()[0] == records[0]);
        assert(records.drop_first().last() == records.last());
        assert(expand(records) =~= span(records[0]) + expand(records.drop_first()));
    }
}

/// A receipt stands for the numbers of its records: what its records lead
/// to is what naming each of those numbers in turn leads to, acknowledging it
/// where the receipt is positive and sending it again where it is negative.
pub proof fn lemma_settle_all(
    state: StreamState,
    negative: bool,
    records: Seq<(u32, u32)>,
    now: u64,
)
    ensures
        state.settle_all(negative, records, now) == state.settle_each(
            negative,
            expand(records),
            now,
        ),
    decreases records.len(),
{
    if records.len() > 0 {
        let first = records[0];
        let after = state.settle_span(negative, first.0 as int, first.1 as int, now);
        lemma_settle_span(state, negative, first.0, first.1, now);
        lemma_settle_all(after, negative, records.drop_first(), now);
        lemma_expand_front(records);
        lemma_settle_each_add(state, negative, span(first), expand(records.drop_first()), now);
    }
}

/// What a receiver reports reaches the sender as it was meant. The receipts
/// of an epoch in which the receiver took in the ascending numbers `acks`,
/// few enough runs to go into one receipt, make the sender forget exactly the
/// datagrams with those numbers, measure the latency anew and report it.
pub proof fn lemma_acks_reach_the_sender(
    sender: StreamState,
    acks: Seq<u32>,
    handle: u64,
    now: u64,
)
    requires
        ascending(acks),
        forall|i: int| 0 <= i < acks.len() ==> acks[i] <= U24_MAX,
        0 < runs(acks).len() <= MAX_RECEIPT_RECORDS,
    ensures
        receipts(FLAG_DATAGRAM | FLAG_ACK, runs(acks)) == seq![
            receipt(FLAG_DATAGRAM | FLAG_ACK, runs(acks)),
        ],
        sender.decode(receipt(FLAG_DATAGRAM | FLAG_ACK, runs(acks)), handle, now).state
            == sender.touch(now).settle_each(false, acks, now).measure(now),
        sender.decode(receipt(FLAG_DATAGRAM | FLAG_ACK, runs(acks)), handle, now).result == Ok::<
            (),
            Error,
        >(()),
{
    let records = runs(acks);
    lemma_runs_minimal(acks);
    lemma_runs_bound(acks);
    lemma_receipt_arrives(sender, records, false, handle, now);
    lemma_settle_all(sender.touch(now), false, records, now);
}

} // verus!
