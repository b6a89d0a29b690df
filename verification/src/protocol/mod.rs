//! Protocol constants and the wire codec.

use vstd::prelude::*;

pub mod binary;
pub mod frame;
pub mod mcpe;
pub mod message;
pub mod receipt;
pub mod reliability;

verus! {

/// Protocol version spoken by this implementation.
pub const PROTOCOL_VERSION: u8 = 11;

/// Largest MTU that is ever negotiated.
pub const MAX_MTU_SIZE: usize = 1500;

/// Smallest MTU a connection is run with: the headers of a fragmented frame
/// and one byte of payload.
pub const MIN_MTU_SIZE: usize = 53;

/// Number of addresses in a system address list (MCPE uses 20).
pub const SYSTEM_ADDRESS_COUNT: usize = 20;

/// Largest number of fragments a single message may be split into.
pub const MAX_SPLIT_PACKETS: u32 = 250;

/// Largest number of frames a single datagram may carry.
pub const MAX_BATCHED_PACKETS: usize = 100;

/// IP header (20 bytes) and UDP header (8 bytes).
pub const UDP_HEADER_SIZE: usize = 28;

/// Datagram flags (1 byte) and sequence number (3 bytes).
pub const DATAGRAM_HEADER_SIZE: usize = 4;

/// Frame flags (1), bit length (2), message index (3), order index (3) and
/// order channel (1).
pub const FRAME_HEADER_SIZE: usize = 10;

/// Fragment count (4), split id (2) and fragment index (4) of a fragmented frame.
pub const FRAME_ADDITIONAL_SIZE: usize = 10;

/// Set on every datagram, whether it carries frames or a receipt.
pub const FLAG_DATAGRAM: u8 = 0x80;

/// Set on every datagram that carries frames; peers do not interpret it.
pub const FLAG_NEEDS_B_AND_AS: u8 = 0x04;

/// Set on a positive acknowledgement receipt.
pub const FLAG_ACK: u8 = 0x40;

/// Set on a negative acknowledgement receipt.
pub const FLAG_NACK: u8 = 0x20;

/// Set in the header byte of a frame that is one fragment of a split message.
pub const FLAG_FRAGMENTED: u8 = 0x10;

/// Width of the receive windows.
pub const WINDOW_SIZE: u32 = 2048;

/// Largest value of a 24-bit counter.
pub const U24_MAX: u32 = 0xff_ffff;

/// Largest number of records in one receipt: the count is a signed 16-bit field.
pub const MAX_RECEIPT_RECORDS: usize = 0x7fff;

/// IPv4 address of the placeholder entries of a system address list
/// (255.255.255.255).
pub const INTERNAL_ADDRESS_IP: u32 = 0xffff_ffff;

/// UDP port that the placeholder entries of a system address list carry.
pub const INTERNAL_ADDRESS_PORT: u16 = 19132;

/// Interval in milliseconds at which receipts and batched frames are flushed.
pub const RAKNET_TPS: u64 = 100;

/// Interval in milliseconds at which connections are checked for a timeout.
pub const RAKNET_CHECK_TIMEOUT: u64 = 100;

/// Bytes by which the padding of a client's first request shrinks each time
/// the request was not answered.
pub const CLIENT_PADDING_DECREASE: usize = 100;

/// Most datagrams a single address may send within one second.
pub const MAX_MSGS_PER_SEC: u8 = 100;

/// Most malformed datagrams a single address may send before it is blocked.
pub const MAX_INVALID_MSGS: u8 = 20;

/// Seconds for which a misbehaving address is blocked.
pub const RAKNET_BLOCK_DUR: u64 = 10;

/// Milliseconds of silence after which a connection has timed out.
pub const RAKNET_TIMEOUT: u64 = 100;

/// Milliseconds for which a round-trip sample counts towards the estimate.
pub const RTT_WINDOW: u64 = 5000;

/// The 16 bytes found in every unconnected message.
pub const UNCONNECTED_MESSAGE_SEQUENCE: [u8; 16] = [
    0x00, 0xff, 0xff, 0x00, 0xfe, 0xfe, 0xfe, 0xfe, 0xfd, 0xfd, 0xfd, 0xfd, 0x12, 0x34, 0x56, 0x78,
];

} // verus!
