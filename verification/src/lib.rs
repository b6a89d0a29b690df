//! Reliability core of a RakNet-style transport for Minecraft Bedrock Edition.
//!
//! The crate holds the wire codec, the receive and recovery windows, the
//! per-connection reliability engine and the listener's handshake and
//! rate-limiting rules. It performs no I/O: datagrams come in as byte slices,
//! datagrams to send are queued as byte vectors, and every function that needs
//! the time takes it as milliseconds since the Unix epoch.

pub mod generic;
pub mod net;
pub mod protocol;
