//! The tables that a listener keeps by the address of a peer: who is
//! connected, who is blocked, and how many datagrams and malformed datagrams
//! each peer has sent.

use std::collections::HashMap;
use vstd::prelude::*;

use crate::generic::events::{emit, events_view, BlockReason, RakNetEvent, RakNetEventView};
use crate::generic::window::elapsed;
use crate::generic::{seconds, timestamp};
use crate::protocol::binary::UDPAddress;
use crate::protocol::{MAX_INVALID_MSGS, MAX_MSGS_PER_SEC, RAKNET_BLOCK_DUR};

verus! {

/// A table from addresses to values. IPv4 addresses are looked up in a hash
/// map by one number made of address and port; IPv6 addresses in a hash map
/// by address, which holds a hash map by port for each address.
pub struct AddressMap<V> {
    pub v4: HashMap<u64, V>,
    pub v6: HashMap<u128, HashMap<u16, V>>,
}

/// The number that an IPv4 address and a port are looked up by: the address
/// in the upper bits, the port in the lower sixteen.
pub open spec fn key4(ip: u32, port: u16) -> u64 {
    (ip * 0x1_0000 + port) as u64
}

/// The two hash maps hold a value for the address.
pub open spec fn has_entry<V>(
    v4: Map<u64, V>,
    v6: Map<u128, HashMap<u16, V>>,
    addr: UDPAddress,
) -> bool {
    match addr {
        UDPAddress::V4 { ip, port } => v4.contains_key(key4(ip, port)),
        UDPAddress::V6 { ip, port } => v6.contains_key(ip) && v6[ip]@.contains_key(port),
    }
}

/// The value that the two hash maps hold for the address.
pub open spec fn entry<V>(v4: Map<u64, V>, v6: Map<u128, HashMap<u16, V>>, addr: UDPAddress) -> V {
    match addr {
        UDPAddress::V4 { ip, port } => v4[key4(ip, port)],
        UDPAddress::V6 { ip, port } => v6[ip]@[port],
    }
}

impl<V> View for AddressMap<V> {
    type V = Map<UDPAddress, V>;

    open spec fn view(&self) -> Map<UDPAddress, V> {
        Map::new(
            |a: UDPAddress| has_entry(self.v4@, self.v6@, a),
            |a: UDPAddress| entry(self.v4@, self.v6@, a),
        )
    }
}

impl<V: Copy> AddressMap<V> {
    /// Every number that an IPv4 entry is kept under is made of an address
    /// and a port, and no hash map by port is kept for an IPv6 address
    /// without entries.
    pub open spec fn wf(&self) -> bool {
        &&& forall|key: u64| #[trigger] self.v4@.contains_key(key) ==> key < 0x1_0000_0000_0000
        &&& forall|ip: u128| #[trigger] self.v6@.contains_key(ip) ==> !self.v6@[ip]@.is_empty()
    }

    /// A table without entries.
    pub fn new() -> (m: Self)
        ensures
            m.wf(),
            m@ == Map::<UDPAddress, V>::empty(),
    {
        let m = AddressMap { v4: HashMap::new(), v6: HashMap::new() };
        assert(m@ =~= Map::<UDPAddress, V>::empty());
        m
    }

    /// Whether the table is without entries.
    pub fn is_empty(&self) -> (empty: bool)
        requires
            self.wf(),
        ensures
            empty == (self@ == Map::<UDPAddress, V>::empty()),
    {
        let empty = self.v4.is_empty() && self.v6.is_empty();
        proof {
            if empty {
                assert(self@ =~= Map::<UDPAddress, V>::empty());
            } else if !self.v4@.is_empty() {
                let key = choose|key: u64| self.v4@.dom().contains(key);
                let ip = (key / 0x1_0000) as u32;
                let port = (key % 0x1_0000) as u16;
                assert(key4(ip, port) == key);
                assert(self@.contains_key(UDPAddress::V4 { ip, port }));
            } else {
                let ip = choose|ip: u128| self.v6@.dom().contains(ip);
                assert(self.v6@.contains_key(ip));
                let port = choose|port: u16| self.v6@[ip]@.dom().contains(port);
                assert(self@.contains_key(UDPAddress::V6 { ip, port }));
            }
        }
        empty
    }

    /// The value for `addr`, if there is one.
    pub fn get(&self, addr: UDPAddress) -> (value: Option<V>)
        requires
            self.wf(),
        ensures
            value == if self@.contains_key(addr) {
                Some(self@[addr])
            } else {
                None
            },
    {
        broadcast use vstd::std_specs::hash::group_hash_axioms;

        match addr {
            UDPAddress::V4 { ip, port } => {
                let key: u64 = (ip as u64) * 0x1_0000 + port as u64;
                match self.v4.get(&key) {
                    Some(value) => Some(*value),
                    None => None,
                }
            },
            UDPAddress::V6 { ip, port } => match self.v6.get(&ip) {
                Some(ports) => match ports.get(&port) {
                    Some(value) => Some(*value),
                    None => None,
                },
                None => None,
            },
        }
    }

    /// Sets the value for `addr`, in place of an earlier one.
    pub fn insert(&mut self, addr: UDPAddress, value: V)
        requires
            old(self).wf(),
        ensures
            final(self).wf(),
            final(self)@ == old(self)@.insert(addr, value),
    {
        broadcast use vstd::std_specs::hash::group_hash_axioms;

        match addr {
            UDPAddress::V4 { ip, port } => {
                let key: u64 = (ip as u64) * 0x1_0000 + port as u64;
                self.v4.insert(key, value);
                assert(self@ =~= old(self)@.insert(addr, value));
            },
            UDPAddress::V6 { ip, port } => {
                let mut ports: HashMap<u16, V> = match self.v6.remove(&ip) {
                    Some(ports) => ports,
                    None => HashMap::new(),
                };
                ports.insert(port, value);
                assert(ports@.dom().contains(port));
                self.v6.insert(ip, ports);
                assert(self@ =~= old(self)@.insert(addr, value));
            },
        }
    }

    /// Takes the entry for `addr` out and hands its value back, if there is one.
    pub fn remove(&mut self, addr: UDPAddress) -> (value: Option<V>)
        requires
            old(self).wf(),
        ensures
            final(self).wf(),
            final(self)@ == old(self)@.remove(addr),
            value == if old(self)@.contains_key(addr) {
                Some(old(self)@[addr])
            } else {
                None
            },
    {
        broadcast use vstd::std_specs::hash::group_hash_axioms;

        match addr {
            UDPAddress::V4 { ip, port } => {
                let key: u64 = (ip as u64) * 0x1_0000 + port as u64;
                let value = self.v4.remove(&key);
                assert(self@ =~= old(self)@.remove(addr));
                value
            },
            UDPAddress::V6 { ip, port } => match self.v6.remove(&ip) {
                Some(ports) => {
                    let mut ports = ports;
                    let value = ports.remove(&port);
                    if !ports.is_empty() {
                        self.v6.insert(ip, ports);
                    }
                    assert(self@ =~= old(self)@.remove(addr));
                    value
                },
                None => {
                    assert(self@ =~= old(self)@.remove(addr));
                    None
                },
            },
        }
    }
}

/// The address that a socket is bound to and the id of its owner.
#[derive(Clone, Copy, Debug, PartialEq, Eq, Structural)]
pub struct SocketInfo {
    pub addr: UDPAddress,
    pub guid: i64,
}

/// The tables of a listener. `connections` has the handle of the connection
/// with each peer; `blocked` the second, counted from the Unix epoch, at which
/// the block of a peer ends; `packets_per_sec` the start in milliseconds of the
/// second that is being counted for a peer and the number of its datagrams in
/// that second; `invalid_packets` the number of malformed datagrams of a peer.
pub struct Mappings {
    pub connections: AddressMap<u64>,
    pub blocked: AddressMap<u64>,
    pub packets_per_sec: AddressMap<(u64, u8)>,
    pub invalid_packets: AddressMap<u8>,
}

/// The tables of a listener as maps.
#[verifier::ext_equal]
pub ghost struct Tables {
    pub connections: Map<UDPAddress, u64>,
    pub blocked: Map<UDPAddress, u64>,
    pub packets_per_sec: Map<UDPAddress, (u64, u8)>,
    pub invalid_packets: Map<UDPAddress, u8>,
}

impl Tables {
    /// Tables without entries.
    pub open spec fn empty() -> Tables {
        Tables {
            connections: Map::empty(),
            blocked: Map::empty(),
            packets_per_sec: Map::empty(),
            invalid_packets: Map::empty(),
        }
    }

    /// The peer is blocked at `now`: its block ends at a later second.
    pub open spec fn is_blocked(self, addr: UDPAddress, now: u64) -> bool {
        self.blocked.contains_key(addr) && self.blocked[addr] > seconds(now)
    }

    /// The tables after the block of the peer has been looked up at `now`: a
    /// block that has ended is forgotten.
    pub open spec fn expire(self, addr: UDPAddress, now: u64) -> Tables {
        if self.is_blocked(addr, now) {
            self
        } else {
            Tables { blocked: self.blocked.remove(addr), ..self }
        }
    }

    /// The tables after the peer has been blocked at `now`, for
    /// `RAKNET_BLOCK_DUR` seconds.
    pub open spec fn block(self, addr: UDPAddress, now: u64) -> Tables {
        Tables {
            blocked: self.blocked.insert(addr, (seconds(now) + RAKNET_BLOCK_DUR) as u64),
            ..self
        }
    }

    /// The second that is being counted for the peer: the one on record, or
    /// one that starts at `now` with no datagram in it.
    pub open spec fn counted(self, addr: UDPAddress, now: u64) -> (u64, u8) {
        if self.packets_per_sec.contains_key(addr) {
            self.packets_per_sec[addr]
        } else {
            (now, 0u8)
        }
    }

    /// A datagram of the peer at `now` is one too many: it is the
    /// `MAX_MSGS_PER_SEC`th within one second.
    pub open spec fn spams(self, addr: UDPAddress, now: u64) -> bool {
        elapsed(self.counted(addr, now).0, now) < 1000 && self.counted(addr, now).1 + 1
            == MAX_MSGS_PER_SEC
    }

    /// The tables after a datagram of the peer has been counted at `now`.
    /// Within the second that is being counted the count goes up, and the
    /// peer is blocked and its count forgotten where that is one too many.
    /// After that second a new one starts with no datagram in it.
    pub open spec fn check_packet_spam(self, addr: UDPAddress, now: u64) -> Tables {
        let (instant, packets) = self.counted(addr, now);
        if self.spams(addr, now) {
            Tables { packets_per_sec: self.packets_per_sec.remove(addr), ..self.block(addr, now) }
        } else if elapsed(instant, now) < 1000 {
            Tables {
                packets_per_sec: self.packets_per_sec.insert(addr, (instant, (packets + 1) as u8)),
                ..self
            }
        } else {
            Tables { packets_per_sec: self.packets_per_sec.insert(addr, (now, 0u8)), ..self }
        }
    }

    /// The number of malformed datagrams of the peer on record.
    pub open spec fn invalid_count(self, addr: UDPAddress) -> u8 {
        if self.invalid_packets.contains_key(addr) {
            self.invalid_packets[addr]
        } else {
            0
        }
    }

    /// One more malformed datagram of the peer is one too many: it is the
    /// `MAX_INVALID_MSGS`th.
    pub open spec fn offends(self, addr: UDPAddress) -> bool {
        self.invalid_count(addr) + 1 == MAX_INVALID_MSGS
    }

    /// The tables after a malformed datagram of the peer has been counted at
    /// `now`: the count goes up, and the peer is blocked and its count
    /// forgotten where that is one too many.
    pub open spec fn check_invalid_packets(self, addr: UDPAddress, now: u64) -> Tables {
        if self.offends(addr) {
            Tables { invalid_packets: self.invalid_packets.remove(addr), ..self.block(addr, now) }
        } else {
            Tables {
                invalid_packets: self.invalid_packets.insert(
                    addr,
                    (self.invalid_count(addr) + 1) as u8,
                ),
                ..self
            }
        }
    }
}

impl View for Mappings {
    type V = Tables;

    open spec fn view(&self) -> Tables {
        Tables {
            connections: self.connections@,
            blocked: self.blocked@,
            packets_per_sec: self.packets_per_sec@,
            invalid_packets: self.invalid_packets@,
        }
    }
}

impl Mappings {
    /// The invariant of the tables: no address occurs twice in any of them,
    /// and every count on record is below the number at which a peer is
    /// blocked.
    pub open spec fn wf(&self) -> bool {
        &&& self.connections.wf()
        &&& self.blocked.wf()
        &&& self.packets_per_sec.wf()
        &&& self.invalid_packets.wf()
        &&& forall|a: UDPAddress| #[trigger]
            self.packets_per_sec@.contains_key(a) ==> self.packets_per_sec@[a].1
                < MAX_MSGS_PER_SEC
        &&& forall|a: UDPAddress| #[trigger]
            self.invalid_packets@.contains_key(a) ==> self.invalid_packets@[a] < MAX_INVALID_MSGS
    }

    /// Tables without entries.
    pub fn new() -> (m: Mappings)
        ensures
            m.wf(),
            m@ == Tables::empty(),
    {
        Mappings {
            connections: AddressMap::new(),
            blocked: AddressMap::new(),
            packets_per_sec: AddressMap::new(),
            invalid_packets: AddressMap::new(),
        }
    }

    /// Whether the peer is blocked at `now`. A block that has ended is
    /// forgotten.
    pub fn is_blocked(&mut self, addr: UDPAddress, now: u64) -> (blocked: bool)
        requires
            old(self).wf(),
        ensures
            final(self).wf(),
            blocked == old(self)@.is_blocked(addr, now),
            final(self)@ == old(self)@.expire(addr, now),
    {
        match self.blocked.get(addr) {
            Some(expiry) => {
                if expiry > timestamp(now) {
                    return true;
                }
                self.blocked.remove(addr);
            },
            None => {
                assert(self.blocked@.remove(addr) =~= self.blocked@);
            },
        }
        false
    }

    /// Blocks the peer at `now` for `RAKNET_BLOCK_DUR` seconds and tells the
    /// host why.
    pub fn block(
        &mut self,
        addr: UDPAddress,
        ev: &mut Vec<RakNetEvent>,
        reason: BlockReason,
        now: u64,
    )
        requires
            old(self).wf(),
        ensures
            final(self).wf(),
            final(self)@ == old(self)@.block(addr, now),
            events_view(final(ev)@) == events_view(old(ev)@).push(
                RakNetEventView::Blocked(addr, RAKNET_BLOCK_DUR, reason),
            ),
    {
        self.blocked.insert(addr, timestamp(now) + RAKNET_BLOCK_DUR);
        emit(ev, RakNetEvent::Blocked(addr, RAKNET_BLOCK_DUR, reason));
    }

    /// Counts a datagram of the peer at `now` and says whether it is one too
    /// many; if so the peer is blocked for spamming.
    pub fn check_packet_spam(&mut self, addr: UDPAddress, ev: &mut Vec<RakNetEvent>, now: u64) -> (spam:
        bool)
        requires
            old(self).wf(),
        ensures
            final(self).wf(),
            spam == old(self)@.spams(addr, now),
            final(self)@ == old(self)@.check_packet_spam(addr, now),
            events_view(final(ev)@) == if spam {
                events_view(old(ev)@).push(
                    RakNetEventView::Blocked(addr, RAKNET_BLOCK_DUR, BlockReason::PacketSpam),
                )
            } else {
                events_view(old(ev)@)
            },
    {
        let (instant, packets) = match self.packets_per_sec.remove(addr) {
            Some(entry) => entry,
            None => (now, 0),
        };
        let passed: u64 = if now >= instant {
            now - instant
        } else {
            0
        };
        if passed < 1000 {
            if packets + 1 == MAX_MSGS_PER_SEC {
                self.block(addr, ev, BlockReason::PacketSpam, now);
                return true;
            }
            self.packets_per_sec.insert(addr, (instant, packets + 1));
            assert(self.packets_per_sec@ =~= old(self).packets_per_sec@.insert(
                addr,
                (instant, (packets + 1) as u8),
            ));
        } else {
            self.packets_per_sec.insert(addr, (now, 0));
            assert(self.packets_per_sec@ =~= old(self).packets_per_sec@.insert(addr, (now, 0u8)));
        }
        false
    }

    /// Counts a malformed datagram of the peer; the peer is blocked where it
    /// is one too many.
    pub fn check_invalid_packets(&mut self, addr: UDPAddress, ev: &mut Vec<RakNetEvent>, now: u64)
        requires
            old(self).wf(),
        ensures
            final(self).wf(),
            final(self)@ == old(self)@.check_invalid_packets(addr, now),
            events_view(final(ev)@) == if old(self)@.offends(addr) {
                events_view(old(ev)@).push(
                    RakNetEventView::Blocked(addr, RAKNET_BLOCK_DUR, BlockReason::MalformedPackets),
                )
            } else {
                events_view(old(ev)@)
            },
    {
        let count: u8 = match self.invalid_packets.get(addr) {
            Some(count) => count,
            None => 0,
        } + 1;
        if count == MAX_INVALID_MSGS {
            self.invalid_packets.remove(addr);
            self.block(addr, ev, BlockReason::MalformedPackets, now);
            return ;
        }
        self.invalid_packets.insert(addr, count);
    }
}

} // verus!
