//! The five reliability classes of a frame.

use vstd::prelude::*;

use super::binary::Error;

verus! {

/// The delivery guarantee that a frame asks for.
#[derive(Debug, Clone, Copy, PartialEq, Eq, Structural)]
pub enum Reliability {
    Unreliable,
    UnreliableSequenced,
    Reliable,
    ReliableOrdered,
    ReliableSequenced,
}

impl Reliability {
    /// The three-bit number of the class in a frame header.
    pub open spec fn id(self) -> u8 {
        match self {
            Reliability::Unreliable => 0,
            Reliability::UnreliableSequenced => 1,
            Reliability::Reliable => 2,
            Reliability::ReliableOrdered => 3,
            Reliability::ReliableSequenced => 4,
        }
    }

    /// The class with the number `value`, if there is one.
    pub open spec fn from_id(value: u8) -> Option<Reliability> {
        if value == 0 {
            Some(Reliability::Unreliable)
        } else if value == 1 {
            Some(Reliability::UnreliableSequenced)
        } else if value == 2 {
            Some(Reliability::Reliable)
        } else if value == 3 {
            Some(Reliability::ReliableOrdered)
        } else if value == 4 {
            Some(Reliability::ReliableSequenced)
        } else {
            None
        }
    }

    /// Frames of the class carry a message index: classes 2, 3 and 4.
    pub open spec fn is_reliable(self) -> bool {
        self.id() == 2 || self.id() == 3 || self.id() == 4
    }

    /// Frames of the class carry an order index and channel: classes 1, 3 and 4.
    pub open spec fn is_sequenced_or_ordered(self) -> bool {
        self.id() == 1 || self.id() == 3 || self.id() == 4
    }

    /// Frames of the class carry a sequence index: classes 1 and 4.
    pub open spec fn is_sequenced(self) -> bool {
        self.id() == 1 || self.id() == 4
    }

    /// Whether frames of the class carry a message index.
    pub fn reliable(&self) -> (b: bool)
        ensures
            b == self.is_reliable(),
    {
        match self {
            Reliability::Reliable => true,
            Reliability::ReliableOrdered => true,
            Reliability::ReliableSequenced => true,
            _ => false,
        }
    }

    /// Whether frames of the class carry an order index and channel.
    pub fn sequenced_or_ordered(&self) -> (b: bool)
        ensures
            b == self.is_sequenced_or_ordered(),
    {
        match self {
            Reliability::ReliableSequenced => true,
            Reliability::UnreliableSequenced => true,
            Reliability::ReliableOrdered => true,
            _ => false,
        }
    }

    /// Whether frames of the class carry a sequence index.
    pub fn sequenced(&self) -> (b: bool)
        ensures
            b == self.is_sequenced(),
    {
        match self {
            Reliability::ReliableSequenced => true,
            Reliability::UnreliableSequenced => true,
            _ => false,
        }
    }

    /// The three-bit number of the class.
    pub fn to_u8(&self) -> (v: u8)
        ensures
            v == self.id(),
            Reliability::from_id(v) == Some(*self),
    {
        match self {
            Reliability::Unreliable => 0,
            Reliability::UnreliableSequenced => 1,
            Reliability::Reliable => 2,
            Reliability::ReliableOrdered => 3,
            Reliability::ReliableSequenced => 4,
        }
    }

    /// The class with the number `value`; numbers above 4 name none.
    pub fn try_from(value: u8) -> (res: Result<Reliability, Error>)
        ensures
            match Reliability::from_id(value) {
                Some(r) => res == Ok::<Reliability, Error>(r) && r.id() == value,
                None => res == Err::<Reliability, Error>(Error::InvalidReliability) && value > 4,
            },
    {
        match value {
            0 => Ok(Reliability::Unreliable),
            1 => Ok(Reliability::UnreliableSequenced),
            2 => Ok(Reliability::Reliable),
            3 => Ok(Reliability::ReliableOrdered),
            4 => Ok(Reliability::ReliableSequenced),
            _ => Err(Error::InvalidReliability),
        }
    }
}

} // verus!
