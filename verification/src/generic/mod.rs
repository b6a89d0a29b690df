//! Building blocks that do not depend on the wire format.

use vstd::prelude::*;

pub mod events;
pub mod window;

verus! {

/// The whole seconds of `now`, an instant in milliseconds since the Unix
/// epoch.
pub open spec fn seconds(now: u64) -> u64 {
    now / 1000
}

/// The seconds since the Unix epoch at the instant `now`, which is given in
/// milliseconds since then. Timestamps in messages and the ends of blocks
/// are counted in these seconds.
pub fn timestamp(now: u64) -> (t: u64)
    ensures
        t == seconds(now),
{
    now / 1000
}

} // verus!
