//! Descriptor flags of the event loop.
use vstd::prelude::*;

verus! {

/// The file status flag that makes reads and writes on a descriptor return
/// at once instead of waiting.
pub const O_NONBLOCK: i32 = 0x0000_0004;

/// The status flags of a descriptor with non-blocking mode switched on,
/// every other flag kept.
pub fn nonblocking_flags(flags: i32) -> (r: i32)
    ensures
        r == flags | O_NONBLOCK,
{
    flags | O_NONBLOCK
}

} // verus!
