use vstd::prelude::*;

verus! {

/// Why a datagram could not be decoded.
#[derive(Debug, Clone, Copy, PartialEq, Eq, Structural)]
pub enum DecodeError {
    /// Fewer bytes are left than a fixed-width field needs.
    Truncated,
    /// A label length octet is in the reserved range 64..=191, or the label
    /// would run past the end of the buffer.
    InvalidLabelLength,
    /// A compression pointer names an offset at or past the end of the buffer.
    PointerOutOfBounds,
    /// A name follows more compression pointers than the jump budget allows.
    PointerLoopExceeded,
    /// The encoded name would take more than 255 bytes.
    NameTooLong,
}

} // verus!
