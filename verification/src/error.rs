use vstd::prelude::*;

verus! {

/// The failures this library reports. Each is returned to the immediate
/// caller; nothing here is fatal or retried.
#[derive(Clone, Copy, Debug, PartialEq, Eq, Structural)]
pub enum Error {
    /// Pattern text whose header is missing or unparseable, whose body holds
    /// a run count with no following tag, or whose body ends without the
    /// terminating tag.
    MalformedPattern,
    /// A board or engine extent that is zero, a margin that cannot be split
    /// evenly, a board too small to host the padding ring, or an extent too
    /// large for the address space.
    InvalidDimensions,
    /// An accessor called with a coordinate outside the board.
    OutOfBounds,
}

} // verus!
