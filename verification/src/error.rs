use vstd::prelude::*;

verus! {

/// Failure kinds surfaced by every fallible operation of the library.
#[derive(Debug, Clone, Copy, PartialEq, Eq, Structural)]
pub enum SFSError {
    /// Malformed input: a path not starting with `/`, a missing
    /// intermediate path component, or a name holding a reserved byte.
    InvalidArgument,
    /// The path refers to an absent entity and the mode disallows creation.
    DoesNotExist,
    /// A metadata block failed to parse: bad magic or malformed content.
    InvalidBlock,
    /// The inode table or the data region is exhausted.
    OutOfSpace,
    /// The requested operation is not provided by this core.
    Unimplemented,
}

} // verus!
