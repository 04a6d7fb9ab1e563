use vstd::prelude::*;

verus! {

/// Every way a single encode or decode call can fail. A failure is terminal
/// for that call; nothing is retried. A well-formed RESP error token read
/// while decoding a reply is *not* one of these: it is delivered as the `Err`
/// arm of the reply's own result value.
#[derive(Debug)]
pub enum Error {
    /// Generic encoding failure, with a free-form message.
    Ser(String),
    /// Generic decoding failure, with a free-form message.
    De(String),
    /// The shape has no RESP2 representation (for example a non-ASCII
    /// character).
    UnsupportedType,
    /// The input ended before a full token could be read.
    IO,
    /// An unsigned 64-bit value exceeds the signed 64-bit range.
    IntConversion,
    /// An integer line holds non-numeric content or overflows 64 bits.
    IntParsing,
    /// A command frame's outer tag is not an array, or the value encoded as
    /// a command is not enum-shaped.
    InvalidTypeForCommand,
    /// A tagged-variant shape was encoded or decoded in reply mode.
    InvalidTypeForReply,
    /// A sequence without a statically known length in reply mode.
    UnknownSize,
    /// A command array declares a count of zero or less.
    InvalidSizeForCommandArray,
}

} // verus!
