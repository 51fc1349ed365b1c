use vstd::prelude::*;

verus! {

/// The failure kinds of the decoder and the traversal engine.
///
/// Every failure is terminal: the engine performs no local recovery and no
/// retries, and a traversal that hits one of these conditions surfaces it to
/// the caller instead of silently truncating its output.
#[derive(Clone, Copy, Debug, PartialEq, Eq, Structural)]
pub enum DbError {
    /// The 16-byte signature at the start of the file header is wrong.
    FormatMismatch,
    /// A fixed-width or variable-width read would exceed the supplied buffer,
    /// or a page number lies outside the file image.
    BoundsViolation,
    /// A page's type-flag byte is not one of the four known values.
    UnsupportedPageType,
    /// A record uses serial type 10 or 11, which the format reserves.
    UnsupportedSerialType,
    /// The bytes of a text column are not valid UTF-8.
    InvalidTextEncoding,
    /// An ordering, equality, or integer-cast operation was attempted between
    /// incompatible column kinds, or a traversal met a page of the wrong kind.
    TypeMismatch,
    /// A cell's declared payload length exceeds what is available on its page,
    /// which would require the format's unsupported overflow-page mechanism.
    OverflowUnsupported,
    /// A traversal descended deeper than the page count of the file allows,
    /// which only a cyclic (corrupt) page structure can cause.
    DepthExceeded,
}

} // verus!
