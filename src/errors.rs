//! Errors reported while decoding a tuple.
use vstd::prelude::*;

verus! {

/// Why a byte sequence could not be decoded. Positions are offsets into the
/// tuple (or nested tuple) whose tag could not be read.
#[derive(Debug, PartialEq, Eq, Clone, Copy)]
pub enum TupleError {
    /// A tag byte outside the known set.
    DecodeError { position: usize, type_code: u8 },
    /// A nested tuple that does not end with its terminator.
    TruncatedNestedTuple,
    /// Input left over after the tuple, or a byte string without terminator.
    TruncatedTuple,
    /// A string payload that is not valid UTF-8.
    StringDecodeError,
    /// An integer tag with fewer payload bytes than it declares.
    IntegerDecodeError { position: usize },
    /// A float or double tag with fewer than 4 or 8 payload bytes.
    DecimalDecodeError { position: usize },
    /// A UUID tag with fewer than 16 payload bytes.
    UuidDecodeError { position: usize },
}

} // verus!
