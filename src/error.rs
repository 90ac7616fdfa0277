//! The failures shared by the encoder and the decoder.
use crate::io;
use vstd::prelude::*;
use vstd::string::StringExecFns;

verus! {

/// Why an encode or a decode stopped.
#[derive(Clone, Debug, PartialEq, Eq)]
pub enum Error {
    /// The input ran out.
    Eof,
    /// The byte transport failed; its description.
    Io(String),
    /// A length above the configured maximum, which is carried.
    ExceededMaxLen(usize),
    /// Nesting too deep when entering the named kind of container.
    ExceededContainerDepthLimit(&'static str),
    ExpectedBoolean,
    ExpectedMapKey,
    ExpectedMapValue,
    /// Map keys not in strictly increasing byte order.
    NonCanonicalMap,
    ExpectedOption,
    /// A failure reported by the layer that walks values.
    Custom(String),
    MissingLen,
    NotSupported(&'static str),
    /// Bytes left over after a complete value.
    RemainingInput,
    Utf8,
    NonCanonicalUleb128Encoding,
    IntegerOverflowDuringUleb128Decoding,
}

pub type Result<T> = core::result::Result<T, Error>;

/// What a transport failure becomes: running out of input is `Eof`, anything
/// else is `Io` with the failure's description.
pub open spec fn is_from_io(err: io::Error, e: Error) -> bool {
    if err.spec_kind() == io::ErrorKind::UnexpectedEof {
        e == Error::Eof
    } else {
        e matches Error::Io(m) && m@ == io::describe(err.spec_kind(), err.spec_message())
    }
}

impl Error {
    /// Translates a transport failure into this taxonomy.
    pub fn from_io(err: &io::Error) -> (r: Error)
        ensures
            is_from_io(*err, r),
    {
        if err.kind() == io::ErrorKind::UnexpectedEof {
            Error::Eof
        } else {
            Error::Io(err.to_string())
        }
    }

    /// A failure reported by the layer that walks values.
    pub fn custom(msg: &str) -> (r: Error)
        ensures
            r matches Error::Custom(m) && m@ == msg@,
    {
        Error::Custom(String::from_str(msg))
    }
}

} // verus!
