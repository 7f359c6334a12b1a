//! Error kinds of the framing decoder and of the changeset store.

use vstd::prelude::*;

verus! {

/// What was wrong with a byte stream that could not be framed.
#[derive(Clone, Copy, Debug, PartialEq, Eq, Structural)]
pub enum DecodeFault {
    /// A part header is shorter than its own fields declare.
    TruncatedHeader,
    /// A part header holds bytes after its last parameter.
    TrailingHeaderBytes,
    /// A parameter value is longer than the decoder accepts.
    OversizeParamValue,
    /// A payload chunk declares a negative length other than the interrupt marker.
    BadChunkLength,
    /// The decoder was poisoned by an earlier framing error.
    StreamCorrupt,
}

/// What was wrong with a serialized changeset.
#[derive(Clone, Copy, Debug, PartialEq, Eq, Structural)]
pub enum RevlogFault {
    /// A line that the format requires is missing.
    MissingLine,
    /// The manifest line is not 40 lowercase hex digits.
    BadManifest,
    /// The time line does not hold two decimal integers.
    BadTime,
    /// An extras entry has no `:` or holds a bad escape.
    BadExtra,
    /// The envelope around the changeset is malformed.
    BadEnvelope,
}

#[derive(Clone, Copy, Debug, PartialEq, Eq, Structural)]
pub enum ErrorKind {
    /// The byte stream is corrupt; the decoder can no longer be used.
    Bundle2Decode(DecodeFault),
    /// A part whose type is unknown was marked mandatory.
    UnknownMandatoryPart,
    /// A part header repeats a parameter key within one group.
    DuplicateParamKey,
    /// A part type name is empty or holds a byte that is not an ASCII letter.
    InvalidPartType,
    /// The stream's compression parameter names no known compression.
    UnknownCompression,
    /// The node hash of a changeset could not be produced.
    NodeGenerationFailed,
    /// A stored changeset does not hash to the id it was stored under.
    HashMismatch,
    /// A serialized changeset could not be parsed.
    Revlog(RevlogFault),
    /// The blob store failed.
    BlobStoreIO,
}

impl ErrorKind {
    /// Application errors leave a stream decodable: the caller may skip the
    /// offending part and go on.
    pub open spec fn spec_is_app_error(&self) -> bool {
        self is UnknownMandatoryPart || self is DuplicateParamKey || self is InvalidPartType
    }

    #[verifier::when_used_as_spec(spec_is_app_error)]
    pub fn is_app_error(&self) -> (r: bool)
        ensures
            r == self.spec_is_app_error(),
    {
        match self {
            ErrorKind::UnknownMandatoryPart => true,
            ErrorKind::DuplicateParamKey => true,
            ErrorKind::InvalidPartType => true,
            _ => false,
        }
    }
}

} // verus!
