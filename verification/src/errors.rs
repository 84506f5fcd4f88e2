//! Error taxonomy: decode failures, unsupported wire content, and
//! resolution failures, kept apart so callers can map each to the
//! right client-visible response.

use vstd::prelude::*;

verus! {

/// Why a wire message failed to decode.
#[derive(Clone, Copy, Debug, PartialEq, Eq, Structural)]
pub enum ParseError {
    /// The buffer ended before the field being read.
    UnexpectedEnd,
    /// A label length byte was in the invalid range 64..=191.
    LabelTooLong,
    /// A compression pointer targeted an offset at or past the cursor.
    ForwardPointer,
    /// The opcode field held a value outside the supported set.
    InvalidOpcode,
    /// The rcode field held a value outside the supported set.
    InvalidRcode,
    /// A record's rdata did not occupy exactly its declared rdlength.
    LengthMismatch,
    /// A record type outside the supported set.
    UnsupportedType,
}

/// Why an iterative resolution gave up.
#[derive(Clone, Copy, Debug, PartialEq, Eq, Structural)]
pub enum ResolutionError {
    /// The global iteration budget was exhausted.
    IterationCapExceeded,
    /// A delegation step produced no candidate servers.
    EmptyCandidateSet,
    /// Too many nested glue-less resolutions were required.
    NestingTooDeep,
    /// A nested resolution for a glue-less server yielded no address.
    NestedResolutionFailure,
    /// The transport reported repeated failures for the current query.
    TransportFailure,
}

} // verus!
