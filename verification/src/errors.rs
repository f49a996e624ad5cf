use vstd::prelude::*;

verus! {

/// Reasons the request parser can reject a byte stream.
#[derive(Clone, Copy, PartialEq, Eq, Structural, Debug)]
pub enum ParseError {
    /// The request line exceeds the configured maximum length.
    RequestLineTooLong,
    /// The request line is not `method SP target SP version`.
    MalformedRequestLine,
    /// The cumulative header bytes exceed the configured maximum.
    HeadersTooLarge,
    /// More header lines than the configured maximum count.
    TooManyHeaders,
    /// A header line without a name before the colon, or no colon at all.
    MalformedHeader,
    /// Conflicting or non-numeric `Content-Length` values.
    MalformedContentLength,
    /// A chunk-size line that is not a short run of hex digits.
    MalformedChunkSize,
    /// Chunk data not terminated by CRLF, or a bad trailer.
    MalformedChunk,
    /// Declared or accumulated body size exceeds the configured maximum.
    BodyTooLarge,
}

/// Connection-level error taxonomy for the whole engine.
#[derive(Clone, Copy, PartialEq, Eq, Structural, Debug)]
pub enum HttpError {
    /// Malformed request line, headers, or chunk framing.
    ProtocolError(ParseError),
    /// Header or body size over a configured maximum.
    LimitExceeded(ParseError),
    /// Transport failure; `true` means transient (retry later).
    TransportError(bool),
    /// The application callback failed.
    ApplicationFault,
    /// A file-wrapper range did not match the file's actual size.
    FileRangeError,
}

/// True for the parse errors that are limit violations rather than
/// malformed input.
pub open spec fn is_limit_error(e: ParseError) -> bool {
    e is RequestLineTooLong || e is HeadersTooLarge || e is TooManyHeaders
        || e is BodyTooLarge
}

/// Classifies a parse error into the connection-level taxonomy:
/// limit violations become `LimitExceeded`, the rest `ProtocolError`.
pub fn classify_parse_error(e: ParseError) -> (r: HttpError)
    ensures
        is_limit_error(e) ==> r == HttpError::LimitExceeded(e),
        !is_limit_error(e) ==> r == HttpError::ProtocolError(e),
{
    match e {
        ParseError::RequestLineTooLong => HttpError::LimitExceeded(e),
        ParseError::HeadersTooLarge => HttpError::LimitExceeded(e),
        ParseError::TooManyHeaders => HttpError::LimitExceeded(e),
        ParseError::BodyTooLarge => HttpError::LimitExceeded(e),
        _ => HttpError::ProtocolError(e),
    }
}

/// The status code of the error response sent for a rejected request.
/// Every parse error maps to a 4xx status.
pub open spec fn spec_status_for(e: ParseError) -> u16 {
    match e {
        ParseError::RequestLineTooLong => 414u16,
        ParseError::HeadersTooLarge => 431u16,
        ParseError::TooManyHeaders => 431u16,
        ParseError::BodyTooLarge => 413u16,
        _ => 400u16,
    }
}

/// Status code for the error response of a rejected request; always 4xx.
pub fn status_for(e: ParseError) -> (r: u16)
    ensures
        r == spec_status_for(e),
        400 <= r < 500,
{
    match e {
        ParseError::RequestLineTooLong => 414,
        ParseError::HeadersTooLarge => 431,
        ParseError::TooManyHeaders => 431,
        ParseError::BodyTooLarge => 413,
        _ => 400,
    }
}

} // verus!
