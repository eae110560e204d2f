//! Errors of the packet codecs.

use vstd::prelude::*;

verus! {

/// Errors of the byte cursors that read and write packets.
#[derive(Clone, Copy, Debug, PartialEq, Eq, Structural)]
pub enum CursorError {
    /// The data expected at this place was not found.
    Expect,
    /// Bytes remain where the packet should have ended.
    ExpectEmpty,
    /// The buffer ended before the value was complete.
    UnexpectedEnd,
    /// The bytes are not valid UTF-8.
    InvalidString,
}

/// Errors of the packet codecs.
#[derive(Clone, Copy, Debug, PartialEq, Eq, Structural)]
pub enum Error {
    /// The packet is malformed.
    InvalidPacket,
    /// A cursor error.
    Cursor(CursorError),
    /// The region byte names no region.
    InvalidRegion,
    /// The address of a client announce does not parse.
    InvalidClientAnnounceIp,
    /// The last-server address of a server query does not parse.
    InvalidQueryServersLast,
    /// The server speaks another protocol version.
    InvalidProtocolVersion,
}

/// The text of `CursorError::message`.
pub open spec fn cursor_error_text(e: CursorError) -> Seq<char> {
    match e {
        CursorError::Expect => "Expected data not found"@,
        CursorError::ExpectEmpty => "Unexpected data"@,
        CursorError::UnexpectedEnd => "Unexpected end of buffer"@,
        CursorError::InvalidString => "Invalid string"@,
    }
}

/// The text of `Error::message`.
pub open spec fn error_text(e: Error) -> Seq<char> {
    match e {
        Error::InvalidPacket => "Invalid packet"@,
        Error::Cursor(c) => cursor_error_text(c),
        Error::InvalidRegion => "Invalid region"@,
        Error::InvalidClientAnnounceIp => "Invalid client announce IP"@,
        Error::InvalidQueryServersLast => "Invalid last IP"@,
        Error::InvalidProtocolVersion => "Invalid protocol version"@,
    }
}

impl CursorError {
    /// A short description of the error.
    pub fn message(&self) -> (r: &'static str)
        ensures
            r@ == cursor_error_text(*self),
    {
        match self {
            CursorError::Expect => "Expected data not found",
            CursorError::ExpectEmpty => "Unexpected data",
            CursorError::UnexpectedEnd => "Unexpected end of buffer",
            CursorError::InvalidString => "Invalid string",
        }
    }
}

impl Error {
    /// A short description of the error.
    pub fn message(&self) -> (r: &'static str)
        ensures
            r@ == error_text(*self),
    {
        match self {
            Error::InvalidPacket => "Invalid packet",
            Error::Cursor(e) => e.message(),
            Error::InvalidRegion => "Invalid region",
            Error::InvalidClientAnnounceIp => "Invalid client announce IP",
            Error::InvalidQueryServersLast => "Invalid last IP",
            Error::InvalidProtocolVersion => "Invalid protocol version",
        }
    }
}

/// The view of a decoding result.
pub open spec fn result_view<T: View>(r: Result<T, Error>) -> Result<T::V, Error> {
    match r {
        Ok(v) => Ok(v@),
        Err(e) => Err(e),
    }
}

/// The view of a decoding result that may name no packet.
pub open spec fn option_result_view<T: View>(r: Result<Option<T>, Error>) -> Result<
    Option<T::V>,
    Error,
> {
    match r {
        Ok(Some(v)) => Ok(Some(v@)),
        Ok(None) => Ok(None),
        Err(e) => Err(e),
    }
}

/// The error of a buffer that ended too early.
pub open spec fn end_error() -> Error {
    Error::Cursor(CursorError::UnexpectedEnd)
}

} // verus!
