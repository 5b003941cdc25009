use vstd::prelude::*;

verus! {

/// Errors returned by [`crate::encode_slice`] and [`crate::decode_slice`].
///
/// "Not enough bytes yet" is never an error: the decoder reports it as
/// `Ok(None)` so that a caller reading from a stream can simply retry with
/// more bytes.
#[derive(Debug, Clone, PartialEq, Eq)]
pub enum Error {
    /// Not enough space in the write buffer.
    ///
    /// It is the caller's responsibility to pass a big enough buffer to
    /// the encoder.
    WriteZero,
    /// Tried to decode or construct a packet identifier of zero.
    InvalidPid,
    /// Tried to decode a QoS bit pattern other than 0, 1 or 2.
    InvalidQos(u8),
    /// Tried to decode a connect return code above 5.
    InvalidConnectReturnCode(u8),
    /// Tried to decode an unknown protocol name / level pair.
    InvalidProtocol(String, u8),
    /// An invalid fixed header: illegal packet type, illegal flag bits for
    /// that type, or a remaining-length encoding that does not terminate
    /// within four bytes.
    InvalidHeader,
    /// A length field disagrees with the bytes that are present: an inner
    /// field overruns the declared remaining length, or a body does not
    /// consume exactly the declared remaining length.
    InvalidLength,
    /// String bytes that are not valid UTF-8.
    InvalidString,
}

/// The mathematical value of an [`Error`]: the rejected protocol name is
/// abstracted to its character sequence.
pub enum ErrorView {
    WriteZero,
    InvalidPid,
    InvalidQos(u8),
    InvalidConnectReturnCode(u8),
    InvalidProtocol(Seq<char>, u8),
    InvalidHeader,
    InvalidLength,
    InvalidString,
}

impl View for Error {
    type V = ErrorView;

    open spec fn view(&self) -> ErrorView {
        match self {
            Error::WriteZero => ErrorView::WriteZero,
            Error::InvalidPid => ErrorView::InvalidPid,
            Error::InvalidQos(n) => ErrorView::InvalidQos(*n),
            Error::InvalidConnectReturnCode(n) => ErrorView::InvalidConnectReturnCode(*n),
            Error::InvalidProtocol(name, level) => ErrorView::InvalidProtocol(name@, *level),
            Error::InvalidHeader => ErrorView::InvalidHeader,
            Error::InvalidLength => ErrorView::InvalidLength,
            Error::InvalidString => ErrorView::InvalidString,
        }
    }
}

/// The value of a `Result` whose error is an [`Error`], with the payload
/// left as it is.
pub open spec fn res_view<T>(r: Result<T, Error>) -> Result<T, ErrorView> {
    match r {
        Ok(t) => Ok(t),
        Err(e) => Err(e@),
    }
}

/// The value of a `Result` whose error is an [`Error`], with the payload
/// abstracted to its view.
pub open spec fn res_dview<T: View>(r: Result<T, Error>) -> Result<T::V, ErrorView> {
    match r {
        Ok(t) => Ok(t@),
        Err(e) => Err(e@),
    }
}

} // verus!
