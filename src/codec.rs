//! What decoding a frame can come to, shared by every message type.
use vstd::prelude::*;

verus! {

/// Why a frame cannot be read. Each of these is fatal to the connection:
/// after it the stream cannot be resynchronised.
#[derive(PartialEq, Eq, Structural, Debug, Clone, Copy)]
pub enum CodecError {
    /// The type tag is not the one of the message asked for.
    UnexpectedTag,
    /// The length field cannot belong to a message of this type.
    InvalidLength,
    /// The authentication sub-code is not one this engine knows.
    UnknownAuthentication,
    /// The body does not have the layout of the message.
    MalformedBody,
}

/// The outcome of decoding from a slice, `r`, is the one given by the
/// model `s`: the same message (by view) and the same count of bytes read,
/// "not enough data yet", or the same error.
pub open spec fn decoded_as<T: View>(
    r: Result<Option<(T, usize)>, CodecError>,
    s: Result<Option<(T::V, int)>, CodecError>,
) -> bool {
    match r {
        Ok(Some((m, n))) => s == Ok::<Option<(T::V, int)>, CodecError>(Some((m@, n as int))),
        Ok(None) => s == Ok::<Option<(T::V, int)>, CodecError>(None),
        Err(e) => s == Err::<Option<(T::V, int)>, CodecError>(e),
    }
}

/// The outcome of decoding from a buffer that held `before` and holds
/// `after` is the one given by the model `s`: a complete message leaves the
/// buffer past exactly the bytes it took; anything else leaves it as it was.
pub open spec fn buffer_decoded_as<T: View>(
    r: Result<Option<T>, CodecError>,
    s: Result<Option<(T::V, int)>, CodecError>,
    before: Seq<u8>,
    after: Seq<u8>,
) -> bool {
    match s {
        Ok(Some((m, n))) => r matches Ok(Some(x)) && x@ == m && after == before.skip(n),
        Ok(None) => r matches Ok(None) && after == before,
        Err(e) => r == Err::<Option<T>, CodecError>(e) && after == before,
    }
}

} // verus!
