use vstd::prelude::*;

verus! {

/// Every way a resolution can fail, from the first request to the
/// final quality lookup.
#[derive(Debug, PartialEq)]
pub enum Error {
    /// The network request could not be sent or its response not read.
    TransportError,
    /// The token endpoint's body was not valid JSON.
    DeserializeError,
    /// The token response carried no string field `token`.
    MissingToken,
    /// The token response carried no string field `sig`.
    MissingSignature,
    /// An attribute line of the playlist was structurally malformed.
    InvalidPlaylist,
    /// The playlist yielded no variants at all.
    StreamOffline,
    /// No variant carries the requested label; the payload is the
    /// normalized label that was looked for.
    QualityUnavailable(String),
}

} // verus!
