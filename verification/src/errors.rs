use vstd::prelude::*;

verus! {

/// The error kinds a connection can fail with.
///
/// `Protocol` covers an unknown tag byte, malformed HTTP, a non-CONNECT
/// method or a missing path; `Crypto` covers an RSA decryption or AES
/// padding failure; `Handshake` means the upstream hop did not answer
/// `OK`; `Config` means too few relays were available for the requested
/// hop count; `Directory` means a directory reply could not be decoded.
#[derive(Clone, Copy, Debug, PartialEq, Eq, Structural)]
pub enum Error {
    Protocol,
    Crypto,
    Handshake,
    Config,
    Directory,
}

impl Error {
    /// A short description, for logging by the callers.
    pub fn describe(&self) -> (r: &'static str)
    {
        match self {
            Error::Protocol => "protocol error",
            Error::Crypto => "crypto error",
            Error::Handshake => "handshake error",
            Error::Config => "config error",
            Error::Directory => "directory error",
        }
    }
}

} // verus!
