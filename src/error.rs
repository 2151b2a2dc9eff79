use vstd::prelude::*;

verus! {

/// Errors raised while decoding frames and commands.
#[derive(Debug)]
pub enum CacheError {
    /// A command's argument list ended before an expected argument.
    EndOfStream,
    /// The buffer does not yet hold a whole frame.
    Incomplete,
    /// Any other failure, with a message meant for the peer.
    Other(String),
}

impl CacheError {
    /// Builds an `Other` error carrying `msg`.
    pub fn other(msg: &str) -> (r: CacheError)
        ensures
            r matches CacheError::Other(m) && m@ == msg@,
    {
        CacheError::Other(msg.to_owned())
    }

    /// The text a peer sees for this error.
    pub fn message(&self) -> (r: String)
        ensures
            self matches CacheError::Other(m) ==> r@ == m@,
            self matches CacheError::EndOfStream ==> r@ == "unexpected end of stream"@,
            self matches CacheError::Incomplete ==> r@ == "stream ended early"@,
    {
        match self {
            CacheError::EndOfStream => "unexpected end of stream".to_owned(),
            CacheError::Incomplete => "stream ended early".to_owned(),
            CacheError::Other(m) => m.clone(),
        }
    }
}

} // verus!
