//! Classified errors of the query engine.

use vstd::prelude::*;

verus! {

/// The classified failure modes of one query exchange.
///
/// * `Timeout` — no conformant reply arrived within the retry budget.
/// * `Protocol` — a reply arrived but failed framing validation
///   (bad marker or unexpected command token); not retried.
/// * `Decode` — framing was valid but the payload violated the expected
///   line/field grammar; not retried.
/// * `Socket` — local resource acquisition or send failure; fatal.
#[derive(Clone, Copy, Debug, PartialEq, Eq, Structural)]
pub enum Error {
    Timeout,
    Protocol,
    Decode,
    Socket,
}

impl Error {
    /// A short human-readable description of the error.
    pub fn describe(&self) -> (r: &'static str)
        ensures
            r@ == match self {
                Error::Timeout => "no reply within the retry budget"@,
                Error::Protocol => "reply failed framing validation"@,
                Error::Decode => "reply payload violated the expected grammar"@,
                Error::Socket => "local socket failure"@,
            },
    {
        match self {
            Error::Timeout => "no reply within the retry budget",
            Error::Protocol => "reply failed framing validation",
            Error::Decode => "reply payload violated the expected grammar",
            Error::Socket => "local socket failure",
        }
    }
}

} // verus!
