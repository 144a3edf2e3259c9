//! The messages that the dispatcher, the test runners and the repository
//! observer exchange, and what a sender makes of the answer it gets.

use vstd::prelude::*;
use crate::addr::SocketAddrV4;

verus! {

/// A request sent to the dispatcher or to a test runner.
#[derive(Debug)]
pub enum Request {
    /// Is the receiver up (and, for a test runner, free)?
    Status,
    /// A new commit was seen.
    Update(String),
    /// A test runner announces the address it listens on.
    Register(SocketAddrV4),
    /// Test this commit.
    Dispatch(String),
    /// What the tests of a commit printed: the commit, then the output. A
    /// runner sends it to the dispatcher, which keeps it in a file of its own.
    Results(String, String),
}

/// The answer to a [`Request`]. On the wire the first variant is written `Ok`.
#[derive(Debug)]
pub enum Response {
    Okay,
    Error(String),
}

/// Where the dispatcher listens.
#[derive(Clone, Copy, Debug)]
pub struct DispatcherConfig {
    pub socket: SocketAddrV4,
}

/// What became of one request sent to a peer.
#[derive(Debug)]
pub enum Exchange {
    /// No connection could be made.
    Unreachable,
    /// The request went out but no answer could be read back.
    Unreadable,
    /// The peer answered.
    Answered(Response),
}

/// What a sender makes of an exchange: any answer that could be read counts
/// as `Ok`, whatever it said; without one there is nothing to go on and the
/// sending program stops (`None`).
pub fn exchange_result(exchange: Exchange) -> (r: Option<Response>)
    ensures
        r is Some <==> exchange is Answered,
        r matches Some(answer) ==> answer is Okay,
{
    match exchange {
        Exchange::Answered(_) => Some(Response::Okay),
        _ => None,
    }
}

} // verus!
