//! Classic single-decree Paxos: stale messages are rejected silently, and a
//! stuck proposer recovers through its timeout alone.

use vstd::prelude::*;

use crate::{Epoch, Value};

pub use acceptor::Acceptor;
pub use proposer::Proposer;

mod acceptor;
mod proposer;

verus! {

/// The wire schema of the classic variant: no negative acknowledgements.
#[derive(Debug)]
pub enum Body {
    /// Request by an end-user.
    Request(Value),
    /// Response by a proposer to an end-user.
    Response(Value),
    Prepare(Epoch),
    /// Promised epoch, accepted epoch, accepted value.
    Promise(Epoch, Option<(Epoch, Value)>),
    Propose(Epoch, Value),
    Accept(Epoch),
}

impl Body {
    /// The carried value when this is a client request.
    pub fn is_request(&self) -> (r: Option<Value>)
        ensures
            match self {
                Body::Request(v) => r matches Some(rv) && rv@ == v@,
                _ => r is None,
            },
    {
        if let Body::Request(v) = self {
            return Some(v.dup());
        }
        None
    }

    /// The carried value when this is a response to a client.
    pub fn is_response(&self) -> (r: Option<Value>)
        ensures
            match self {
                Body::Response(v) => r matches Some(rv) && rv@ == v@,
                _ => r is None,
            },
    {
        if let Body::Response(v) = self {
            return Some(v.dup());
        }
        None
    }
}

} // verus!
