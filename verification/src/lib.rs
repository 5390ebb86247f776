//! A minimal in-process publish/subscribe broker: producers publish a message
//! to a named topic in one shot, and consumers hold a streaming connection on
//! which they receive every message published to the topic they subscribed
//! to. The registry of subscriptions and per-subscriber mailboxes lives in
//! [`registry`], the per-connection lifecycle in [`session`]; the transport
//! and request routing around them are external collaborators.

use vstd::prelude::*;

pub mod codec;
pub mod registry;
pub mod session;

verus! {

/// The body of the publish endpoint's reply.
pub struct Response {
    pub message: String,
}

impl Response {
    pub fn new(message: String) -> (r: Self)
        ensures
            r.message@ == message@,
    {
        Response { message }
    }
}

} // verus!
