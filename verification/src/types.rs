//! Wire shapes between client and servers: a request and a response are
//! each a pair of opaque byte blobs, one per server.

use vstd::prelude::*;

verus! {

/// A private read request: one blob for each server.
#[derive(Debug, Clone)]
pub struct Request {
    pub request1: Vec<u8>,
    pub request2: Vec<u8>,
}

/// The two servers' answers to one request.
#[derive(Debug, Clone)]
pub struct Response {
    pub response1: Vec<u8>,
    pub response2: Vec<u8>,
}

} // verus!
