//! The client half of the wire protocol.
//!
//! `KvsClient` itself is stateless: it only pairs a [`crate::common::Command`]
//! with an address. Opening the TCP connection, sending the framed request
//! and reading the framed response are I/O and live with the embedding
//! program, which uses the framing helpers of [`crate::server`].

use vstd::prelude::*;

verus! {

/// A handle for issuing one request per connection to a `kvs` server.
pub struct KvsClient {}

impl KvsClient {
    /// Creates a client.
    pub fn new() -> KvsClient {
        KvsClient {}
    }
}

} // verus!
