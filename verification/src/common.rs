//! The request and response values exchanged between client and server.
//!
//! On the wire both are framed as a 32-bit little-endian length followed by
//! that many bytes of JSON; the JSON conversion itself lives with the
//! networking code, which hands the plain values defined here to the engine.

use vstd::prelude::*;

verus! {

/// The three operations a client can request.
#[derive(Debug, Clone, Copy, PartialEq, Eq, Structural)]
pub enum Action {
    GET,
    SET,
    RM,
}

/// One request: an action applied to `key` (and, for `SET`, `value`).
///
/// `GET` and `RM` carry an empty `value`.
#[derive(Debug)]
pub struct Command {
    pub action: Action,
    pub key: String,
    pub value: String,
}

/// One reply: `Okay` with the optional value a `GET` produced, or `Error`
/// with a message describing the failure.
///
/// On the wire the two variants appear under the names `Ok` and `Err`.
#[derive(Debug)]
pub enum Response {
    Okay(Option<String>),
    Error(String),
}

impl Command {
    /// Builds the request for `a` on `k` (with payload `v` for `SET`).
    pub fn new(a: Action, k: String, v: String) -> (r: Command)
        ensures
            r.action == a,
            r.key == k,
            r.value == v,
    {
        Command { action: a, key: k, value: v }
    }
}

} // verus!
