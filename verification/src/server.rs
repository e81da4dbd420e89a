//! The server half of the wire protocol.
//!
//! A [`KvsServer`] pairs an engine with a listening address and executes
//! one decoded request at a time against it. Listening, reading the
//! length-prefixed request bytes and writing the response back are I/O and
//! live with the embedding program; the framing itself — a 32-bit
//! little-endian length followed by that many bytes — is built and checked
//! here.

use vstd::prelude::*;
use vstd::bytes::{
    lemma_auto_spec_u32_to_from_le_bytes, spec_u32_from_le_bytes, spec_u32_to_le_bytes,
    u32_from_le_bytes, u32_to_le_bytes,
};
use crate::codec::{encodable, EntryView, Tag};
use crate::common::{Action, Command, Response};
use crate::engine::KvsEngine;
use crate::error::KvError;

verus! {

/// A request/response server over one engine.
pub struct KvsServer<T: KvsEngine> {
    engine: T,
    address: String,
}

impl<T: KvsEngine> KvsServer<T> {
    /// The mapping the server's engine currently represents.
    pub closed spec fn engine_state(&self) -> Map<Seq<char>, Seq<char>> {
        self.engine.state()
    }

    /// The engine's well-formedness, preserved across requests.
    pub closed spec fn engine_inv(&self) -> bool {
        self.engine.inv()
    }

    /// The address the server was configured with.
    pub closed spec fn addr(&self) -> Seq<char> {
        self.address@
    }

    /// Pairs `engine_` with the listening address `address_`.
    pub fn new(address_: String, engine_: T) -> (r: KvsServer<T>)
        ensures
            r.engine_state() == engine_.state(),
            r.engine_inv() == engine_.inv(),
            r.addr() == address_@,
    {
        KvsServer { engine: engine_, address: address_ }
    }

    /// The configured listening address.
    pub fn address(&self) -> (r: &String)
        ensures
            r@ == self.addr(),
    {
        &self.address
    }

    /// The engine behind the server — what an embedding program reads
    /// when it brings the store directory in step after a request.
    pub fn engine_ref(&self) -> (r: &T)
        ensures
            r.state() == self.engine_state(),
            r.inv() == self.engine_inv(),
    {
        &self.engine
    }

    /// Executes one request against the engine and builds the reply: a
    /// `GET` answers the current mapping or `Key not found`; a `SET`
    /// stores the pair; a `RM` unmaps the key or reports `Key not found`
    /// without changing anything.
    pub fn exec(&mut self, command: Command) -> (res: Response)
        requires
            old(self).engine_inv(),
        ensures
            final(self).engine_inv(),
            command.action == Action::GET ==> final(self).engine_state() == old(
                self,
            ).engine_state() && (match res {
                Response::Okay(v) => v matches Some(s) && old(self).engine_state().contains_key(
                    command.key@,
                ) && s@ == old(self).engine_state()[command.key@],
                Response::Error(msg) => !old(self).engine_state().contains_key(command.key@)
                    && msg@ == "Key not found"@,
            }),
            command.action == Action::SET ==> (match res {
                Response::Okay(v) => v is None && encodable(
                    (EntryView { key: command.key@, value: command.value@, tag: Tag::Normal }),
                ) && final(self).engine_state() == old(self).engine_state().insert(
                    command.key@,
                    command.value@,
                ),
                Response::Error(msg) => !encodable(
                    (EntryView { key: command.key@, value: command.value@, tag: Tag::Normal }),
                ) && final(self).engine_state() == old(self).engine_state() && msg@
                    == "malformed record"@,
            }),
            command.action == Action::RM ==> (match res {
                Response::Okay(v) => v is None && old(self).engine_state().contains_key(
                    command.key@,
                ) && final(self).engine_state() == old(self).engine_state().remove(command.key@),
                Response::Error(msg) => final(self).engine_state() == old(self).engine_state()
                    && !old(self).engine_state().contains_key(command.key@) && msg@
                    == "Key not found"@,
            }),
    {
        match command.action {
            Action::GET => match self.engine.get(command.key) {
                Ok(Some(value)) => Response::Okay(Some(value)),
                Ok(None) => Response::Error("Key not found".to_owned()),
                Err(e) => {
                    proof {
                        assert(false);
                    }
                    Response::Error(e.msg())
                },
            },
            Action::SET => match self.engine.set(command.key, command.value) {
                Ok(()) => Response::Okay(None),
                Err(e) => Response::Error(e.msg()),
            },
            Action::RM => match self.engine.remove(command.key) {
                Ok(()) => Response::Okay(None),
                Err(e) => Response::Error(e.msg()),
            },
        }
    }
}

/// Frames one wire message: a 32-bit little-endian length, then the
/// message bytes. Fails exactly when the message is longer than the
/// prefix can state.
pub fn frame_message(payload: &Vec<u8>) -> (r: Result<Vec<u8>, KvError>)
    ensures
        r is Ok <==> payload@.len() <= u32::MAX,
        r matches Ok(v) ==> v@ == spec_u32_to_le_bytes(payload@.len() as u32) + payload@,
        r is Err ==> r == Err::<Vec<u8>, KvError>(KvError::CodecError),
{
    let len = payload.len();
    if len as u64 > u32::MAX as u64 {
        return Err(KvError::CodecError);
    }
    let mut out = u32_to_le_bytes(len as u32);
    out = crate::codec::push_bytes(out, payload.as_slice());
    Ok(out)
}

/// Reads the message length out of a 4-byte wire header.
pub fn read_header(header: &Vec<u8>) -> (r: Option<u32>)
    ensures
        match r {
            Some(n) => header@.len() == 4 && n == spec_u32_from_le_bytes(header@),
            None => header@.len() != 4,
        },
{
    if header.len() == 4 {
        Some(u32_from_le_bytes(header.as_slice()))
    } else {
        None
    }
}

/// Framing round-trip: a framed message opens with a header that states
/// the message's length, followed by the message itself, unchanged.
pub proof fn lemma_frame_roundtrip(payload: Seq<u8>)
    requires
        payload.len() <= u32::MAX,
    ensures
        ({
            let framed = spec_u32_to_le_bytes(payload.len() as u32) + payload;
            &&& framed.len() == 4 + payload.len()
            &&& spec_u32_from_le_bytes(framed.subrange(0, 4)) == payload.len() as u32
            &&& framed.subrange(4, framed.len() as int) == payload
        }),
{
    lemma_auto_spec_u32_to_from_le_bytes();
    let framed = spec_u32_to_le_bytes(payload.len() as u32) + payload;
    assert(framed.subrange(0, 4) =~= spec_u32_to_le_bytes(payload.len() as u32));
    assert(framed.subrange(4, framed.len() as int) =~= payload);
}

} // verus!
