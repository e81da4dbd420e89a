//! The error taxonomy shared by every engine and by the wire protocol.

use vstd::prelude::*;

verus! {

/// Everything that can go wrong inside an engine.
///
/// `IoError` is raised only by embedding code that talks to the file system
/// or the network on the engine's behalf; the verified core never constructs
/// it. `KeyNotExit` is the failure of removing a key that is not mapped.
/// `CodecError` marks a malformed record frame (or one too large to frame),
/// `Utf8Error` a string field whose bytes are not valid UTF-8.
#[derive(Debug)]
pub enum KvError {
    IoError(String),
    KeyNotExit,
    CodecError,
    Utf8Error,
}

impl KvError {
    /// A human-readable description, used by front ends when reporting
    /// a failed request.
    pub fn msg(&self) -> (r: String)
        ensures
            match self {
                KvError::IoError(m) => r@ == m@,
                KvError::KeyNotExit => r@ == "Key not found"@,
                KvError::CodecError => r@ == "malformed record"@,
                KvError::Utf8Error => r@ == "invalid UTF-8"@,
            },
    {
        match self {
            KvError::IoError(m) => m.clone(),
            KvError::KeyNotExit => "Key not found".to_owned(),
            KvError::CodecError => "malformed record".to_owned(),
            KvError::Utf8Error => "invalid UTF-8".to_owned(),
        }
    }
}

} // verus!
