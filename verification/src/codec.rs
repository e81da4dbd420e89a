//! The record codec: structured encoding of one log record, framed by a
//! 32-bit little-endian length prefix.
//!
//! A segment is a contiguous sequence of frames `len (u32 LE) || body[len]`.
//! The body of a record `(key, value, tag)` is itself self-describing:
//!
//! ```text
//! tag (1 byte) || key_len (u32 LE) || key bytes || value_len (u32 LE) || value bytes
//! ```
//!
//! where the key and value bytes are the UTF-8 encodings of the strings and
//! the tag byte is `0` for a live record, `1` for a tombstone. Encoding and
//! decoding are proved inverse to each other; decoding reads nothing outside
//! the frame it returns, which is what replay and compaction rely on.

use vstd::prelude::*;
use vstd::bytes::{
    lemma_auto_spec_u32_to_from_le_bytes, spec_u32_from_le_bytes, spec_u32_to_le_bytes,
    u32_from_le_bytes, u32_to_le_bytes,
};
use vstd::utf8::{
    decode_utf8, decode_utf8_encode_utf8, encode_scalar, encode_utf8, encode_utf8_decode_utf8,
    encode_utf8_valid_utf8, valid_utf8,
};
use vstd::string::StringSliceAdditionalSpecFns;
use crate::error::KvError;

verus! {

/// Marks a record as a live mapping (`Normal`) or as a tombstone (`Deleted`)
/// that erases the key.
#[derive(Debug, Clone, Copy, PartialEq, Eq, Structural)]
pub enum Tag {
    Normal,
    Deleted,
}

/// One log record. A tombstone carries an empty `value`, which is ignored
/// when the record is read back.
#[derive(Debug)]
pub struct Entry {
    pub key: String,
    pub value: String,
    pub tag: Tag,
}

/// The mathematical content of an [`Entry`]: its strings as character
/// sequences, together with the tag.
pub struct EntryView {
    pub key: Seq<char>,
    pub value: Seq<char>,
    pub tag: Tag,
}

impl View for Entry {
    type V = EntryView;

    open spec fn view(&self) -> EntryView {
        EntryView { key: self.key@, value: self.value@, tag: self.tag }
    }
}

impl Entry {
    /// Builds the record `(k, v, t)`.
    pub fn new(k: String, v: String, t: Tag) -> (r: Entry)
        ensures
            r.key == k,
            r.value == v,
            r.tag == t,
    {
        Entry { key: k, value: v, tag: t }
    }
}

/// The byte that encodes a tag.
pub open spec fn spec_tag_byte(t: Tag) -> u8 {
    match t {
        Tag::Normal => 0u8,
        Tag::Deleted => 1u8,
    }
}

/// The tag a byte decodes to, if any.
pub open spec fn spec_byte_tag(b: u8) -> Option<Tag> {
    if b == 0 {
        Some(Tag::Normal)
    } else if b == 1 {
        Some(Tag::Deleted)
    } else {
        None
    }
}

/// The serialized body of a record: tag byte, then the length-prefixed
/// UTF-8 bytes of the key and of the value.
pub open spec fn spec_payload(e: EntryView) -> Seq<u8> {
    seq![spec_tag_byte(e.tag)] + spec_u32_to_le_bytes(encode_utf8(e.key).len() as u32)
        + encode_utf8(e.key) + spec_u32_to_le_bytes(encode_utf8(e.value).len() as u32)
        + encode_utf8(e.value)
}

/// The length the body of `e` would have.
pub open spec fn spec_payload_len(e: EntryView) -> int {
    9 + encode_utf8(e.key).len() as int + encode_utf8(e.value).len() as int
}

/// Whether a record fits the frame format: its body length must be
/// expressible in the 32-bit length prefix.
pub open spec fn encodable(e: EntryView) -> bool {
    spec_payload_len(e) <= u32::MAX
}

/// The full frame of a record: length prefix, then body.
pub open spec fn spec_frame(e: EntryView) -> Seq<u8> {
    spec_u32_to_le_bytes(spec_payload(e).len() as u32) + spec_payload(e)
}

/// The length the frame of `e` would have.
pub open spec fn spec_frame_len(e: EntryView) -> int {
    4 + spec_payload_len(e)
}

/// Structural well-formedness of a record body: a known tag byte and
/// consistent length fields. Says nothing about the string bytes.
pub open spec fn payload_lengths_ok(p: Seq<u8>) -> bool {
    &&& p.len() >= 9
    &&& spec_byte_tag(p[0]) is Some
    &&& {
        let klen = spec_u32_from_le_bytes(p.subrange(1, 5)) as int;
        &&& 9 + klen <= p.len()
        &&& {
            let vlen = spec_u32_from_le_bytes(p.subrange(5 + klen, 9 + klen)) as int;
            9 + klen + vlen == p.len()
        }
    }
}

/// Decodes a record body, or fails on a malformed one.
pub open spec fn spec_decode_payload(p: Seq<u8>) -> Option<EntryView> {
    if !payload_lengths_ok(p) {
        None
    } else {
        let klen = spec_u32_from_le_bytes(p.subrange(1, 5)) as int;
        let kb = p.subrange(5, 5 + klen);
        let vb = p.subrange(9 + klen, p.len() as int);
        if valid_utf8(kb) && valid_utf8(vb) {
            Some(
                (EntryView {
                    key: decode_utf8(kb),
                    value: decode_utf8(vb),
                    tag: spec_byte_tag(p[0]).unwrap(),
                }),
            )
        } else {
            None
        }
    }
}

/// Whether the frame starting at `pos` has a well-formed length structure:
/// a complete prefix, a complete body, and consistent lengths inside the
/// body. When this holds but decoding still fails, the string bytes were
/// not valid UTF-8.
pub open spec fn frame_lengths_ok(log: Seq<u8>, pos: int) -> bool {
    &&& 0 <= pos
    &&& pos + 4 <= log.len()
    &&& {
        let n = spec_u32_from_le_bytes(log.subrange(pos, pos + 4)) as int;
        &&& pos + 4 + n <= log.len()
        &&& payload_lengths_ok(log.subrange(pos + 4, pos + 4 + n))
    }
}

/// Decodes the frame starting at byte `pos` of `log`: the record it holds
/// and the whole frame's length. Fails on a truncated or malformed frame.
pub open spec fn spec_decode_frame(log: Seq<u8>, pos: int) -> Option<(EntryView, int)> {
    if !(0 <= pos && pos + 4 <= log.len()) {
        None
    } else {
        let n = spec_u32_from_le_bytes(log.subrange(pos, pos + 4)) as int;
        if pos + 4 + n > log.len() {
            None
        } else {
            match spec_decode_payload(log.subrange(pos + 4, pos + 4 + n)) {
                Some(e) => Some((e, 4 + n)),
                None => None,
            }
        }
    }
}

/// Encoding a record and decoding the result gives the record back.
pub proof fn lemma_payload_roundtrip(e: EntryView)
    requires
        encodable(e),
    ensures
        spec_payload(e).len() == spec_payload_len(e),
        spec_decode_payload(spec_payload(e)) == Some(e),
{
    lemma_auto_spec_u32_to_from_le_bytes();
    broadcast use encode_utf8_valid_utf8, encode_utf8_decode_utf8;

    let p = spec_payload(e);
    let kb = encode_utf8(e.key);
    let vb = encode_utf8(e.value);
    let klen = kb.len() as int;
    let vlen = vb.len() as int;
    assert(p.len() == 9 + klen + vlen);
    assert(p.subrange(1, 5) =~= spec_u32_to_le_bytes(klen as u32));
    assert(spec_u32_from_le_bytes(p.subrange(1, 5)) == klen as u32);
    assert(p.subrange(5, 5 + klen) =~= kb);
    assert(p.subrange(5 + klen, 9 + klen) =~= spec_u32_to_le_bytes(vlen as u32));
    assert(spec_u32_from_le_bytes(p.subrange(5 + klen, 9 + klen)) == vlen as u32);
    assert(p.subrange(9 + klen, p.len() as int) =~= vb);
    assert(p[0] == spec_tag_byte(e.tag));
    assert(spec_byte_tag(spec_tag_byte(e.tag)) == Some(e.tag));
    assert(payload_lengths_ok(p));
    let d = spec_decode_payload(p).unwrap();
    assert(d.key == e.key);
    assert(d.value == e.value);
    assert(d.tag == e.tag);
}

/// Decoding a record body and re-encoding the result gives the same bytes:
/// a well-formed body is exactly the encoding of the record it holds.
pub proof fn lemma_payload_recode(p: Seq<u8>)
    requires
        spec_decode_payload(p) is Some,
        p.len() <= u32::MAX,
    ensures
        encodable(spec_decode_payload(p).unwrap()),
        spec_payload(spec_decode_payload(p).unwrap()) == p,
        spec_payload_len(spec_decode_payload(p).unwrap()) == p.len(),
{
    lemma_auto_spec_u32_to_from_le_bytes();
    broadcast use decode_utf8_encode_utf8;

    let e = spec_decode_payload(p).unwrap();
    let klen = spec_u32_from_le_bytes(p.subrange(1, 5)) as int;
    let kb = p.subrange(5, 5 + klen);
    let vb = p.subrange(9 + klen, p.len() as int);
    let vlen = vb.len() as int;
    assert(encode_utf8(e.key) == kb);
    assert(encode_utf8(e.value) == vb);
    assert(spec_u32_to_le_bytes(klen as u32) == p.subrange(1, 5));
    assert(spec_u32_from_le_bytes(p.subrange(5 + klen, 9 + klen)) == vlen as u32);
    assert(spec_u32_to_le_bytes(vlen as u32) == p.subrange(5 + klen, 9 + klen));
    assert(spec_tag_byte(e.tag) == p[0]);
    assert(spec_payload(e) =~= p);
}

/// What a successful frame decode guarantees: the frame lies inside the
/// log, is at least 13 bytes long, and is byte-for-byte the encoding of the
/// record it yields.
pub proof fn lemma_decode_frame_inverts(log: Seq<u8>, pos: int)
    requires
        spec_decode_frame(log, pos) is Some,
    ensures
        ({
            let (e, l) = spec_decode_frame(log, pos).unwrap();
            &&& 0 <= pos
            &&& 13 <= l
            &&& pos + l <= log.len()
            &&& encodable(e)
            &&& l == spec_frame_len(e)
            &&& log.subrange(pos, pos + l) == spec_frame(e)
            &&& log.subrange(pos + 4, pos + l) == spec_payload(e)
        }),
{
    lemma_auto_spec_u32_to_from_le_bytes();
    let (e, l) = spec_decode_frame(log, pos).unwrap();
    let n = spec_u32_from_le_bytes(log.subrange(pos, pos + 4)) as int;
    let p = log.subrange(pos + 4, pos + 4 + n);
    lemma_payload_recode(p);
    assert(spec_payload(e) == p);
    assert(l == 4 + n);
    assert(n == p.len());
    assert(spec_u32_to_le_bytes(n as u32) == log.subrange(pos, pos + 4));
    assert(spec_frame(e) =~= log.subrange(pos, pos + l));
}

/// Decoding looks only at the bytes of the frame itself: any log that holds
/// the same bytes over the frame's range decodes the same record there.
pub proof fn lemma_decode_frame_agree(log1: Seq<u8>, log2: Seq<u8>, pos: int)
    requires
        spec_decode_frame(log1, pos) is Some,
        pos + spec_decode_frame(log1, pos).unwrap().1 <= log2.len(),
        log2.subrange(pos, pos + spec_decode_frame(log1, pos).unwrap().1) == log1.subrange(
            pos,
            pos + spec_decode_frame(log1, pos).unwrap().1,
        ),
    ensures
        spec_decode_frame(log2, pos) == spec_decode_frame(log1, pos),
{
    let (e, l) = spec_decode_frame(log1, pos).unwrap();
    lemma_decode_frame_inverts(log1, pos);
    let n = l - 4;
    assert forall|i: int| pos <= i < pos + l implies log2[i] == log1[i] by {
        assert(log2.subrange(pos, pos + l)[i - pos] == log1.subrange(pos, pos + l)[i - pos]);
    }
    assert(log2.subrange(pos, pos + 4) =~= log1.subrange(pos, pos + 4));
    assert(log2.subrange(pos + 4, pos + 4 + n) =~= log1.subrange(pos + 4, pos + 4 + n));
}

/// A frame written at the very end of a log decodes from there, whatever
/// lies before it.
pub proof fn lemma_decode_frame_at_append(log: Seq<u8>, e: EntryView)
    requires
        encodable(e),
    ensures
        spec_decode_frame(log + spec_frame(e), log.len() as int) == Some(
            (e, spec_frame_len(e)),
        ),
{
    lemma_auto_spec_u32_to_from_le_bytes();
    lemma_payload_roundtrip(e);
    let log2 = log + spec_frame(e);
    let pos = log.len() as int;
    let p = spec_payload(e);
    let n = p.len() as int;
    assert(log2.subrange(pos, pos + 4) =~= spec_u32_to_le_bytes(n as u32));
    assert(spec_u32_from_le_bytes(log2.subrange(pos, pos + 4)) == n as u32);
    assert(log2.subrange(pos + 4, pos + 4 + n) =~= p);
}

/// The frame of an encodable record has exactly the length the format
/// prescribes, never less than 13 bytes.
pub proof fn lemma_frame_len(e: EntryView)
    requires
        encodable(e),
    ensures
        spec_frame(e).len() == spec_frame_len(e),
        13 <= spec_frame_len(e),
{
    lemma_auto_spec_u32_to_from_le_bytes();
    lemma_payload_roundtrip(e);
}

/// A character never takes more than four bytes of UTF-8.
pub proof fn lemma_encode_utf8_len(s: Seq<char>)
    ensures
        encode_utf8(s).len() <= 4 * s.len(),
    decreases s.len(),
{
    if s.len() > 0 {
        lemma_encode_utf8_len(s.drop_first());
        assert(encode_scalar(s[0] as u32).len() <= 4);
    }
}

/// Any record of reasonably short strings fits the frame format: with at
/// most four UTF-8 bytes per character, the body stays within the 32-bit
/// length prefix.
pub proof fn lemma_short_record_encodable(e: EntryView)
    requires
        9 + 4 * e.key.len() + 4 * e.value.len() <= u32::MAX,
    ensures
        encodable(e),
{
    lemma_encode_utf8_len(e.key);
    lemma_encode_utf8_len(e.value);
}

/// Framing round-trip: the frame of any encodable record decodes back to
/// exactly that record, consuming exactly the frame.
pub proof fn lemma_frame_roundtrip(e: EntryView)
    requires
        encodable(e),
    ensures
        spec_decode_frame(spec_frame(e), 0) == Some((e, spec_frame_len(e))),
{
    lemma_decode_frame_at_append(Seq::empty(), e);
    assert(Seq::<u8>::empty() + spec_frame(e) =~= spec_frame(e));
}

/// A truncated frame never decodes: however many trailing bytes a crash
/// cut off a frame, no record decodes from what is left, so replay stops
/// right there instead of misreading the tail.
pub proof fn lemma_truncated_frame_fails(e: EntryView, cut: int)
    requires
        encodable(e),
        0 <= cut < spec_frame(e).len(),
    ensures
        spec_decode_frame(spec_frame(e).subrange(0, cut), 0) is None,
{
    lemma_auto_spec_u32_to_from_le_bytes();
    lemma_payload_roundtrip(e);
    let f = spec_frame(e);
    let t = f.subrange(0, cut);
    if cut >= 4 {
        assert(t.subrange(0, 4) =~= spec_u32_to_le_bytes(spec_payload(e).len() as u32));
        assert(spec_u32_from_le_bytes(t.subrange(0, 4)) == spec_payload(e).len() as u32);
    }
}

/// Relies on `String::from_utf8` from the standard library: it succeeds
/// exactly on byte sequences that are valid UTF-8, and then returns the
/// string whose encoding they are.
#[verifier::external_body]
fn utf8_to_string(b: &[u8]) -> (r: Option<String>)
    ensures
        match r {
            Some(s) => valid_utf8(b@) && s@ == decode_utf8(b@),
            None => !valid_utf8(b@),
        },
{
    String::from_utf8(b.to_vec()).ok()
}

/// Appends every byte of `src` to `dst`.
pub(crate) fn push_bytes(dst: Vec<u8>, src: &[u8]) -> (r: Vec<u8>)
    ensures
        r@ == dst@ + src@,
{
    let mut d = dst;
    let ghost orig: Seq<u8> = d@;
    let n = src.len();
    let mut i: usize = 0;
    while i < n
        invariant
            i <= n,
            n == src@.len(),
            d@ == orig + src@.subrange(0, i as int),
        decreases n - i,
    {
        d.push(src[i]);
        assert(orig + src@.subrange(0, i as int) + seq![src@[i as int]] =~= orig + src@.subrange(
            0,
            i as int + 1,
        ));
        i = i + 1;
    }
    assert(orig + src@.subrange(0, n as int) =~= orig + src@);
    d
}

/// Serializes one record as a frame. Fails exactly when the record is too
/// large for the 32-bit length prefix.
pub fn encode_frame(e: &Entry) -> (r: Result<Vec<u8>, KvError>)
    ensures
        r is Ok <==> encodable(e@),
        r matches Ok(v) ==> v@ == spec_frame(e@) && v@.len() == spec_frame_len(e@),
        r is Err ==> (r matches Err(err) && err == KvError::CodecError),
{
    proof {
        lemma_auto_spec_u32_to_from_le_bytes();
    }
    let kb = e.key.as_str().as_bytes();
    let vb = e.value.as_str().as_bytes();
    let klen = kb.len();
    let vlen = vb.len();
    let limit = u32::MAX as usize;
    if klen > limit - 9 || vlen > limit - 9 - klen {
        return Err(KvError::CodecError);
    }
    let tag_byte: u8 = match e.tag {
        Tag::Normal => 0u8,
        Tag::Deleted => 1u8,
    };
    let mut payload: Vec<u8> = Vec::new();
    payload.push(tag_byte);
    let klb = u32_to_le_bytes(klen as u32);
    payload = push_bytes(payload, klb.as_slice());
    payload = push_bytes(payload, kb);
    let vlb = u32_to_le_bytes(vlen as u32);
    payload = push_bytes(payload, vlb.as_slice());
    payload = push_bytes(payload, vb);
    assert(payload@ =~= spec_payload(e@));
    let plen = payload.len();
    let mut frame = u32_to_le_bytes(plen as u32);
    frame = push_bytes(frame, payload.as_slice());
    assert(frame@ =~= spec_frame(e@));
    Ok(frame)
}

/// Reads the frame starting at byte `pos` of `log`: the record it holds and
/// the frame's length. `CodecError` marks a truncated frame or inconsistent
/// lengths, `Utf8Error` string bytes that are not UTF-8.
pub fn decode_frame(log: &Vec<u8>, pos: usize) -> (r: Result<(Entry, usize), KvError>)
    ensures
        match r {
            Ok(p) => spec_decode_frame(log@, pos as int) == Some((p.0@, p.1 as int)),
            Err(err) => {
                &&& spec_decode_frame(log@, pos as int) is None
                &&& (err == KvError::Utf8Error || err == KvError::CodecError)
                &&& (err == KvError::Utf8Error <==> frame_lengths_ok(log@, pos as int))
            },
        },
{
    let len = log.len();
    if pos > len || len - pos < 4 {
        return Err(KvError::CodecError);
    }
    let s = log.as_slice();
    let n32 = u32_from_le_bytes(&s[pos..pos + 4]);
    proof {
        lemma_auto_spec_u32_to_from_le_bytes();
    }
    let n64 = n32 as u64;
    let rest = (len - pos - 4) as u64;
    if n64 > rest {
        return Err(KvError::CodecError);
    }
    let n = n32 as usize;
    let base = pos + 4;
    let ghost p: Seq<u8> = log@.subrange(base as int, base as int + n as int);
    if n < 9 {
        assert(!payload_lengths_ok(p));
        return Err(KvError::CodecError);
    }
    assert(p.len() == n as int);
    let tag: Tag = if s[base] == 0 {
        Tag::Normal
    } else if s[base] == 1 {
        Tag::Deleted
    } else {
        assert(p[0] == log@[base as int]);
        assert(!payload_lengths_ok(p));
        return Err(KvError::CodecError);
    };
    assert(p[0] == log@[base as int] && spec_byte_tag(p[0]) == Some(tag));
    let klen32 = u32_from_le_bytes(&s[base + 1..base + 5]);
    assert(log@.subrange(base as int + 1, base as int + 5) =~= p.subrange(1, 5));
    let klen = klen32 as usize;
    if klen > n - 9 {
        assert(!payload_lengths_ok(p));
        return Err(KvError::CodecError);
    }
    let vlen32 = u32_from_le_bytes(&s[base + 5 + klen..base + 9 + klen]);
    assert(log@.subrange(base as int + 5 + klen as int, base as int + 9 + klen as int)
        =~= p.subrange(5 + klen as int, 9 + klen as int));
    let vlen = vlen32 as usize;
    if 9 as u64 + klen as u64 + vlen as u64 != n as u64 {
        assert(!payload_lengths_ok(p));
        return Err(KvError::CodecError);
    }
    assert(payload_lengths_ok(p));
    assert(frame_lengths_ok(log@, pos as int));
    let ghost kbs: Seq<u8> = p.subrange(5, 5 + klen as int);
    let ghost vbs: Seq<u8> = p.subrange(9 + klen as int, p.len() as int);
    let kb = &s[base + 5..base + 5 + klen];
    assert(kb@ =~= kbs);
    let key = match utf8_to_string(kb) {
        Some(k) => k,
        None => {
            return Err(KvError::Utf8Error);
        },
    };
    let vb2 = &s[base + 9 + klen..base + n];
    assert(vb2@ =~= vbs);
    let value = match utf8_to_string(vb2) {
        Some(v) => v,
        None => {
            return Err(KvError::Utf8Error);
        },
    };
    let entry = Entry::new(key, value, tag);
    assert(spec_decode_payload(p) == Some(entry@));
    Ok((entry, 4 + n))
}

} // verus!
