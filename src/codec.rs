//! Byte encodings of what the mailbox stores and what the relay carries,
//! both in bincode's standard configuration (little endian, variable-length
//! integers).

use vstd::prelude::*;

verus! {

/// Decoding refuses input that would claim more than this many bytes, so that
/// a corrupted length prefix cannot make it allocate without bound.
pub const DECODE_LIMIT: usize = 1073741824;

/// Encodings no longer than this decode within `DECODE_LIMIT`: decoding one of
/// `n` bytes claims at most `32 * n` (eight per length prefix, the size of a
/// `Vec` per list item, one per payload byte).
pub const MAX_DECODED_LEN: usize = 33554432;

/// The byte strings of a list of byte vectors.
pub open spec fn views(v: Seq<Vec<u8>>) -> Seq<Seq<u8>> {
    v.map_values(|x: Vec<u8>| x@)
}

/// bincode's encoding of a list of byte strings (a `Vec<Vec<u8>>`).
pub uninterp spec fn list_encoding(items: Seq<Seq<u8>>) -> Seq<u8>;

/// What bincode's `decode_from_slice`, with the limit `DECODE_LIMIT`, reads
/// from `b` as a list of byte strings; none when it refuses `b`.
pub uninterp spec fn list_decoding(b: Seq<u8>) -> Option<Seq<Seq<u8>>>;

/// bincode's encoding of the pair (agent identifier, payload).
pub uninterp spec fn frame_encoding(agent_id: Seq<char>, payload: Seq<u8>) -> Seq<u8>;

/// Relies on `bincode::encode_to_vec`, which writes `Vec<Vec<u8>>` into a
/// growing `Vec` and has no error path for that type.
#[verifier::external_body]
pub(crate) fn encode_list(items: &Vec<Vec<u8>>) -> (r: Vec<u8>)
    ensures
        r@ == list_encoding(views(items@)),
{
    match bincode::encode_to_vec(items, bincode::config::standard()) {
        Ok(v) => v,
        Err(_) => Vec::new(),
    }
}

/// Relies on `bincode::decode_from_slice` for `Vec<Vec<u8>>`: its result
/// depends on the bytes alone, and the encoding of a list decodes to that
/// list.
#[verifier::external_body]
pub(crate) fn decode_list(b: &[u8]) -> (r: Option<Vec<Vec<u8>>>)
    ensures
        match r {
            Some(v) => list_decoding(b@) == Some(views(v@)),
            None => list_decoding(b@) is None,
        },
        forall|items: Seq<Seq<u8>>|
            b@ == list_encoding(items) && b@.len() <= MAX_DECODED_LEN ==> r is Some
                && views(r.unwrap()@) == items,
{
    let config = bincode::config::standard().with_limit::<DECODE_LIMIT>();
    match bincode::decode_from_slice::<Vec<Vec<u8>>, _>(b, config) {
        Ok((v, _)) => Some(v),
        Err(_) => None,
    }
}

/// Relies on `bincode::encode_to_vec`, which writes the pair `(&str, &[u8])`
/// into a growing `Vec` and has no error path for it.
#[verifier::external_body]
pub(crate) fn encode_frame(agent_id: &str, payload: &[u8]) -> (r: Vec<u8>)
    ensures
        r@ == frame_encoding(agent_id@, payload@),
{
    match bincode::encode_to_vec((agent_id, payload), bincode::config::standard()) {
        Ok(v) => v,
        Err(_) => Vec::new(),
    }
}

/// What bincode's `decode_from_slice`, with the limit `DECODE_LIMIT`, reads
/// from the front of `b` as a pair (agent identifier, payload), with the
/// number of bytes that took; none when it refuses `b`.
pub uninterp spec fn frame_decoding(b: Seq<u8>) -> Option<(Seq<char>, Seq<u8>, nat)>;

/// Relies on `bincode::decode_from_slice` for `(String, Vec<u8>)`: its result
/// depends on the bytes alone; it reads one pair from the front of `b` (at
/// least its two length prefixes, a byte each or more) and reports how many
/// bytes that took.
#[verifier::external_body]
pub(crate) fn decode_frame(b: &[u8]) -> (r: Option<(String, Vec<u8>, usize)>)
    ensures
        match r {
            Some((id, payload, n)) => frame_decoding(b@) == Some((id@, payload@, n as nat)),
            None => frame_decoding(b@) is None,
        },
        r matches Some((_, _, n)) ==> 1 <= n <= b@.len(),
        forall|id: Seq<char>, payload: Seq<u8>, rest: Seq<u8>|
            b@ == frame_encoding(id, payload) + rest && frame_encoding(id, payload).len()
                <= MAX_DECODED_LEN ==> r is Some && r.unwrap().0@ == id && r.unwrap().1@ == payload
                && r.unwrap().2 == frame_encoding(id, payload).len(),
{
    let config = bincode::config::standard().with_limit::<DECODE_LIMIT>();
    match bincode::decode_from_slice::<(String, Vec<u8>), _>(b, config) {
        Ok(((id, payload), n)) => Some((id, payload, n)),
        Err(_) => None,
    }
}

} // verus!
