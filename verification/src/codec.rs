//! The byte-level encoding shared by the log segments and the write-ahead
//! log: little-endian integers, length-prefixed UTF-8 strings ("pieces"),
//! the serialized record body, and the fixed-size record header.
//!
//! Every encoder states the exact byte sequence it produces, every decoder
//! states the exact parse it performs, and round-trip lemmas connect the two.

use vstd::prelude::*;
use vstd::bytes::*;
use vstd::slice::*;
use vstd::utf8::*;

use crate::error::PlexError;

verus! {

/// The cap on one encoded string. It keeps every length field inside its
/// `u32`, and keeps a whole record — header, key and value — inside the
/// 32-bit size field of a file offset.
pub const MAX_PIECE_LEN: u64 = 0x3FFF_FFFF;

/// The fixed-size record header: data length, crc32, timestamp, flags.
pub const HEADER_SIZE: usize = 24;

/// Bit 0 of the header flags marks a tombstone.
pub const TOMBSTONE_FLAG: u32 = 1;

/// Relies on `String::from_utf8`: it returns the string holding exactly the
/// given bytes when they are valid UTF-8, and fails otherwise.
#[verifier::external_body]
pub fn bytes_to_string(v: Vec<u8>) -> (r: Option<String>)
    ensures
        match r {
            Some(s) => valid_utf8(v@) && encode_utf8(s@) == v@,
            None => !valid_utf8(v@),
        },
{
    match String::from_utf8(v) {
        Ok(s) => Some(s),
        Err(_) => None,
    }
}

/// The view of an optional string slice.
pub open spec fn opt_str_view(v: Option<&str>) -> Option<Seq<char>> {
    match v {
        Some(s) => Some(s@),
        None => None,
    }
}

/// A length-prefixed UTF-8 string: four length bytes, then the bytes.
pub open spec fn spec_piece(s: Seq<char>) -> Seq<u8> {
    spec_u32_to_le_bytes(encode_utf8(s).len() as u32) + encode_utf8(s)
}

/// Parsing one piece at `pos`: the decoded string and the position just
/// after it, or `None` if the bytes do not hold one.
pub open spec fn spec_take_piece(b: Seq<u8>, pos: int) -> Option<(Seq<char>, int)> {
    if 0 <= pos && pos + 4 <= b.len() {
        let n = spec_u32_from_le_bytes(b.subrange(pos, pos + 4)) as int;
        if pos + 4 + n <= b.len() {
            let sb = b.subrange(pos + 4, pos + 4 + n);
            if valid_utf8(sb) {
                Some((decode_utf8(sb), pos + 4 + n))
            } else {
                None
            }
        } else {
            None
        }
    } else {
        None
    }
}

/// Appends `spec_piece(s@)` to `out`; leaves `out` unchanged and reports
/// failure when the UTF-8 encoding of `s` is too long for a length field.
pub fn append_piece(out: &mut Vec<u8>, s: &str) -> (ok: bool)
    ensures
        ok <==> encode_utf8(s@).len() <= MAX_PIECE_LEN,
        ok ==> final(out)@ == old(out)@ + spec_piece(s@),
        !ok ==> final(out)@ == old(out)@,
{
    let sb: &[u8] = s.as_bytes();
    if sb.len() as u64 > MAX_PIECE_LEN {
        return false;
    }
    let mut len_bytes = u32_to_le_bytes(sb.len() as u32);
    out.append(&mut len_bytes);
    let mut data = slice_to_vec(sb);
    out.append(&mut data);
    assert(final(out)@ =~= old(out)@ + spec_piece(s@));
    true
}

/// Reads one piece at `pos`, exactly as `spec_take_piece` describes.
pub fn read_piece(b: &[u8], pos: usize) -> (r: Option<(String, usize)>)
    ensures
        match r {
            Some((s, end)) => spec_take_piece(b@, pos as int) == Some((s@, end as int))
                && pos < end <= b@.len(),
            None => spec_take_piece(b@, pos as int) is None,
        },
{
    if pos >= b.len() || b.len() - pos < 4 {
        return None;
    }
    let len_slice = slice_subrange(b, pos, pos + 4);
    let n = u32_from_le_bytes(len_slice);
    let rem: usize = b.len() - (pos + 4);
    if n as u64 > rem as u64 {
        return None;
    }
    let n_us = n as usize;
    let data = slice_to_vec(slice_subrange(b, pos + 4, pos + 4 + n_us));
    match bytes_to_string(data) {
        Some(s) => {
            proof {
                broadcast use encode_utf8_decode_utf8;

                assert(decode_utf8(b@.subrange(pos + 4, pos + 4 + n as int)) == s@);
            }
            Some((s, pos + 4 + n_us))
        },
        None => None,
    }
}

/// The serialized record body: a tag byte (0 for a tombstone's absent
/// value, 1 for a present value), the key piece, then the value piece.
pub open spec fn spec_record_body(key: Seq<char>, value: Option<Seq<char>>) -> Seq<u8> {
    match value {
        None => seq![0u8] + spec_piece(key),
        Some(v) => seq![1u8] + spec_piece(key) + spec_piece(v),
    }
}

/// Parsing a record body; `None` unless the bytes are exactly one encoded
/// body.
pub open spec fn spec_decode_record_body(b: Seq<u8>) -> Option<(Seq<char>, Option<Seq<char>>)> {
    if b.len() < 1 {
        None
    } else if b[0] == 0u8 {
        match spec_take_piece(b, 1) {
            Some((k, end)) => if end == b.len() {
                Some((k, None))
            } else {
                None
            },
            None => None,
        }
    } else if b[0] == 1u8 {
        match spec_take_piece(b, 1) {
            Some((k, p)) => match spec_take_piece(b, p) {
                Some((v, end)) => if end == b.len() {
                    Some((k, Some(v)))
                } else {
                    None
                },
                None => None,
            },
            None => None,
        }
    } else {
        None
    }
}

/// Serializes a record body; rejects a key or value whose UTF-8 encoding
/// does not fit a length field.
pub fn encode_record_body(key: &str, value: Option<&str>) -> (r: Result<Vec<u8>, PlexError>)
    ensures
        match r {
            Ok(v) => v@ == spec_record_body(key@, opt_str_view(value)),
            Err(e) => e is Config,
        },
        r is Err <==> !record_body_fits(key@, opt_str_view(value)),
{
    let mut out: Vec<u8> = Vec::new();
    match value {
        None => {
            out.push(0u8);
            if !append_piece(&mut out, key) {
                return Err(PlexError::Config(oversized_message()));
            }
            assert(out@ =~= spec_record_body(key@, opt_str_view(value)));
            Ok(out)
        },
        Some(v) => {
            out.push(1u8);
            if !append_piece(&mut out, key) {
                return Err(PlexError::Config(oversized_message()));
            }
            if !append_piece(&mut out, v) {
                return Err(PlexError::Config(oversized_message()));
            }
            assert(out@ =~= spec_record_body(key@, opt_str_view(value)));
            Ok(out)
        },
    }
}

/// Whether a record body's pieces fit their length fields.
pub open spec fn record_body_fits(key: Seq<char>, value: Option<Seq<char>>) -> bool {
    encode_utf8(key).len() <= MAX_PIECE_LEN && match value {
        Some(v) => encode_utf8(v).len() <= MAX_PIECE_LEN,
        None => true,
    }
}

fn oversized_message() -> String {
    "key or value too large for a length field".to_owned()
}

/// Deserializes a record body, exactly as `spec_decode_record_body`
/// describes.
pub fn decode_record_body(b: &[u8]) -> (r: Option<(String, Option<String>)>)
    ensures
        match r {
            Some((k, v)) => spec_decode_record_body(b@) == Some(
                (k@, match v {
                    Some(s) => Some(s@),
                    None => None,
                }),
            ),
            None => spec_decode_record_body(b@) is None,
        },
{
    if b.len() < 1 {
        return None;
    }
    let tag = *slice_index_get(b, 0);
    if tag == 0u8 {
        match read_piece(b, 1) {
            Some((k, end)) => if end == b.len() {
                Some((k, None))
            } else {
                None
            },
            None => None,
        }
    } else if tag == 1u8 {
        match read_piece(b, 1) {
            Some((k, p)) => match read_piece(b, p) {
                Some((v, end)) => if end == b.len() {
                    Some((k, Some(v)))
                } else {
                    None
                },
                None => None,
            },
            None => None,
        }
    } else {
        None
    }
}

/// Parsing one piece sees exactly the piece that was written at `pos`.
pub proof fn lemma_take_piece_at(b: Seq<u8>, pos: int, s: Seq<char>)
    requires
        0 <= pos,
        encode_utf8(s).len() <= MAX_PIECE_LEN,
        pos + spec_piece(s).len() <= b.len(),
        b.subrange(pos, pos + spec_piece(s).len() as int) == spec_piece(s),
    ensures
        spec_take_piece(b, pos) == Some((s, pos + spec_piece(s).len() as int)),
{
    broadcast use encode_utf8_valid_utf8;
    broadcast use encode_utf8_decode_utf8;

    lemma_auto_spec_u32_to_from_le_bytes();
    let sb = encode_utf8(s);
    let piece = spec_piece(s);
    assert(piece.len() == 4 + sb.len());
    assert(b.subrange(pos, pos + 4) =~= piece.subrange(0, 4));
    assert(piece.subrange(0, 4) =~= spec_u32_to_le_bytes(sb.len() as u32));
    let n = spec_u32_from_le_bytes(b.subrange(pos, pos + 4)) as int;
    assert(n == sb.len());
    assert(b.subrange(pos + 4, pos + 4 + n) =~= piece.subrange(4, 4 + n));
    assert(piece.subrange(4, 4 + n) =~= sb);
}

/// Decoding an encoded record body returns the original key and value.
pub proof fn lemma_record_body_round_trip(key: Seq<char>, value: Option<Seq<char>>)
    requires
        record_body_fits(key, value),
    ensures
        spec_decode_record_body(spec_record_body(key, value)) == Some((key, value)),
{
    let b = spec_record_body(key, value);
    match value {
        None => {
            assert(b[0] == 0u8);
            assert(b.subrange(1, 1 + spec_piece(key).len() as int) =~= spec_piece(key));
            lemma_take_piece_at(b, 1, key);
        },
        Some(v) => {
            assert(b[0] == 1u8);
            let kp = spec_piece(key).len() as int;
            assert(b.subrange(1, 1 + kp) =~= spec_piece(key));
            lemma_take_piece_at(b, 1, key);
            assert(b.subrange(1 + kp, 1 + kp + spec_piece(v).len() as int) =~= spec_piece(v));
            lemma_take_piece_at(b, 1 + kp, v);
        },
    }
}

/// The fixed-size header preceding a record body: data length, crc32,
/// timestamp, flags, all little-endian.
pub open spec fn spec_header_bytes(data_length: u64, crc: u32, timestamp: u64, flags: u32) -> Seq<
    u8,
> {
    spec_u64_to_le_bytes(data_length) + spec_u32_to_le_bytes(crc) + spec_u64_to_le_bytes(timestamp)
        + spec_u32_to_le_bytes(flags)
}

/// The data-length field of a header's 24 bytes.
pub open spec fn spec_header_data_len(b: Seq<u8>) -> u64 {
    spec_u64_from_le_bytes(b.subrange(0, 8))
}

/// The crc field of a header's 24 bytes.
pub open spec fn spec_header_crc(b: Seq<u8>) -> u32 {
    spec_u32_from_le_bytes(b.subrange(8, 12))
}

/// The timestamp field of a header's 24 bytes.
pub open spec fn spec_header_timestamp(b: Seq<u8>) -> u64 {
    spec_u64_from_le_bytes(b.subrange(12, 20))
}

/// The flags field of a header's 24 bytes.
pub open spec fn spec_header_flags(b: Seq<u8>) -> u32 {
    spec_u32_from_le_bytes(b.subrange(20, 24))
}

/// The four parse functions read back exactly the fields a header was
/// built from.
pub proof fn lemma_header_round_trip(data_length: u64, crc: u32, timestamp: u64, flags: u32)
    ensures
        spec_header_bytes(data_length, crc, timestamp, flags).len() == HEADER_SIZE,
        spec_header_data_len(spec_header_bytes(data_length, crc, timestamp, flags)) == data_length,
        spec_header_crc(spec_header_bytes(data_length, crc, timestamp, flags)) == crc,
        spec_header_timestamp(spec_header_bytes(data_length, crc, timestamp, flags)) == timestamp,
        spec_header_flags(spec_header_bytes(data_length, crc, timestamp, flags)) == flags,
{
    lemma_auto_spec_u32_to_from_le_bytes();
    lemma_auto_spec_u64_to_from_le_bytes();
    let b = spec_header_bytes(data_length, crc, timestamp, flags);
    assert(b.subrange(0, 8) =~= spec_u64_to_le_bytes(data_length));
    assert(b.subrange(8, 12) =~= spec_u32_to_le_bytes(crc));
    assert(b.subrange(12, 20) =~= spec_u64_to_le_bytes(timestamp));
    assert(b.subrange(20, 24) =~= spec_u32_to_le_bytes(flags));
}

/// Serializes a header.
pub fn encode_header(data_length: u64, crc: u32, timestamp: u64, flags: u32) -> (r: Vec<u8>)
    ensures
        r@ == spec_header_bytes(data_length, crc, timestamp, flags),
        r@.len() == HEADER_SIZE,
{
    let mut out = u64_to_le_bytes(data_length);
    let mut crc_bytes = u32_to_le_bytes(crc);
    out.append(&mut crc_bytes);
    let mut ts_bytes = u64_to_le_bytes(timestamp);
    out.append(&mut ts_bytes);
    let mut flag_bytes = u32_to_le_bytes(flags);
    out.append(&mut flag_bytes);
    assert(out@ =~= spec_header_bytes(data_length, crc, timestamp, flags));
    proof {
        lemma_header_round_trip(data_length, crc, timestamp, flags);
    }
    out
}

/// Reads the four header fields out of 24 bytes.
pub fn decode_header(b: &[u8]) -> (r: (u64, u32, u64, u32))
    requires
        b@.len() == HEADER_SIZE,
    ensures
        r.0 == spec_header_data_len(b@),
        r.1 == spec_header_crc(b@),
        r.2 == spec_header_timestamp(b@),
        r.3 == spec_header_flags(b@),
{
    let data_length = u64_from_le_bytes(slice_subrange(b, 0, 8));
    let crc = u32_from_le_bytes(slice_subrange(b, 8, 12));
    let timestamp = u64_from_le_bytes(slice_subrange(b, 12, 20));
    let flags = u32_from_le_bytes(slice_subrange(b, 20, 24));
    (data_length, crc, timestamp, flags)
}

} // verus!
