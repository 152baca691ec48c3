//! The compressors behind the transparent-compression cache layer: a
//! closed set of algorithms dispatched through one enum, each outside call
//! behind a trusted wrapper whose result is named. The adaptive form's
//! candidate selection and framing, and the dictionary form's substitution
//! coding and training, are verified around those wrappers.

use vstd::prelude::*;
use vstd::bytes::{
    lemma_auto_spec_u64_to_from_le_bytes, spec_u64_from_le_bytes, spec_u64_to_le_bytes,
    u64_from_le_bytes, u64_to_le_bytes,
};
use vstd::slice::{slice_subrange, slice_to_vec};

use crate::error::{PlexError, PlexResult};

verus! {

/// The largest size the layer will decompress into. A corrupt header can
/// declare any length, and the decoders allocate the declared length up
/// front, so a cap is checked before any of them runs.
pub const MAX_DECOMPRESSED_LEN: usize = 0x0400_0000;

/// What LZ4 block compression (with a length prefix) makes of the bytes: a
/// function of the input alone.
pub uninterp spec fn lz4_compress_of(data: Seq<u8>) -> Seq<u8>;

/// What LZ4 decompression makes of bytes: the original input for anything
/// the compressor produced, `None` for undecodable bytes.
pub uninterp spec fn lz4_decompress_of(data: Seq<u8>) -> Option<Seq<u8>>;

/// Relies on `lz4_flex::compress_prepend_size`: it compresses the bytes —
/// a function of the input alone — prepending the input length as four
/// little-endian bytes, and `decompress_size_prepended` recovers exactly
/// the input from its output.
#[verifier::external_body]
fn lz4_compress(data: &[u8]) -> (r: Vec<u8>)
    requires
        data@.len() <= MAX_DECOMPRESSED_LEN,
    ensures
        r@ == lz4_compress_of(data@),
        lz4_decompress_of(r@) == Some(data@),
        r@.len() >= 4,
        vstd::bytes::spec_u32_from_le_bytes(r@.subrange(0, 4)) == data@.len(),
{
    lz4_flex::compress_prepend_size(data)
}

/// Relies on `lz4_flex::decompress_size_prepended`: it inverts
/// `compress_prepend_size` and fails on bytes that do not decode. The
/// declared length must sit under the cap: the decoder allocates it
/// before decoding.
#[verifier::external_body]
fn lz4_decompress(data: &[u8]) -> (r: Option<Vec<u8>>)
    requires
        data@.len() >= 4 ==> vstd::bytes::spec_u32_from_le_bytes(data@.subrange(0, 4))
            <= MAX_DECOMPRESSED_LEN,
    ensures
        match r {
            Some(v) => lz4_decompress_of(data@) == Some(v@),
            None => lz4_decompress_of(data@) is None,
        },
{
    match lz4_flex::decompress_size_prepended(data) {
        Ok(v) => Some(v),
        Err(_) => None,
    }
}

/// The length an LZ4 frame declares, or too much.
pub open spec fn spec_lz4_declared_len(b: Seq<u8>) -> int {
    if b.len() < 4 {
        0
    } else {
        vstd::bytes::spec_u32_from_le_bytes(b.subrange(0, 4)) as int
    }
}

/// Decoding one LZ4 frame; a declared length over the cap fails without
/// decoding.
pub open spec fn spec_lz4_unframe(b: Seq<u8>) -> Option<Seq<u8>> {
    if spec_lz4_declared_len(b) > MAX_DECOMPRESSED_LEN {
        None
    } else {
        lz4_decompress_of(b)
    }
}

/// Decodes one LZ4 frame under the cap.
fn lz4_unframe(data: &[u8]) -> (r: Option<Vec<u8>>)
    ensures
        match r {
            Some(v) => spec_lz4_unframe(data@) == Some(v@),
            None => spec_lz4_unframe(data@) is None,
        },
{
    if data.len() >= 4 {
        let declared = vstd::bytes::u32_from_le_bytes(slice_subrange(data, 0, 4));
        if declared > MAX_DECOMPRESSED_LEN as u32 {
            return None;
        }
    }
    lz4_decompress(data)
}

/// What Snappy raw compression makes of the bytes.
pub uninterp spec fn snappy_compress_of(data: Seq<u8>) -> Seq<u8>;

/// What Snappy raw decompression makes of bytes.
pub uninterp spec fn snappy_decompress_of(data: Seq<u8>) -> Option<Seq<u8>>;

/// The length a Snappy header declares, if it parses.
pub uninterp spec fn snappy_len_of(data: Seq<u8>) -> Option<int>;

/// Relies on `snap::raw::Encoder::compress_vec`: it compresses the bytes —
/// a function of the input alone — with a header declaring the input
/// length, and `Decoder::decompress_vec` recovers exactly the input from
/// its output. Compression fails only on inputs past the Snappy format's
/// four-gigabyte limit, far above the required cap, so under it the call
/// succeeds.
#[verifier::external_body]
fn snappy_compress(data: &[u8]) -> (r: Option<Vec<u8>>)
    requires
        data@.len() <= MAX_DECOMPRESSED_LEN,
    ensures
        r is Some,
        match r {
            Some(v) => v@ == snappy_compress_of(data@) && snappy_decompress_of(v@) == Some(
                data@,
            ) && snappy_len_of(v@) == Some(data@.len() as int),
            None => true,
        },
{
    match snap::raw::Encoder::new().compress_vec(data) {
        Ok(v) => Some(v),
        Err(_) => None,
    }
}

/// Relies on `snap::raw::decompress_len`: it reads the declared length out
/// of a Snappy header, a function of the bytes alone.
#[verifier::external_body]
fn snappy_decompress_len(data: &[u8]) -> (r: Option<usize>)
    ensures
        match r {
            Some(l) => snappy_len_of(data@) == Some(l as int),
            None => snappy_len_of(data@) is None,
        },
{
    match snap::raw::decompress_len(data) {
        Ok(l) => Some(l),
        Err(_) => None,
    }
}

/// Relies on `snap::raw::Decoder::decompress_vec`: it inverts
/// `compress_vec` and fails on bytes that do not decode. The declared
/// length must sit under the cap: the decoder allocates it before
/// decoding.
#[verifier::external_body]
fn snappy_decompress(data: &[u8]) -> (r: Option<Vec<u8>>)
    requires
        snappy_len_of(data@) matches Some(l) && l <= MAX_DECOMPRESSED_LEN,
    ensures
        match r {
            Some(v) => snappy_decompress_of(data@) == Some(v@),
            None => snappy_decompress_of(data@) is None,
        },
{
    match snap::raw::Decoder::new().decompress_vec(data) {
        Ok(v) => Some(v),
        Err(_) => None,
    }
}

/// Decoding one Snappy block; an unparsable header or a declared length
/// over the cap fails without decoding.
pub open spec fn spec_snappy_unframe(b: Seq<u8>) -> Option<Seq<u8>> {
    match snappy_len_of(b) {
        Some(l) => if l <= MAX_DECOMPRESSED_LEN {
            snappy_decompress_of(b)
        } else {
            None
        },
        None => None,
    }
}

/// Decodes one Snappy block under the cap.
fn snappy_unframe(data: &[u8]) -> (r: Option<Vec<u8>>)
    ensures
        match r {
            Some(v) => spec_snappy_unframe(data@) == Some(v@),
            None => spec_snappy_unframe(data@) is None,
        },
{
    let declared = match snappy_decompress_len(data) {
        Some(l) => l,
        None => {
            return None;
        },
    };
    if declared > MAX_DECOMPRESSED_LEN {
        return None;
    }
    snappy_decompress(data)
}

/// What Zstandard compression at a given level makes of the bytes.
pub uninterp spec fn zstd_compress_of(data: Seq<u8>, level: int) -> Seq<u8>;

/// What Zstandard decompression into a buffer of the given capacity makes
/// of bytes.
pub uninterp spec fn zstd_decompress_of(data: Seq<u8>, capacity: int) -> Option<Seq<u8>>;

/// Relies on `zstd::bulk::compress`: it compresses the bytes — a function
/// of the input and level alone — and `zstd::bulk::decompress` with
/// capacity for the original recovers exactly the input from its output.
/// For a level within Zstandard's own range the call succeeds: the library
/// clamps the level and sizes the output by its own worst-case bound.
#[verifier::external_body]
fn zstd_compress(data: &[u8], level: i32) -> (r: Option<Vec<u8>>)
    requires
        data@.len() <= MAX_DECOMPRESSED_LEN,
        0 <= level <= 22,
    ensures
        r is Some,
        match r {
            Some(v) => v@ == zstd_compress_of(data@, level as int) && zstd_decompress_of(
                v@,
                data@.len() as int,
            ) == Some(data@),
            None => true,
        },
{
    match zstd::bulk::compress(data, level) {
        Ok(v) => Some(v),
        Err(_) => None,
    }
}

/// Relies on `zstd::bulk::decompress`: it inverts `compress` given enough
/// capacity, and fails on bytes that do not decode or overflow the buffer.
#[verifier::external_body]
fn zstd_decompress(data: &[u8], capacity: usize) -> (r: Option<Vec<u8>>)
    ensures
        match r {
            Some(v) => zstd_decompress_of(data@, capacity as int) == Some(v@),
            None => zstd_decompress_of(data@, capacity as int) is None,
        },
{
    match zstd::bulk::decompress(data, capacity) {
        Ok(v) => Some(v),
        Err(_) => None,
    }
}

/// The compression algorithms the cache layer can wrap. The adaptive
/// variant tries the single-algorithm forms and keeps the smallest output
/// that beats its threshold (in per mille of the input size), falling back
/// to storing the bytes unchanged. The dictionary variant substitutes
/// trained four-byte patterns with two-byte tokens before the final pass.
pub enum Compressor {
    Uncompressed,
    Lz4,
    Snappy,
    Zstd { level: i32 },
    Adaptive { threshold_permille: u32 },
    Dictionary { dictionary: Vec<u8> },
}

/// Decoding one dictionary token stream: `0xFF` escapes — followed by
/// `0xFF` for a literal `0xFF` byte, or by a dictionary entry index —
/// and every other byte stands for itself. An index past the dictionary
/// does not decode.
pub open spec fn spec_dict_decode(dict: Seq<u8>, b: Seq<u8>) -> Option<Seq<u8>>
    decreases b.len(),
{
    if b.len() == 0 {
        Some(Seq::empty())
    } else if b[0] == 0xFFu8 {
        if b.len() < 2 {
            None
        } else if b[1] == 0xFFu8 {
            match spec_dict_decode(dict, b.skip(2)) {
                Some(rest) => Some(seq![0xFFu8] + rest),
                None => None,
            }
        } else if (b[1] as int) * 4 + 4 <= dict.len() {
            match spec_dict_decode(dict, b.skip(2)) {
                Some(rest) => Some(
                    dict.subrange((b[1] as int) * 4, (b[1] as int) * 4 + 4) + rest,
                ),
                None => None,
            }
        } else {
            None
        }
    } else {
        match spec_dict_decode(dict, b.skip(1)) {
            Some(rest) => Some(seq![b[0]] + rest),
            None => None,
        }
    }
}

/// Token streams decode piecewise: a decodable prefix followed by anything
/// decodes to the prefix's bytes followed by the rest's.
proof fn lemma_dict_decode_concat(dict: Seq<u8>, a: Seq<u8>, b: Seq<u8>)
    requires
        spec_dict_decode(dict, a) is Some,
    ensures
        spec_dict_decode(dict, a + b) == match (spec_dict_decode(dict, a), spec_dict_decode(
            dict,
            b,
        )) {
            (Some(x), Some(y)) => Some(x + y),
            _ => None::<Seq<u8>>,
        },
    decreases a.len(),
{
    let ab = a + b;
    if a.len() == 0 {
        assert(ab =~= b);
        match spec_dict_decode(dict, b) {
            Some(y) => {
                assert(Seq::<u8>::empty() + y =~= y);
            },
            None => {},
        }
    } else if a[0] == 0xFFu8 {
        assert(ab[0] == a[0]);
        assert(a.len() >= 2);
        assert(ab[1] == a[1]);
        assert(ab.skip(2) =~= a.skip(2) + b);
        lemma_dict_decode_concat(dict, a.skip(2), b);
        if a[1] == 0xFFu8 {
            match (spec_dict_decode(dict, a.skip(2)), spec_dict_decode(dict, b)) {
                (Some(x2), Some(y)) => {
                    assert(seq![0xFFu8] + (x2 + y) =~= (seq![0xFFu8] + x2) + y);
                },
                _ => {},
            }
        } else {
            let entry = dict.subrange((a[1] as int) * 4, (a[1] as int) * 4 + 4);
            match (spec_dict_decode(dict, a.skip(2)), spec_dict_decode(dict, b)) {
                (Some(x2), Some(y)) => {
                    assert(entry + (x2 + y) =~= (entry + x2) + y);
                },
                _ => {},
            }
        }
    } else {
        assert(ab[0] == a[0]);
        assert(ab.skip(1) =~= a.skip(1) + b);
        lemma_dict_decode_concat(dict, a.skip(1), b);
        match (spec_dict_decode(dict, a.skip(1)), spec_dict_decode(dict, b)) {
            (Some(x1), Some(y)) => {
                assert(seq![a[0]] + (x1 + y) =~= (seq![a[0]] + x1) + y);
            },
            _ => {},
        }
    }
}

/// The first dictionary entry matching a four-byte window, if any. Only
/// the first 255 entries take part: index `0xFF` is the escape.
fn dict_find_entry(dict: &Vec<u8>, w0: u8, w1: u8, w2: u8, w3: u8) -> (r: Option<u8>)
    ensures
        match r {
            Some(d) => d < 255 && (d as int) * 4 + 4 <= dict@.len() && dict@.subrange(
                (d as int) * 4,
                (d as int) * 4 + 4,
            ) == seq![w0, w1, w2, w3],
            None => true,
        },
{
    let mut d: usize = 0;
    while d < 255 && d * 4 + 4 <= dict.len()
        invariant
            0 <= d <= 255,
        decreases 255 - d,
    {
        if dict[d * 4] == w0 && dict[d * 4 + 1] == w1 && dict[d * 4 + 2] == w2 && dict[d * 4
            + 3] == w3 {
            proof {
                assert(dict@.subrange((d as int) * 4, (d as int) * 4 + 4) =~= seq![
                    w0,
                    w1,
                    w2,
                    w3,
                ]);
            }
            return Some(d as u8);
        }
        d = d + 1;
    }
    None
}

/// Substitutes dictionary windows with two-byte tokens, escaping literal
/// `0xFF` bytes so the stream always decodes back to exactly the input.
fn dict_encode(dict: &Vec<u8>, data: &[u8]) -> (out: Vec<u8>)
    ensures
        spec_dict_decode(dict@, out@) == Some(data@),
        out@.len() <= 2 * data@.len(),
{
    let mut out: Vec<u8> = Vec::new();
    let mut i: usize = 0;
    proof {
        assert(data@.take(0) =~= Seq::<u8>::empty());
        assert(spec_dict_decode(dict@, out@) == Some(data@.take(0)));
    }
    while i < data.len()
        invariant
            0 <= i <= data@.len(),
            spec_dict_decode(dict@, out@) == Some(data@.take(i as int)),
            out@.len() <= 2 * i,
        decreases data@.len() - i,
    {
        let ghost prev = out@;
        if data.len() - i >= 4 {
            let w0 = *vstd::slice::slice_index_get(data, i);
            let w1 = *vstd::slice::slice_index_get(data, i + 1);
            let w2 = *vstd::slice::slice_index_get(data, i + 2);
            let w3 = *vstd::slice::slice_index_get(data, i + 3);
            match dict_find_entry(dict, w0, w1, w2, w3) {
                Some(d) => {
                    out.push(0xFFu8);
                    out.push(d);
                    proof {
                        let tok = seq![0xFFu8, d];
                        assert(out@ =~= prev + tok);
                        assert(tok.skip(2) =~= Seq::<u8>::empty());
                        assert(spec_dict_decode(dict@, Seq::<u8>::empty()) == Some(
                            Seq::<u8>::empty(),
                        ));
                        assert(spec_dict_decode(dict@, tok) == Some(
                            dict@.subrange((d as int) * 4, (d as int) * 4 + 4) + Seq::<
                                u8,
                            >::empty(),
                        ));
                        assert(dict@.subrange((d as int) * 4, (d as int) * 4 + 4) + Seq::<
                            u8,
                        >::empty() =~= seq![w0, w1, w2, w3]);
                        lemma_dict_decode_concat(dict@, prev, tok);
                        assert(data@.take(i as int) + seq![w0, w1, w2, w3] =~= data@.take(
                            i as int + 4,
                        ));
                    }
                    i = i + 4;
                    continue ;
                },
                None => {},
            }
        }
        let x = *vstd::slice::slice_index_get(data, i);
        if x == 0xFFu8 {
            out.push(0xFFu8);
            out.push(0xFFu8);
            proof {
                let tok = seq![0xFFu8, 0xFFu8];
                assert(out@ =~= prev + tok);
                assert(tok.skip(2) =~= Seq::<u8>::empty());
                assert(spec_dict_decode(dict@, Seq::<u8>::empty()) == Some(Seq::<u8>::empty()));
                assert(spec_dict_decode(dict@, tok) == Some(
                    seq![0xFFu8] + Seq::<u8>::empty(),
                ));
                assert(seq![0xFFu8] + Seq::<u8>::empty() =~= seq![x]);
                lemma_dict_decode_concat(dict@, prev, tok);
                assert(data@.take(i as int) + seq![x] =~= data@.take(i as int + 1));
            }
        } else {
            out.push(x);
            proof {
                let tok = seq![x];
                assert(out@ =~= prev + tok);
                assert(tok.skip(1) =~= Seq::<u8>::empty());
                assert(spec_dict_decode(dict@, Seq::<u8>::empty()) == Some(Seq::<u8>::empty()));
                assert(spec_dict_decode(dict@, tok) == Some(seq![x] + Seq::<u8>::empty()));
                assert(seq![x] + Seq::<u8>::empty() =~= seq![x]);
                lemma_dict_decode_concat(dict@, prev, tok);
                assert(data@.take(i as int) + seq![x] =~= data@.take(i as int + 1));
            }
        }
        i = i + 1;
    }
    proof {
        assert(data@.take(data@.len() as int) =~= data@);
    }
    out
}

/// Expands a dictionary token stream, exactly as `spec_dict_decode`
/// describes; an index past the dictionary fails.
fn dict_decode(dict: &Vec<u8>, b: &[u8]) -> (r: Option<Vec<u8>>)
    ensures
        match r {
            Some(v) => spec_dict_decode(dict@, b@) == Some(v@),
            None => spec_dict_decode(dict@, b@) is None,
        },
{
    let mut out: Vec<u8> = Vec::new();
    let mut i: usize = 0;
    proof {
        assert(b@.skip(0) =~= b@);
    }
    while i < b.len()
        invariant
            0 <= i <= b@.len(),
            spec_dict_decode(dict@, b@) is Some <==> spec_dict_decode(
                dict@,
                b@.skip(i as int),
            ) is Some,
            spec_dict_decode(dict@, b@.skip(i as int)) matches Some(rest) ==> spec_dict_decode(
                dict@,
                b@,
            ) == Some(out@ + rest),
        decreases b@.len() - i,
    {
        let ghost suffix = b@.skip(i as int);
        let ghost prev = out@;
        let x = *vstd::slice::slice_index_get(b, i);
        proof {
            assert(suffix[0] == b@[i as int]);
        }
        if x != 0xFFu8 {
            out.push(x);
            proof {
                assert(suffix.skip(1) =~= b@.skip(i as int + 1));
                assert(out@ =~= prev + seq![x]);
                match spec_dict_decode(dict@, b@.skip(i as int + 1)) {
                    Some(rest) => {
                        assert(spec_dict_decode(dict@, suffix) == Some(seq![x] + rest));
                        assert(prev + (seq![x] + rest) =~= out@ + rest);
                    },
                    None => {},
                }
            }
            i = i + 1;
        } else {
            if i + 1 >= b.len() {
                proof {
                    assert(suffix.len() < 2);
                    assert(spec_dict_decode(dict@, suffix) is None);
                }
                return None;
            }
            let d = *vstd::slice::slice_index_get(b, i + 1);
            proof {
                assert(suffix[1] == b@[i as int + 1]);
                assert(suffix.skip(2) =~= b@.skip(i as int + 2));
            }
            if d == 0xFFu8 {
                out.push(0xFFu8);
                proof {
                    assert(out@ =~= prev + seq![0xFFu8]);
                    match spec_dict_decode(dict@, b@.skip(i as int + 2)) {
                        Some(rest) => {
                            assert(spec_dict_decode(dict@, suffix) == Some(seq![0xFFu8] + rest));
                            assert(prev + (seq![0xFFu8] + rest) =~= out@ + rest);
                        },
                        None => {},
                    }
                }
                i = i + 2;
            } else if (d as usize) * 4 + 4 <= dict.len() {
                let base = (d as usize) * 4;
                out.push(dict[base]);
                out.push(dict[base + 1]);
                out.push(dict[base + 2]);
                out.push(dict[base + 3]);
                proof {
                    let entry = dict@.subrange((d as int) * 4, (d as int) * 4 + 4);
                    assert(out@ =~= prev + entry);
                    match spec_dict_decode(dict@, b@.skip(i as int + 2)) {
                        Some(rest) => {
                            assert(spec_dict_decode(dict@, suffix) == Some(entry + rest));
                            assert(prev + (entry + rest) =~= out@ + rest);
                        },
                        None => {},
                    }
                }
                i = i + 2;
            } else {
                proof {
                    assert(spec_dict_decode(dict@, suffix) is None);
                }
                return None;
            }
        }
    }
    proof {
        assert(b@.skip(b@.len() as int) =~= Seq::<u8>::empty());
        assert(out@ + Seq::<u8>::empty() =~= out@);
    }
    Some(out)
}

/// Whether a four-byte window occurs somewhere in the samples.
pub open spec fn window_from_samples(samples: Seq<Vec<u8>>, win: Seq<u8>) -> bool {
    exists|s: int, w: int|
        0 <= s < samples.len() && 0 <= w && w + 4 <= samples[s]@.len() && win
            == #[trigger] samples[s]@.subrange(w, w + 4)
}

/// The window a count entry holds.
pub open spec fn spec_count_window(e: ((u8, u8, u8, u8), u64)) -> Seq<u8> {
    seq![e.0.0, e.0.1, e.0.2, e.0.3]
}

/// Builds a dictionary of up to 255 four-byte windows drawn from the
/// samples, most frequent first; every entry occurs in some sample.
pub fn train_dictionary(samples: &Vec<Vec<u8>>) -> (r: Vec<u8>)
    ensures
        r@.len() % 4 == 0,
        r@.len() <= 4 * 255,
        forall|e: int|
            0 <= e < r@.len() / 4 ==> window_from_samples(
                samples@,
                #[trigger] r@.subrange(4 * e, 4 * e + 4),
            ),
{
    let mut counts: Vec<((u8, u8, u8, u8), u64)> = Vec::new();
    let mut s: usize = 0;
    while s < samples.len()
        invariant
            0 <= s <= samples@.len(),
            forall|c: int|
                0 <= c < counts@.len() ==> window_from_samples(
                    samples@,
                    spec_count_window(#[trigger] counts@[c]),
                ),
        decreases samples@.len() - s,
    {
        let sample = &samples[s];
        let mut w: usize = 0;
        while w < sample.len() && sample.len() - w >= 4
            invariant
                0 <= s < samples@.len(),
                sample == samples@[s as int],
                0 <= w,
                forall|c: int|
                    0 <= c < counts@.len() ==> window_from_samples(
                        samples@,
                        spec_count_window(#[trigger] counts@[c]),
                    ),
            decreases sample@.len() - w,
        {
            let win = (sample[w], sample[w + 1], sample[w + 2], sample[w + 3]);
            let ghost prev_counts = counts@;
            proof {
                assert(seq![win.0, win.1, win.2, win.3] =~= samples@[s as int]@.subrange(
                    w as int,
                    w as int + 4,
                ));
                assert(window_from_samples(samples@, seq![win.0, win.1, win.2, win.3]));
            }
            bump_or_insert(&mut counts, win);
            proof {
                assert forall|c: int|
                    0 <= c < counts@.len() implies window_from_samples(
                    samples@,
                    spec_count_window(#[trigger] counts@[c]),
                ) by {
                    if counts@[c].0 == win {
                        assert(spec_count_window(counts@[c]) =~= seq![
                            win.0,
                            win.1,
                            win.2,
                            win.3,
                        ]);
                    } else {
                        let c2 = choose|c2: int|
                            0 <= c2 < prev_counts.len() && (#[trigger] prev_counts[c2]).0
                                == counts@[c].0;
                        assert(spec_count_window(counts@[c]) =~= spec_count_window(
                            prev_counts[c2],
                        ));
                    }
                }
            }
            w = w + 1;
        }
        s = s + 1;
    }
    let mut dict: Vec<u8> = Vec::new();
    let mut taken: usize = 0;
    while taken < 255 && counts.len() > 0
        invariant
            0 <= taken <= 255,
            dict@.len() == 4 * taken,
            forall|e: int|
                0 <= e < taken ==> window_from_samples(
                    samples@,
                    #[trigger] dict@.subrange(4 * e, 4 * e + 4),
                ),
            forall|c: int|
                0 <= c < counts@.len() ==> window_from_samples(
                    samples@,
                    spec_count_window(#[trigger] counts@[c]),
                ),
        decreases 255 - taken,
    {
        let mut best: usize = 0;
        let mut c: usize = 1;
        while c < counts.len()
            invariant
                0 <= best < counts@.len(),
                counts@.len() >= 1,
                0 <= c <= counts@.len(),
            decreases counts@.len() - c,
        {
            if counts[c].1 > counts[best].1 {
                best = c;
            }
            c = c + 1;
        }
        let ghost prev_counts = counts@;
        let picked = counts.remove(best);
        let win = picked.0;
        let ghost prev_dict = dict@;
        dict.push(win.0);
        dict.push(win.1);
        dict.push(win.2);
        dict.push(win.3);
        proof {
            assert(dict@ =~= prev_dict + seq![win.0, win.1, win.2, win.3]);
            assert(spec_count_window(prev_counts[best as int]) =~= seq![
                win.0,
                win.1,
                win.2,
                win.3,
            ]);
            assert forall|e: int|
                0 <= e < taken + 1 implies window_from_samples(
                samples@,
                #[trigger] dict@.subrange(4 * e, 4 * e + 4),
            ) by {
                if e < taken {
                    assert(dict@.subrange(4 * e, 4 * e + 4) =~= prev_dict.subrange(
                        4 * e,
                        4 * e + 4,
                    ));
                } else {
                    assert(dict@.subrange(4 * e, 4 * e + 4) =~= seq![
                        win.0,
                        win.1,
                        win.2,
                        win.3,
                    ]);
                }
            }
            assert forall|c2: int|
                0 <= c2 < counts@.len() implies window_from_samples(
                samples@,
                spec_count_window(#[trigger] counts@[c2]),
            ) by {
                if c2 < best {
                    assert(counts@[c2] == prev_counts[c2]);
                } else {
                    assert(counts@[c2] == prev_counts[c2 + 1]);
                }
            }
        }
        taken = taken + 1;
    }
    dict
}

/// Bumps the count of a window, or records it with a count of one. Every
/// window held afterwards is the new one or one held before.
fn bump_or_insert(counts: &mut Vec<((u8, u8, u8, u8), u64)>, win: (u8, u8, u8, u8))
    ensures
        forall|c: int|
            0 <= c < final(counts)@.len() ==> (#[trigger] final(counts)@[c]).0 == win
                || exists|c2: int|
                0 <= c2 < old(counts)@.len() && (#[trigger] old(counts)@[c2]).0 == final(counts)@[c].0,
{
    let mut c: usize = 0;
    while c < counts.len()
        invariant
            0 <= c <= counts@.len(),
            counts@ == old(counts)@,
        decreases counts@.len() - c,
    {
        if counts[c].0.0 == win.0 && counts[c].0.1 == win.1 && counts[c].0.2 == win.2
            && counts[c].0.3 == win.3 {
            let n = counts[c].1;
            let bumped = if n < u64::MAX {
                n + 1
            } else {
                u64::MAX
            };
            counts.set(c, (win, bumped));
            return ;
        }
        c = c + 1;
    }
    counts.push((win, 1));
}

/// The Zstandard variant frames its output with the original length, so
/// decompression knows the capacity to decode into.
pub open spec fn spec_zstd_framed(data: Seq<u8>, level: int) -> Seq<u8> {
    spec_u64_to_le_bytes(data.len() as u64) + zstd_compress_of(data, level)
}

/// Decoding one Zstandard frame; a declared length over the cap fails
/// without decoding.
pub open spec fn spec_zstd_unframe(b: Seq<u8>) -> Option<Seq<u8>> {
    if b.len() < 8 {
        None
    } else if spec_u64_from_le_bytes(b.subrange(0, 8)) > MAX_DECOMPRESSED_LEN {
        None
    } else {
        zstd_decompress_of(b.skip(8), spec_u64_from_le_bytes(b.subrange(0, 8)) as int)
    }
}

/// Decoding one adaptive frame: a tag byte, then that algorithm's bytes.
pub open spec fn spec_adaptive_unframe(b: Seq<u8>) -> Option<Seq<u8>> {
    if b.len() < 1 {
        None
    } else if b[0] == 0u8 {
        Some(b.skip(1))
    } else if b[0] == 1u8 {
        spec_lz4_unframe(b.skip(1))
    } else if b[0] == 2u8 {
        spec_snappy_unframe(b.skip(1))
    } else if b[0] == 3u8 {
        spec_zstd_unframe(b.skip(1))
    } else {
        None
    }
}

/// What decompressing bytes under each algorithm yields.
pub open spec fn spec_decompress(c: Compressor, b: Seq<u8>) -> Option<Seq<u8>> {
    match c {
        Compressor::Uncompressed => Some(b),
        Compressor::Lz4 => spec_lz4_unframe(b),
        Compressor::Snappy => spec_snappy_unframe(b),
        Compressor::Zstd { level } => spec_zstd_unframe(b),
        Compressor::Adaptive { threshold_permille } => spec_adaptive_unframe(b),
        Compressor::Dictionary { dictionary } => match spec_lz4_unframe(b) {
            Some(t) => spec_dict_decode(dictionary@, t),
            None => None,
        },
    }
}

/// The inputs each algorithm is sure to compress: everything for the raw
/// and adaptive forms, anything under the cap for the rest (Zstandard also
/// wants a level within its own range).
pub open spec fn spec_compress_total(c: Compressor, len: int) -> bool {
    match c {
        Compressor::Uncompressed => true,
        Compressor::Adaptive { threshold_permille } => true,
        Compressor::Lz4 => len <= MAX_DECOMPRESSED_LEN,
        Compressor::Snappy => len <= MAX_DECOMPRESSED_LEN,
        Compressor::Zstd { level } => 0 <= level <= 22 && len <= MAX_DECOMPRESSED_LEN,
        Compressor::Dictionary { dictionary } => 2 * len <= MAX_DECOMPRESSED_LEN,
    }
}

impl Compressor {
    /// Compresses the bytes; whatever came back, decompressing it under
    /// the same algorithm recovers exactly the input. Success is owed on
    /// every input `spec_compress_total` admits.
    pub fn compress(&self, data: &[u8]) -> (r: PlexResult<Vec<u8>>)
        ensures
            match r {
                Ok(v) => spec_decompress(*self, v@) == Some(data@),
                Err(e) => e is Compression,
            },
            spec_compress_total(*self, data@.len() as int) ==> r is Ok,
    {
        match self {
            Compressor::Uncompressed => Ok(slice_to_vec(data)),
            Compressor::Lz4 => {
                if data.len() > MAX_DECOMPRESSED_LEN {
                    return Err(PlexError::Compression("value too large to compress".to_owned()));
                }
                Ok(lz4_compress(data))
            },
            Compressor::Snappy => {
                if data.len() > MAX_DECOMPRESSED_LEN {
                    return Err(PlexError::Compression("value too large to compress".to_owned()));
                }
                match snappy_compress(data) {
                    Some(v) => Ok(v),
                    None => Err(PlexError::Compression("Snappy compression failed".to_owned())),
                }
            },
            Compressor::Zstd { level } => {
                if data.len() > MAX_DECOMPRESSED_LEN {
                    return Err(PlexError::Compression("value too large to compress".to_owned()));
                }
                if *level < 0 || *level > 22 {
                    return Err(PlexError::Compression("compression level out of range".to_owned()));
                }
                match zstd_compress(data, *level) {
                    Some(mut v) => {
                        let mut out = u64_to_le_bytes(data.len() as u64);
                        out.append(&mut v);
                        proof {
                            lemma_auto_spec_u64_to_from_le_bytes();
                            assert(out@.subrange(0, 8) =~= spec_u64_to_le_bytes(
                                data@.len() as u64,
                            ));
                            assert(out@.skip(8) =~= zstd_compress_of(data@, *level as int));
                        }
                        Ok(out)
                    },
                    None => Err(PlexError::Compression("Zstd compression failed".to_owned())),
                }
            },
            Compressor::Dictionary { dictionary } => {
                let substituted = dict_encode(dictionary, data);
                if substituted.len() > MAX_DECOMPRESSED_LEN {
                    return Err(PlexError::Compression("value too large to compress".to_owned()));
                }
                let out = lz4_compress(substituted.as_slice());
                Ok(out)
            },
            Compressor::Adaptive { threshold_permille } => {
                let mut best: Vec<u8> = slice_to_vec(data);
                let mut best_tag: u8 = 0;
                proof {
                    assert((seq![0u8] + data@).skip(1) =~= data@);
                    assert(spec_adaptive_unframe(seq![best_tag] + best@) == Some(data@));
                }
                if data.len() <= MAX_DECOMPRESSED_LEN {
                    let lz = lz4_compress(data);
                    if accepts(lz.len(), data.len(), *threshold_permille) && lz.len()
                        < best.len() {
                        proof {
                            assert((seq![1u8] + lz@).skip(1) =~= lz@);
                        }
                        best = lz;
                        best_tag = 1;
                    }
                    proof {
                        assert(spec_adaptive_unframe(seq![best_tag] + best@) == Some(data@));
                    }
                    match snappy_compress(data) {
                        Some(sn) => {
                            if accepts(sn.len(), data.len(), *threshold_permille) && sn.len()
                                < best.len() {
                                proof {
                                    assert((seq![2u8] + sn@).skip(1) =~= sn@);
                                }
                                best = sn;
                                best_tag = 2;
                            }
                        },
                        None => {},
                    }
                    proof {
                        assert(spec_adaptive_unframe(seq![best_tag] + best@) == Some(data@));
                    }
                    match zstd_compress(data, 3) {
                        Some(mut z) => {
                            let mut framed = u64_to_le_bytes(data.len() as u64);
                            framed.append(&mut z);
                            proof {
                                lemma_auto_spec_u64_to_from_le_bytes();
                                assert(framed@.subrange(0, 8) =~= spec_u64_to_le_bytes(
                                    data@.len() as u64,
                                ));
                                assert(framed@.skip(8) =~= zstd_compress_of(data@, 3));
                            }
                            if accepts(framed.len(), data.len(), *threshold_permille)
                                && framed.len() < best.len() {
                                proof {
                                    assert((seq![3u8] + framed@).skip(1) =~= framed@);
                                }
                                best = framed;
                                best_tag = 3;
                            }
                        },
                        None => {},
                    }
                    proof {
                        assert(spec_adaptive_unframe(seq![best_tag] + best@) == Some(data@));
                    }
                }
                let mut out: Vec<u8> = Vec::new();
                out.push(best_tag);
                let ghost best_bytes = best@;
                let mut best_mut = best;
                out.append(&mut best_mut);
                proof {
                    assert(out@ =~= seq![best_tag] + best_bytes);
                }
                Ok(out)
            },
        }
    }

    /// Decompresses bytes, exactly as `spec_decompress` describes; bytes
    /// that do not decode fail.
    pub fn decompress(&self, data: &[u8]) -> (r: PlexResult<Vec<u8>>)
        ensures
            match r {
                Ok(v) => spec_decompress(*self, data@) == Some(v@),
                Err(e) => e is Compression && spec_decompress(*self, data@) is None,
            },
    {
        match self {
            Compressor::Uncompressed => Ok(slice_to_vec(data)),
            Compressor::Lz4 => match lz4_unframe(data) {
                Some(v) => Ok(v),
                None => Err(PlexError::Compression("LZ4 decompression failed".to_owned())),
            },
            Compressor::Snappy => match snappy_unframe(data) {
                Some(v) => Ok(v),
                None => Err(PlexError::Compression("Snappy decompression failed".to_owned())),
            },
            Compressor::Zstd { level } => zstd_unframe(data),
            Compressor::Dictionary { dictionary } => {
                let tokens = match lz4_unframe(data) {
                    Some(t) => t,
                    None => {
                        return Err(
                            PlexError::Compression("LZ4 decompression failed".to_owned()),
                        );
                    },
                };
                match dict_decode(dictionary, tokens.as_slice()) {
                    Some(v) => Ok(v),
                    None => Err(
                        PlexError::Compression("dictionary expansion failed".to_owned()),
                    ),
                }
            },
            Compressor::Adaptive { threshold_permille } => {
                if data.len() < 1 {
                    return Err(PlexError::Compression("Empty compressed data".to_owned()));
                }
                let tag = *vstd::slice::slice_index_get(data, 0);
                let rest = slice_subrange(data, 1, data.len());
                proof {
                    assert(rest@ =~= data@.skip(1));
                }
                if tag == 0u8 {
                    Ok(slice_to_vec(rest))
                } else if tag == 1u8 {
                    match lz4_unframe(rest) {
                        Some(v) => Ok(v),
                        None => Err(
                            PlexError::Compression("LZ4 decompression failed".to_owned()),
                        ),
                    }
                } else if tag == 2u8 {
                    match snappy_unframe(rest) {
                        Some(v) => Ok(v),
                        None => Err(
                            PlexError::Compression("Snappy decompression failed".to_owned()),
                        ),
                    }
                } else if tag == 3u8 {
                    zstd_unframe(rest)
                } else {
                    Err(PlexError::Compression("Unknown algorithm".to_owned()))
                }
            },
        }
    }
}

/// Whether a compressed size beats the threshold share of the original.
fn accepts(compressed: usize, original: usize, threshold_permille: u32) -> (r: bool)
    ensures
        r == ((compressed as int) * 1000 < (threshold_permille as int) * original),
{
    proof {
        assert((threshold_permille as int) * (original as int)
            < 0x1_0000_0000_0000_0000_0000_0000) by (nonlinear_arith)
            requires
                threshold_permille < 0x1_0000_0000,
                original < 0x1_0000_0000_0000_0000,
        ;
    }
    (compressed as u128) * 1000 < (threshold_permille as u128) * (original as u128)
}

/// Decodes one length-framed Zstandard block.
fn zstd_unframe(data: &[u8]) -> (r: PlexResult<Vec<u8>>)
    ensures
        match r {
            Ok(v) => spec_zstd_unframe(data@) == Some(v@),
            Err(e) => e is Compression && spec_zstd_unframe(data@) is None,
        },
{
    if data.len() < 8 {
        return Err(PlexError::Compression("Zstd frame too short".to_owned()));
    }
    let cap64 = u64_from_le_bytes(slice_subrange(data, 0, 8));
    let rest = slice_subrange(data, 8, data.len());
    proof {
        assert(rest@ =~= data@.skip(8));
    }
    if cap64 > MAX_DECOMPRESSED_LEN as u64 {
        return Err(PlexError::Compression("Zstd frame too large".to_owned()));
    }
    match zstd_decompress(rest, cap64 as usize) {
        Some(v) => Ok(v),
        None => Err(PlexError::Compression("Zstd decompression failed".to_owned())),
    }
}

} // verus!
