//! The byte protocol between the application and its speech-recognition
//! worker process.
//!
//! A request is a little-endian `u32` sample count followed by each sample's
//! IEEE-754 bits as a little-endian `u32`.  A reply is a little-endian `u32`
//! byte count followed by the transcript in UTF-8.
use vstd::prelude::*;
use vstd::bytes::{
    lemma_auto_spec_u32_to_from_le_bytes, spec_u32_from_le_bytes, spec_u32_to_le_bytes,
    u32_from_le_bytes, u32_to_le_bytes,
};
use vstd::string::StringSliceAdditionalSpecFns;
use vstd::utf8::{decode_utf8, encode_utf8, encode_utf8_decode_utf8, encode_utf8_valid_utf8, valid_utf8};
use crate::text::byte_len;

verus! {

/// Each word as four little-endian bytes, in order.
pub open spec fn le_words(ws: Seq<u32>) -> Seq<u8>
    decreases ws.len(),
{
    if ws.len() == 0 {
        Seq::empty()
    } else {
        spec_u32_to_le_bytes(ws[0]) + le_words(ws.drop_first())
    }
}

/// The words that consecutive groups of four little-endian bytes spell; a
/// trailing group of fewer than four bytes is ignored.
pub open spec fn decode_le_words(bytes: Seq<u8>) -> Seq<u32>
    decreases bytes.len(),
{
    if bytes.len() < 4 {
        Seq::empty()
    } else {
        seq![spec_u32_from_le_bytes(bytes.take(4))] + decode_le_words(bytes.skip(4))
    }
}

/// The request that carries the given samples (by their bit patterns); the
/// count is written as the low 32 bits of the number of samples.
pub open spec fn audio_request(sample_bits: Seq<u32>) -> Seq<u8> {
    spec_u32_to_le_bytes(sample_bits.len() as u32) + le_words(sample_bits)
}

/// The reply that carries the given transcript; the count is written as the
/// low 32 bits of its UTF-8 length.
pub open spec fn text_reply(text: Seq<char>) -> Seq<u8> {
    spec_u32_to_le_bytes(encode_utf8(text).len() as u32) + encode_utf8(text)
}

pub proof fn lemma_le_words_len(ws: Seq<u32>)
    ensures
        le_words(ws).len() == 4 * ws.len(),
    decreases ws.len(),
{
    lemma_auto_spec_u32_to_from_le_bytes();
    if ws.len() > 0 {
        lemma_le_words_len(ws.drop_first());
    }
}

pub proof fn lemma_le_words_push(ws: Seq<u32>, w: u32)
    ensures
        le_words(ws.push(w)) == le_words(ws) + spec_u32_to_le_bytes(w),
    decreases ws.len(),
{
    if ws.len() == 0 {
        assert(ws.push(w).drop_first() =~= Seq::<u32>::empty());
        assert(ws.push(w)[0] == w);
        assert(le_words(ws.push(w).drop_first()) =~= Seq::<u8>::empty());
        assert(le_words(ws) =~= Seq::<u8>::empty());
        assert(le_words(ws.push(w)) =~= le_words(ws) + spec_u32_to_le_bytes(w));
    } else {
        assert(ws.push(w).drop_first() =~= ws.drop_first().push(w));
        lemma_le_words_push(ws.drop_first(), w);
        assert(le_words(ws.push(w)) =~= le_words(ws) + spec_u32_to_le_bytes(w));
    }
}

/// Reading the words back from their bytes gives the words.
pub proof fn lemma_decode_le_words(ws: Seq<u32>)
    ensures
        decode_le_words(le_words(ws)) == ws,
    decreases ws.len(),
{
    lemma_auto_spec_u32_to_from_le_bytes();
    let b = le_words(ws);
    if ws.len() == 0 {
        assert(decode_le_words(b) =~= ws);
    } else {
        lemma_decode_le_words(ws.drop_first());
        lemma_le_words_len(ws.drop_first());
        let head = spec_u32_to_le_bytes(ws[0]);
        assert(b.take(4) =~= head);
        assert(b.skip(4) =~= le_words(ws.drop_first()));
        assert(decode_le_words(b) =~= ws);
    }
}

/// What the worker reads from a request is what the application wrote: the
/// sample count and every sample's bits (for fewer than 2^32 samples).
pub proof fn lemma_audio_request_roundtrip(sample_bits: Seq<u32>)
    requires
        sample_bits.len() <= u32::MAX,
    ensures
        ({
            let req = audio_request(sample_bits);
            &&& spec_u32_from_le_bytes(req.take(4)) == sample_bits.len()
            &&& req.skip(4).len() == 4 * sample_bits.len()
            &&& decode_le_words(req.skip(4)) == sample_bits
        }),
{
    lemma_auto_spec_u32_to_from_le_bytes();
    let req = audio_request(sample_bits);
    let head = spec_u32_to_le_bytes(sample_bits.len() as u32);
    assert(req.take(4) =~= head);
    assert(req.skip(4) =~= le_words(sample_bits));
    lemma_le_words_len(sample_bits);
    lemma_decode_le_words(sample_bits);
}

/// What the application reads from a reply is what the worker wrote: the
/// byte count, valid UTF-8, and the transcript itself (for transcripts
/// shorter than 2^32 bytes).
pub proof fn lemma_text_reply_roundtrip(text: Seq<char>)
    requires
        encode_utf8(text).len() <= u32::MAX,
    ensures
        ({
            let reply = text_reply(text);
            &&& spec_u32_from_le_bytes(reply.take(4)) == encode_utf8(text).len()
            &&& reply.skip(4).len() == encode_utf8(text).len()
            &&& valid_utf8(reply.skip(4))
            &&& decode_utf8(reply.skip(4)) == text
        }),
{
    lemma_auto_spec_u32_to_from_le_bytes();
    let reply = text_reply(text);
    let head = spec_u32_to_le_bytes(encode_utf8(text).len() as u32);
    assert(reply.take(4) =~= head);
    assert(reply.skip(4) =~= encode_utf8(text));
    encode_utf8_valid_utf8(text);
    encode_utf8_decode_utf8(text);
}

fn append_bytes(out: &mut Vec<u8>, bytes: &[u8])
    ensures
        final(out)@ == old(out)@ + bytes@,
{
    let mut i: usize = 0;
    while i < bytes.len()
        invariant
            0 <= i <= bytes@.len(),
            out@ == old(out)@ + bytes@.take(i as int),
        decreases bytes@.len() - i,
    {
        out.push(bytes[i]);
        assert(bytes@.take(i + 1) =~= bytes@.take(i as int).push(bytes@[i as int]));
        i = i + 1;
    }
    assert(bytes@.take(bytes@.len() as int) =~= bytes@);
}

/// The request bytes for a block of samples, given by their bit patterns.
pub fn encode_audio_request(sample_bits: &[u32]) -> (r: Vec<u8>)
    ensures
        r@ == audio_request(sample_bits@),
{
    let n = sample_bits.len();
    #[verifier::truncate]
    let count = n as u32;
    let mut out = u32_to_le_bytes(count);
    let ghost header = out@;
    let mut i: usize = 0;
    assert(sample_bits@.take(0) =~= Seq::<u32>::empty());
    while i < n
        invariant
            n == sample_bits@.len(),
            0 <= i <= n,
            out@ == header + le_words(sample_bits@.take(i as int)),
        decreases n - i,
    {
        let word = u32_to_le_bytes(sample_bits[i]);
        append_bytes(&mut out, &word);
        proof {
            assert(sample_bits@.take(i + 1) =~= sample_bits@.take(i as int).push(
                sample_bits@[i as int],
            ));
            lemma_le_words_push(sample_bits@.take(i as int), sample_bits@[i as int]);
        }
        i = i + 1;
    }
    assert(sample_bits@.take(n as int) =~= sample_bits@);
    assert(header == spec_u32_to_le_bytes(sample_bits@.len() as u32));
    out
}

/// The number that a four-byte little-endian prefix carries.
pub fn decode_length_prefix(header: &[u8]) -> (n: usize)
    requires
        header@.len() == 4,
    ensures
        n == spec_u32_from_le_bytes(header@),
{
    u32_from_le_bytes(header) as usize
}

/// The words spelled by consecutive groups of four little-endian bytes.
pub fn decode_sample_words(bytes: &[u8]) -> (ws: Vec<u32>)
    ensures
        ws@ == decode_le_words(bytes@),
{
    let len = bytes.len();
    let mut out: Vec<u32> = Vec::new();
    let mut i: usize = 0;
    assert(bytes@.skip(0) =~= bytes@);
    while len - i >= 4
        invariant
            len == bytes@.len(),
            0 <= i <= len,
            out@ + decode_le_words(bytes@.skip(i as int)) == decode_le_words(bytes@),
        decreases len - i,
    {
        let mut group: Vec<u8> = Vec::new();
        group.push(bytes[i]);
        group.push(bytes[i + 1]);
        group.push(bytes[i + 2]);
        group.push(bytes[i + 3]);
        let ghost rest = bytes@.skip(i as int);
        assert(group@ =~= rest.take(4));
        let w = u32_from_le_bytes(&group);
        let ghost old_out = out@;
        out.push(w);
        assert(rest.skip(4) =~= bytes@.skip(i + 4));
        assert(out@ + decode_le_words(bytes@.skip(i + 4)) =~= old_out + decode_le_words(rest));
        i = i + 4;
    }
    assert(decode_le_words(bytes@.skip(i as int)) =~= Seq::<u32>::empty());
    assert(out@ + Seq::<u32>::empty() =~= out@);
    out
}

/// The reply bytes that carry a transcript.
pub fn encode_text_reply(text: &str) -> (r: Vec<u8>)
    ensures
        r@ == text_reply(text@),
{
    let n = byte_len(text);
    #[verifier::truncate]
    let count = n as u32;
    let mut out = u32_to_le_bytes(count);
    let bytes = text.as_bytes();
    append_bytes(&mut out, bytes);
    assert(text.spec_bytes() == encode_utf8(text@));
    out
}

#[verifier::external_type_specification]
#[verifier::external_body]
pub struct ExFromUtf8Error(std::string::FromUtf8Error);

/// Wraps `String::from_utf8`.  Claims: it succeeds exactly on valid UTF-8,
/// and then the string holds the characters those bytes encode.
#[verifier::external_body]
fn string_from_utf8(bytes: Vec<u8>) -> (r: Result<String, std::string::FromUtf8Error>)
    ensures
        r is Ok <==> valid_utf8(bytes@),
        r matches Ok(s) ==> s@ == decode_utf8(bytes@),
{
    String::from_utf8(bytes)
}

/// Why a reply could not be read.
pub enum ReplyError {
    /// The transcript bytes are not valid UTF-8.
    InvalidUtf8(std::string::FromUtf8Error),
}

/// The transcript carried by the payload of a reply.
pub fn decode_text_reply(payload: Vec<u8>) -> (r: Result<String, ReplyError>)
    ensures
        r is Ok <==> valid_utf8(payload@),
        r matches Ok(s) ==> s@ == decode_utf8(payload@),
{
    match string_from_utf8(payload) {
        Ok(s) => Ok(s),
        Err(e) => Err(ReplyError::InvalidUtf8(e)),
    }
}

} // verus!
