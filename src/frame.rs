//! Wire framing: handshake tokens, the request header, big-endian lengths,
//! the response frame and the plan of body chunks.

use crate::digest::{digest, sha256_of, DIGEST_LEN};
use vstd::prelude::*;

verus! {

/// Length of the handshake token and of its acknowledgement.
pub const TOKEN_LEN: usize = 4;

/// Length of a request header.
pub const HEADER_LEN: usize = 8;

/// Length of a big-endian length field.
pub const LENGTH_LEN: usize = 4;

/// Largest body chunk read at once (1 MiB).
pub const MAX_CHUNK: usize = 1048576;

/// Tag byte of JPEG output: ASCII `J`.
pub const TAG_JPEG: u8 = 74;

/// Tag byte of PNG output: ASCII `P`.
pub const TAG_PNG: u8 = 80;

/// Tag byte of WebP output: ASCII `W`.
pub const TAG_WEBP: u8 = 87;

/// Tag byte of AVIF output: ASCII `A`.
pub const TAG_AVIF: u8 = 65;

/// Highest accepted quality.
pub const MAX_QUALITY: u8 = 100;

/// Highest accepted speed.
pub const MAX_SPEED: u8 = 10;

/// The token that opens a connection: ASCII `comi`.
pub open spec fn handshake_token() -> Seq<u8> {
    seq![99u8, 111u8, 109u8, 105u8]
}

/// The token that accepts a connection: ASCII `conv`.
pub open spec fn accept_token() -> Seq<u8> {
    seq![99u8, 111u8, 110u8, 118u8]
}

/// The acknowledgement sent after each body chunk: ASCII `ok`.
pub open spec fn ack_token() -> Seq<u8> {
    seq![111u8, 107u8]
}

/// Returns the accept token.
pub fn accept_bytes() -> (r: Vec<u8>)
    ensures
        r@ == accept_token(),
{
    let r = vec![99u8, 111u8, 110u8, 118u8];
    assert(r@ =~= accept_token());
    r
}

/// Returns the chunk acknowledgement.
pub fn ack_bytes() -> (r: Vec<u8>)
    ensures
        r@ == ack_token(),
{
    let r = vec![111u8, 107u8];
    assert(r@ =~= ack_token());
    r
}

/// Whether `b` is exactly the handshake token.
pub fn is_handshake(b: &[u8]) -> (r: bool)
    ensures
        r == (b@ == handshake_token()),
{
    let ok = b.len() == TOKEN_LEN && b[0] == 99u8 && b[1] == 111u8 && b[2] == 109u8
        && b[3] == 105u8;
    if ok {
        assert(b@ =~= handshake_token());
    }
    ok
}

/// Target encoding of a conversion.
#[derive(Clone, Copy, Debug, PartialEq, Eq, Structural)]
pub enum ImageFormat {
    Jpeg,
    Png,
    Webp,
    Avif,
}

/// The format that a header tag byte selects: `J`, `P`, `W` or `A`.
pub open spec fn format_of_tag(tag: u8) -> Option<ImageFormat> {
    if tag == TAG_JPEG {
        Some(ImageFormat::Jpeg)
    } else if tag == TAG_PNG {
        Some(ImageFormat::Png)
    } else if tag == TAG_WEBP {
        Some(ImageFormat::Webp)
    } else if tag == TAG_AVIF {
        Some(ImageFormat::Avif)
    } else {
        None
    }
}

/// The tag byte of a format.
pub open spec fn tag_of_format(f: ImageFormat) -> u8 {
    match f {
        ImageFormat::Jpeg => TAG_JPEG,
        ImageFormat::Png => TAG_PNG,
        ImageFormat::Webp => TAG_WEBP,
        ImageFormat::Avif => TAG_AVIF,
    }
}

/// Decodes a format tag byte; any other byte than the four tags is refused.
pub fn format_from_tag(tag: u8) -> (r: Option<ImageFormat>)
    ensures
        r == format_of_tag(tag),
{
    if tag == TAG_JPEG {
        Some(ImageFormat::Jpeg)
    } else if tag == TAG_PNG {
        Some(ImageFormat::Png)
    } else if tag == TAG_WEBP {
        Some(ImageFormat::Webp)
    } else if tag == TAG_AVIF {
        Some(ImageFormat::Avif)
    } else {
        None
    }
}

/// Encodes a format as its tag byte.
pub fn format_tag(f: ImageFormat) -> (r: u8)
    ensures
        r == tag_of_format(f),
        format_of_tag(r) == Some(f),
{
    match f {
        ImageFormat::Jpeg => TAG_JPEG,
        ImageFormat::Png => TAG_PNG,
        ImageFormat::Webp => TAG_WEBP,
        ImageFormat::Avif => TAG_AVIF,
    }
}

/// `v` brought into `0..=hi`.
pub open spec fn clamped(v: u8, hi: u8) -> u8 {
    if v > hi {
        hi
    } else {
        v
    }
}

/// Clamps a quality byte into `0..=100`.
pub fn clamp_quality(v: u8) -> (r: u8)
    ensures
        r == clamped(v, MAX_QUALITY),
{
    if v > MAX_QUALITY {
        MAX_QUALITY
    } else {
        v
    }
}

/// Clamps a speed byte into `0..=10`.
pub fn clamp_speed(v: u8) -> (r: u8)
    ensures
        r == clamped(v, MAX_SPEED),
{
    if v > MAX_SPEED {
        MAX_SPEED
    } else {
        v
    }
}

/// Clamping lands in the valid range, and clamping again changes nothing.
pub proof fn lemma_clamp_idempotent(v: u8)
    ensures
        clamped(v, MAX_QUALITY) <= MAX_QUALITY,
        clamped(clamped(v, MAX_QUALITY), MAX_QUALITY) == clamped(v, MAX_QUALITY),
        clamped(v, MAX_SPEED) <= MAX_SPEED,
        clamped(clamped(v, MAX_SPEED), MAX_SPEED) == clamped(v, MAX_SPEED),
{
}

/// The unsigned number that four bytes hold, most significant first.
pub open spec fn be_value(b: Seq<u8>) -> int {
    b[0] as int * 16777216 + b[1] as int * 65536 + b[2] as int * 256 + b[3] as int
}

/// The four bytes of `n`, most significant first.
pub open spec fn be_bytes(n: u32) -> Seq<u8> {
    seq![
        (n / 16777216) as u8,
        (n / 65536 % 256) as u8,
        (n / 256 % 256) as u8,
        (n % 256) as u8,
    ]
}

/// Reading back the four bytes of a number gives the number.
pub proof fn lemma_be_round_trip(n: u32)
    ensures
        be_bytes(n).len() == 4,
        be_value(be_bytes(n)) == n,
{
    let b = be_bytes(n);
    let x = n as int;
    assert(b[0] as int == x / 16777216);
    assert(b[1] as int == x / 65536 % 256);
    assert(b[2] as int == x / 256 % 256);
    assert(b[3] as int == x % 256);
    assert(x / 16777216 * 16777216 + x / 65536 % 256 * 65536 + x / 256 % 256 * 256 + x % 256 == x)
        by (nonlinear_arith)
        requires
            0 <= x < 4294967296,
    ;
}

/// Reads a big-endian `u32` from four bytes.
pub fn decode_be_u32(b0: u8, b1: u8, b2: u8, b3: u8) -> (r: u32)
    ensures
        r as int == be_value(seq![b0, b1, b2, b3]),
{
    (b0 as u32) * 16777216 + (b1 as u32) * 65536 + (b2 as u32) * 256 + (b3 as u32)
}

/// Writes `n` as four big-endian bytes.
pub fn encode_be_u32(n: u32) -> (r: Vec<u8>)
    ensures
        r@ == be_bytes(n),
{
    let r = vec![(n / 16777216) as u8, (n / 65536 % 256) as u8, (n / 256 % 256) as u8, (n % 256) as u8];
    assert(r@ =~= be_bytes(n));
    r
}

/// The parameters that a request header carries.
#[derive(Clone, Copy, Debug, PartialEq, Eq, Structural)]
pub struct RequestHeader {
    pub format: ImageFormat,
    pub quality: u8,
    pub speed: u8,
    pub length: u32,
}

/// What an 8-byte header decodes to: `None` for another length or an
/// unknown format tag; quality and speed are clamped, never refused.
pub open spec fn header_of(b: Seq<u8>) -> Option<RequestHeader> {
    if b.len() == HEADER_LEN && format_of_tag(b[0]) is Some {
        Some(
            RequestHeader {
                format: format_of_tag(b[0])->Some_0,
                quality: clamped(b[1], MAX_QUALITY),
                speed: clamped(b[2], MAX_SPEED),
                length: be_value(b.subrange(4, 8)) as u32,
            },
        )
    } else {
        None
    }
}

/// The bytes of a header: tag, quality, speed, a reserved zero byte, and the
/// big-endian payload length.
pub open spec fn header_bytes(h: RequestHeader) -> Seq<u8> {
    seq![tag_of_format(h.format), h.quality, h.speed, 0u8] + be_bytes(h.length)
}

/// Decodes a request header.
pub fn decode_header(b: &[u8]) -> (r: Option<RequestHeader>)
    ensures
        r == header_of(b@),
{
    if b.len() != HEADER_LEN {
        return None;
    }
    match format_from_tag(b[0]) {
        None => None,
        Some(format) => {
            let length = decode_be_u32(b[4], b[5], b[6], b[7]);
            assert(b@.subrange(4, 8) =~= seq![b@[4], b@[5], b@[6], b@[7]]);
            Some(
                RequestHeader {
                    format,
                    quality: clamp_quality(b[1]),
                    speed: clamp_speed(b[2]),
                    length,
                },
            )
        },
    }
}

/// Encodes a request header, as a client sends it.
pub fn encode_header(h: RequestHeader) -> (r: Vec<u8>)
    ensures
        r@ == header_bytes(h),
{
    let mut r = vec![format_tag(h.format), h.quality, h.speed, 0u8];
    let mut len = encode_be_u32(h.length);
    r.append(&mut len);
    assert(r@ =~= header_bytes(h));
    r
}

/// A header with in-range quality and speed decodes to itself.
pub proof fn lemma_header_round_trip(h: RequestHeader)
    requires
        h.quality <= MAX_QUALITY,
        h.speed <= MAX_SPEED,
    ensures
        header_of(header_bytes(h)) == Some(h),
{
    lemma_be_round_trip(h.length);
    let b = header_bytes(h);
    assert(b.subrange(4, 8) =~= be_bytes(h.length));
}

/// The response frame for `output` with digest `d`: the big-endian output
/// length, the digest, then the output bytes.
pub open spec fn response_frame(output: Seq<u8>, d: Seq<u8>) -> Seq<u8>
    recommends
        output.len() <= u32::MAX,
{
    be_bytes(output.len() as u32) + d + output
}

/// The length, digest and output that a response frame holds: `None` when the
/// frame is shorter than its fixed part or its length field disagrees with
/// the number of output bytes.
pub open spec fn response_parts(b: Seq<u8>) -> Option<(u32, Seq<u8>, Seq<u8>)> {
    let fixed = LENGTH_LEN + DIGEST_LEN;
    if b.len() >= fixed && b.len() - fixed == be_value(b.subrange(0, 4)) {
        Some((be_value(b.subrange(0, 4)) as u32, b.subrange(4, fixed as int), b.subrange(fixed as int, b.len() as int)))
    } else {
        None
    }
}

/// Builds the response frame for `output`, with the digest computed here.
/// `None` when the output is too long for a 32-bit length field.
pub fn encode_response(output: &[u8]) -> (r: Option<Vec<u8>>)
    ensures
        r is Some <==> output@.len() <= u32::MAX,
        r matches Some(v) ==> v@ == response_frame(output@, sha256_of(output@)),
        sha256_of(output@).len() == DIGEST_LEN,
{
    let d = digest(output);
    if output.len() > 4294967295usize {
        return None;
    }
    let mut r = encode_be_u32(output.len() as u32);
    r.extend_from_slice(d.as_slice());
    r.extend_from_slice(output);
    assert(r@ =~= response_frame(output@, sha256_of(output@)));
    Some(r)
}

/// A decoded response frame.
pub struct Response {
    pub length: u32,
    pub digest: Vec<u8>,
    pub output: Vec<u8>,
}

/// Copies `b[lo..hi]` into a new vector.
fn copy_range(b: &[u8], lo: usize, hi: usize) -> (r: Vec<u8>)
    requires
        lo <= hi <= b@.len(),
    ensures
        r@ == b@.subrange(lo as int, hi as int),
{
    let mut r: Vec<u8> = Vec::with_capacity(hi - lo);
    let mut i: usize = lo;
    while i < hi
        invariant
            lo <= i <= hi <= b@.len(),
            r@ == b@.subrange(lo as int, i as int),
        decreases hi - i,
    {
        r.push(b[i]);
        assert(r@ =~= b@.subrange(lo as int, i + 1));
        i = i + 1;
    }
    r
}

/// Splits a response frame into its length, digest and output.
pub fn decode_response(b: &[u8]) -> (r: Option<Response>)
    ensures
        r is Some <==> response_parts(b@) is Some,
        r matches Some(resp) ==> response_parts(b@) == Some(
            (resp.length, resp.digest@, resp.output@),
        ),
{
    let fixed: usize = LENGTH_LEN + DIGEST_LEN;
    if b.len() < fixed {
        return None;
    }
    let length = decode_be_u32(b[0], b[1], b[2], b[3]);
    assert(b@.subrange(0, 4) =~= seq![b@[0], b@[1], b@[2], b@[3]]);
    if b.len() - fixed != length as usize {
        return None;
    }
    let digest = copy_range(b, LENGTH_LEN, fixed);
    let output = copy_range(b, fixed, b.len());
    Some(Response { length, digest, output })
}

/// Decoding the frame that the encoder writes gives back the same length,
/// digest and output bytes.
pub proof fn lemma_response_round_trip(output: Seq<u8>, d: Seq<u8>)
    requires
        output.len() <= u32::MAX,
        d.len() == DIGEST_LEN,
    ensures
        response_parts(response_frame(output, d)) == Some((output.len() as u32, d, output)),
{
    let n = output.len() as u32;
    lemma_be_round_trip(n);
    let b = response_frame(output, d);
    assert(b.subrange(0, 4) =~= be_bytes(n));
    assert(b.subrange(4, 36) =~= d);
    assert(b.subrange(36, b.len() as int) =~= output);
}

/// The sizes of the reads that take in a body of `len` bytes, `c` bytes at
/// most at a time, in order.
pub open spec fn chunk_plan(len: nat, c: nat) -> Seq<nat>
    decreases len,
{
    if len == 0 || c == 0 {
        Seq::empty()
    } else if len <= c {
        seq![len]
    } else {
        seq![c] + chunk_plan((len - c) as nat, c)
    }
}

/// A body of `len` bytes takes `ceil(len / c)` chunks, each of one to `c`
/// bytes; one acknowledgement is sent per chunk.
pub proof fn lemma_chunk_count(len: nat, c: nat)
    requires
        c > 0,
    ensures
        chunk_plan(len, c).len() == (len + c - 1) / (c as int),
        forall|i: int| 0 <= i < chunk_plan(len, c).len() ==> 0 < #[trigger] chunk_plan(len, c)[i] <= c,
    decreases len,
{
    if len == 0 {
        let ci = c as int;
        assert((ci - 1) / ci == 0) by (nonlinear_arith)
            requires
                ci > 0,
        ;
    } else if len <= c {
        let (l, ci) = (len as int, c as int);
        assert((l + ci - 1) / ci == 1) by (nonlinear_arith)
            requires
                0 < l <= ci,
        ;
    } else {
        let rest = (len - c) as nat;
        lemma_chunk_count(rest, c);
        let (l, r, ci) = (len as int, rest as int, c as int);
        assert((l + ci - 1) / ci == (r + ci - 1) / ci + 1) by (nonlinear_arith)
            requires
                ci > 0,
                r == l - ci,
        ;
        let p = chunk_plan(len, c);
        assert forall|i: int| 0 <= i < p.len() implies 0 < #[trigger] p[i] <= c by {
            if i > 0 {
                assert(p[i] == chunk_plan(rest, c)[i - 1]);
            }
        }
    }
}

/// Size of the next body read when `remaining` bytes are still due.
pub fn next_chunk_len(remaining: usize) -> (r: usize)
    ensures
        r == if remaining <= MAX_CHUNK { remaining } else { MAX_CHUNK },
        remaining > 0 ==> r == chunk_plan(remaining as nat, MAX_CHUNK as nat)[0],
{
    if remaining <= MAX_CHUNK {
        remaining
    } else {
        MAX_CHUNK
    }
}

} // verus!
