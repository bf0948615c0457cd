//! TCP framing: `[header_len: u32 BE][data_len: u32 BE][header JSON bytes][raw data]`.
//!
//! The frame is assembled in a `bytes::BytesMut`, as the stream writer sends it;
//! reading a frame first reads the eight-byte prefix, checks both lengths
//! against their limits, then reads the header and the data.
use bytes::BufMut;
use vstd::prelude::*;

verus! {

/// Largest accepted JSON header (64 KiB).
pub const MAX_HEADER_SIZE: u32 = 64 * 1024;

/// Largest accepted raw data part (1.5 MiB: one chunk plus overhead).
pub const MAX_DATA_SIZE: u32 = 1536 * 1024;

/// Errors of the frame layer.
#[derive(Debug)]
pub enum CodecError {
    /// The stream failed, or ended inside a frame.
    Io(String),
    /// The header is not the JSON that was expected.
    Json(String),
    /// A length in the prefix is above its limit; holds that length.
    FrameTooLarge(u32),
    /// The stream ended before a new frame began.
    ConnectionClosed,
}

/// The four big-endian bytes of `n`.
pub open spec fn be_bytes_u32(n: u32) -> Seq<u8> {
    seq![
        (n / 0x100_0000) as u8,
        ((n / 0x1_0000) % 0x100) as u8,
        ((n / 0x100) % 0x100) as u8,
        (n % 0x100) as u8,
    ]
}

/// The unsigned big-endian number held by `p[at..at + 4]`.
pub open spec fn be_value_at(p: Seq<u8>, at: int) -> int {
    p[at] * 0x100_0000 + p[at + 1] * 0x1_0000 + p[at + 2] * 0x100 + p[at + 3]
}

/// The bytes of one frame. Each length is written as a `u32`, so a part of
/// 2^32 bytes or more has its length written modulo 2^32.
pub open spec fn frame_bytes(header: Seq<u8>, data: Seq<u8>) -> Seq<u8> {
    be_bytes_u32(header.len() as u32) + be_bytes_u32(data.len() as u32) + header + data
}

/// What reading a frame makes of a header length and a data length.
pub open spec fn check_frame_lengths(header_len: u32, data_len: u32) -> Result<(u32, u32), CodecError> {
    if header_len > MAX_HEADER_SIZE {
        Err(CodecError::FrameTooLarge(header_len))
    } else if data_len > MAX_DATA_SIZE {
        Err(CodecError::FrameTooLarge(data_len))
    } else {
        Ok((header_len, data_len))
    }
}

/// What reading a frame makes of its eight-byte prefix.
pub open spec fn parse_prefix_spec(prefix: Seq<u8>) -> Result<(u32, u32), CodecError> {
    check_frame_lengths(be_value_at(prefix, 0) as u32, be_value_at(prefix, 4) as u32)
}

#[verifier::external_type_specification]
#[verifier::external_body]
pub struct ExBytesMut(bytes::BytesMut);

/// The bytes held by a `bytes::BytesMut`.
pub uninterp spec fn bytes_mut_contents(b: bytes::BytesMut) -> Seq<u8>;

/// `bytes::BytesMut::with_capacity`: a new buffer that holds no bytes
/// (the capacity only reserves room).
#[verifier::external_body]
fn bytes_mut_with_capacity(capacity: usize) -> (b: bytes::BytesMut)
    ensures
        bytes_mut_contents(b) == Seq::<u8>::empty(),
{
    bytes::BytesMut::with_capacity(capacity)
}

/// `bytes::BufMut::put_u32` on a `BytesMut`: appends the four big-endian bytes of `n`.
/// It panics when the length would overflow, which `requires` rules out.
#[verifier::external_body]
fn bytes_mut_put_u32(b: &mut bytes::BytesMut, n: u32)
    requires
        bytes_mut_contents(*old(b)).len() + 4 <= isize::MAX,
    ensures
        bytes_mut_contents(*final(b)) == bytes_mut_contents(*old(b)) + be_bytes_u32(n),
{
    b.put_u32(n)
}

/// `bytes::BytesMut::extend_from_slice`: appends `s`.
/// It panics when the length would overflow, which `requires` rules out.
#[verifier::external_body]
fn bytes_mut_extend_from_slice(b: &mut bytes::BytesMut, s: &[u8])
    requires
        bytes_mut_contents(*old(b)).len() + s@.len() <= isize::MAX,
    ensures
        bytes_mut_contents(*final(b)) == bytes_mut_contents(*old(b)) + s@,
{
    b.extend_from_slice(s)
}

/// `From<BytesMut> for Vec<u8>`: the same bytes, as a vector.
#[verifier::external_body]
fn bytes_mut_into_vec(b: bytes::BytesMut) -> (v: Vec<u8>)
    ensures
        v@ == bytes_mut_contents(b),
{
    Vec::<u8>::from(b)
}

/// Builds the frame that carries `header_json` and `data`.
pub fn encode_frame(header_json: &[u8], data: &[u8]) -> (frame: Vec<u8>)
    requires
        8 + header_json@.len() + data@.len() <= isize::MAX,
    ensures
        frame@ == frame_bytes(header_json@, data@),
{
    #[verifier::truncate]
    let header_len: u32 = header_json.len() as u32;
    #[verifier::truncate]
    let data_len: u32 = data.len() as u32;
    let mut buf = bytes_mut_with_capacity(8 + header_json.len() + data.len());
    bytes_mut_put_u32(&mut buf, header_len);
    bytes_mut_put_u32(&mut buf, data_len);
    bytes_mut_extend_from_slice(&mut buf, header_json);
    bytes_mut_extend_from_slice(&mut buf, data);
    let frame = bytes_mut_into_vec(buf);
    assert(frame@ =~= frame_bytes(header_json@, data@));
    frame
}

/// Reads the eight-byte prefix of a frame: the header length and the data
/// length, refused with `FrameTooLarge` when one is above its limit (the
/// header length is checked first).
pub fn parse_frame_prefix(prefix: &[u8; 8]) -> (r: Result<(u32, u32), CodecError>)
    ensures
        r == parse_prefix_spec(prefix@),
{
    let header_len: u32 = (prefix[0] as u32) * 0x100_0000 + (prefix[1] as u32) * 0x1_0000
        + (prefix[2] as u32) * 0x100 + (prefix[3] as u32);
    let data_len: u32 = (prefix[4] as u32) * 0x100_0000 + (prefix[5] as u32) * 0x1_0000
        + (prefix[6] as u32) * 0x100 + (prefix[7] as u32);
    if header_len > MAX_HEADER_SIZE {
        return Err(CodecError::FrameTooLarge(header_len));
    }
    if data_len > MAX_DATA_SIZE {
        return Err(CodecError::FrameTooLarge(data_len));
    }
    Ok((header_len, data_len))
}

/// The big-endian bytes of a `u32` read back as that number.
pub proof fn lemma_be_bytes_roundtrip(n: u32, rest: Seq<u8>)
    ensures
        be_value_at(be_bytes_u32(n) + rest, 0) == n,
{
    let b = be_bytes_u32(n) + rest;
    assert(b[0] == (n / 0x100_0000) as u8);
    assert(b[1] == ((n / 0x1_0000) % 0x100) as u8);
    assert(b[2] == ((n / 0x100) % 0x100) as u8);
    assert(b[3] == (n % 0x100) as u8);
    assert((n / 0x100_0000) as u8 as int * 0x100_0000 + ((n / 0x1_0000) % 0x100) as u8 as int
        * 0x1_0000 + ((n / 0x100) % 0x100) as u8 as int * 0x100 + (n % 0x100) as u8 as int == n)
        by (bit_vector);
}

/// What a frame's reader gives back of what `encode_frame` wrote: the prefix
/// announces the two lengths and is judged by them alone, and after it come
/// exactly the header and then the data. Within the limits both parts come back.
pub proof fn lemma_frame_roundtrip(header: Seq<u8>, data: Seq<u8>)
    requires
        header.len() <= u32::MAX,
        data.len() <= u32::MAX,
    ensures
        parse_prefix_spec(frame_bytes(header, data).take(8)) == check_frame_lengths(
            header.len() as u32,
            data.len() as u32,
        ),
        header.len() <= MAX_HEADER_SIZE && data.len() <= MAX_DATA_SIZE ==> parse_prefix_spec(
            frame_bytes(header, data).take(8),
        ) == Ok::<(u32, u32), CodecError>((header.len() as u32, data.len() as u32)),
        frame_bytes(header, data).len() == 8 + header.len() + data.len(),
        frame_bytes(header, data).subrange(8, 8 + header.len() as int) == header,
        frame_bytes(header, data).subrange(8 + header.len() as int, 8 + header.len() + data.len() as int)
            == data,
{
    let f = frame_bytes(header, data);
    let h = header.len() as u32;
    let d = data.len() as u32;
    let p = f.take(8);
    lemma_be_bytes_roundtrip(h, be_bytes_u32(d));
    lemma_be_bytes_roundtrip(d, Seq::<u8>::empty());
    assert(p =~= be_bytes_u32(h) + be_bytes_u32(d));
    assert(be_value_at(p, 4) == be_value_at(be_bytes_u32(d) + Seq::<u8>::empty(), 0));
    assert(f.subrange(8, 8 + header.len() as int) =~= header);
    assert(f.subrange(8 + header.len() as int, 8 + header.len() + data.len() as int) =~= data);
}

} // verus!
