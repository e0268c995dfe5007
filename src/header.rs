use vstd::prelude::*;
use vstd::slice::slice_subrange;
use vstd::string::StringSliceAdditionalSpecFns;
use vstd::utf8::{decode_utf8, encode_utf8, valid_utf8};

verus! {

/// Length of the fixed prefix: a `u16` name length and a `u64` file size.
pub const HEADER_PREFIX_LEN: usize = 10;

/// Largest name length, in bytes, that the `u16` length field can carry.
pub const MAX_NAME_LEN: usize = 65535;

/// Metadata describing a single file transfer.
pub struct FileHeader {
    pub file_name: String,
    pub file_size: u64,
}

/// Why a header could not be encoded.
#[derive(Debug, PartialEq, Eq, Structural, Clone, Copy)]
pub enum EncodeError {
    /// The name's UTF-8 form is longer than `MAX_NAME_LEN` bytes.
    NameTooLong,
}

/// The two little-endian bytes of a `u16`.
pub open spec fn u16_le(v: u16) -> Seq<u8> {
    seq![(v & 0xff) as u8, ((v >> 8u16) & 0xff) as u8]
}

/// The eight little-endian bytes of a `u64`.
pub open spec fn u64_le(v: u64) -> Seq<u8> {
    seq![
        (v & 0xff) as u8,
        ((v >> 8u64) & 0xff) as u8,
        ((v >> 16u64) & 0xff) as u8,
        ((v >> 24u64) & 0xff) as u8,
        ((v >> 32u64) & 0xff) as u8,
        ((v >> 40u64) & 0xff) as u8,
        ((v >> 48u64) & 0xff) as u8,
        ((v >> 56u64) & 0xff) as u8,
    ]
}

/// The `u16` whose little-endian bytes are `b0, b1`.
pub open spec fn u16_from_le(b0: u8, b1: u8) -> u16 {
    (b0 as u16) | ((b1 as u16) << 8u16)
}

/// The `u64` whose little-endian bytes are `b[0..8]`.
pub open spec fn u64_from_le(b: Seq<u8>) -> u64
    recommends
        b.len() >= 8,
{
    (b[0] as u64) | ((b[1] as u64) << 8u64) | ((b[2] as u64) << 16u64) | ((b[3] as u64) << 24u64)
        | ((b[4] as u64) << 32u64) | ((b[5] as u64) << 40u64) | ((b[6] as u64) << 48u64) | ((
    b[7] as u64) << 56u64)
}

/// The wire form of a header whose name has the UTF-8 bytes `name`.
pub open spec fn wire_header(name: Seq<u8>, size: u64) -> Seq<u8>
    recommends
        name.len() <= MAX_NAME_LEN,
{
    u16_le(name.len() as u16) + u64_le(size) + name
}

/// The name length that the first two bytes of `b` announce.
pub open spec fn announced_name_len(b: Seq<u8>) -> nat
    recommends
        b.len() >= 2,
{
    u16_from_le(b[0], b[1]) as nat
}

/// What a decode probe finds at the start of `b`: the raw name bytes, the
/// declared size and the number of bytes the header takes, or nothing while
/// the header is not complete.
pub open spec fn parse_header(b: Seq<u8>) -> Option<(Seq<u8>, u64, nat)> {
    if b.len() < HEADER_PREFIX_LEN {
        None
    } else if b.len() < HEADER_PREFIX_LEN + announced_name_len(b) {
        None
    } else {
        let n = announced_name_len(b);
        Some(
            (
                b.subrange(HEADER_PREFIX_LEN as int, HEADER_PREFIX_LEN + n),
                u64_from_le(b.subrange(2, 10)),
                (HEADER_PREFIX_LEN + n) as nat,
            ),
        )
    }
}

/// Text made of `b` read as UTF-8, with each invalid sequence replaced.
pub uninterp spec fn utf8_lossy(b: Seq<u8>) -> Seq<char>;

/// Relies on `String::from_utf8_lossy`: the result depends on the bytes
/// alone, and valid UTF-8 comes back unchanged.
#[verifier::external_body]
fn lossy_string(b: &[u8]) -> (r: String)
    ensures
        r@ == utf8_lossy(b@),
        valid_utf8(b@) ==> r@ == decode_utf8(b@),
{
    String::from_utf8_lossy(b).into_owned()
}

proof fn lemma_u16_le(v: u16)
    ensures
        u16_from_le(u16_le(v)[0], u16_le(v)[1]) == v,
{
    let b0 = (v & 0xff) as u8;
    let b1 = ((v >> 8u16) & 0xff) as u8;
    assert((b0 as u16) | ((b1 as u16) << 8u16) == v) by (bit_vector)
        requires
            b0 == (v & 0xff) as u8,
            b1 == ((v >> 8u16) & 0xff) as u8,
    ;
}

proof fn lemma_u64_le(v: u64)
    ensures
        u64_from_le(u64_le(v)) == v,
{
    let b = u64_le(v);
    let (b0, b1, b2, b3, b4, b5, b6, b7) = (b[0], b[1], b[2], b[3], b[4], b[5], b[6], b[7]);
    assert((b0 as u64) | ((b1 as u64) << 8u64) | ((b2 as u64) << 16u64) | ((b3 as u64) << 24u64)
        | ((b4 as u64) << 32u64) | ((b5 as u64) << 40u64) | ((b6 as u64) << 48u64) | ((
    b7 as u64) << 56u64) == v) by (bit_vector)
        requires
            b0 == (v & 0xff) as u8,
            b1 == ((v >> 8u64) & 0xff) as u8,
            b2 == ((v >> 16u64) & 0xff) as u8,
            b3 == ((v >> 24u64) & 0xff) as u8,
            b4 == ((v >> 32u64) & 0xff) as u8,
            b5 == ((v >> 40u64) & 0xff) as u8,
            b6 == ((v >> 48u64) & 0xff) as u8,
            b7 == ((v >> 56u64) & 0xff) as u8,
    ;
}

/// Encode a file header into its length-prefixed wire form.
pub fn encode_header(file_name: &str, file_size: u64) -> (r: Result<Vec<u8>, EncodeError>)
    ensures
        r is Ok <==> file_name.spec_bytes().len() <= MAX_NAME_LEN,
        r is Ok ==> r->Ok_0@ == wire_header(file_name.spec_bytes(), file_size),
        r is Err ==> r->Err_0 == EncodeError::NameTooLong,
{
    let name_bytes = file_name.as_bytes();
    if name_bytes.len() > MAX_NAME_LEN {
        return Err(EncodeError::NameTooLong);
    }
    let name_len = name_bytes.len() as u16;
    let mut header: Vec<u8> = Vec::with_capacity(HEADER_PREFIX_LEN + name_bytes.len());
    header.push((name_len & 0xff) as u8);
    header.push(((name_len >> 8u16) & 0xff) as u8);
    header.push((file_size & 0xff) as u8);
    header.push(((file_size >> 8u64) & 0xff) as u8);
    header.push(((file_size >> 16u64) & 0xff) as u8);
    header.push(((file_size >> 24u64) & 0xff) as u8);
    header.push(((file_size >> 32u64) & 0xff) as u8);
    header.push(((file_size >> 40u64) & 0xff) as u8);
    header.push(((file_size >> 48u64) & 0xff) as u8);
    header.push(((file_size >> 56u64) & 0xff) as u8);
    assert(header@ =~= u16_le(name_len) + u64_le(file_size));
    let mut i: usize = 0;
    while i < name_bytes.len()
        invariant
            i <= name_bytes@.len(),
            header@.len() == HEADER_PREFIX_LEN + i,
            header@.subrange(0, 10) == u16_le(name_len) + u64_le(file_size),
            header@.subrange(10, 10 + i as int) == name_bytes@.subrange(0, i as int),
        decreases name_bytes@.len() - i,
    {
        let ghost before = header@;
        header.push(name_bytes[i]);
        i = i + 1;
        assert(header@.subrange(0, 10) =~= before.subrange(0, 10));
        assert(header@.subrange(10, 10 + i as int) =~= name_bytes@.subrange(0, i as int));
    }
    assert(name_bytes@.subrange(0, i as int) =~= name_bytes@);
    assert(header@ =~= header@.subrange(0, 10) + header@.subrange(10, 10 + i as int));
    assert(header@ =~= wire_header(file_name.spec_bytes(), file_size));
    Ok(header)
}

/// Attempt to decode a file header from the start of `buf`.
///
/// Returns the header and the number of bytes it takes once the whole header
/// is present, and `None` before that. Bytes after the header are left for
/// the caller.
pub fn try_decode_header(buf: &[u8]) -> (r: Option<(FileHeader, usize)>)
    ensures
        r is None <==> parse_header(buf@) is None,
        r is Some ==> ({
            let (name, size, used) = parse_header(buf@)->Some_0;
            &&& r->Some_0.0.file_name@ == utf8_lossy(name)
            &&& valid_utf8(name) ==> r->Some_0.0.file_name@ == decode_utf8(name)
            &&& r->Some_0.0.file_size == size
            &&& r->Some_0.1 == used
        }),
{
    if buf.len() < HEADER_PREFIX_LEN {
        return None;
    }
    let name_len = ((buf[0] as u16) | ((buf[1] as u16) << 8u16)) as usize;
    let file_size = (buf[2] as u64) | ((buf[3] as u64) << 8u64) | ((buf[4] as u64) << 16u64)
        | ((buf[5] as u64) << 24u64) | ((buf[6] as u64) << 32u64) | ((buf[7] as u64) << 40u64)
        | ((buf[8] as u64) << 48u64) | ((buf[9] as u64) << 56u64);
    if buf.len() < HEADER_PREFIX_LEN + name_len {
        return None;
    }
    let name_bytes = slice_subrange(buf, HEADER_PREFIX_LEN, HEADER_PREFIX_LEN + name_len);
    let file_name = lossy_string(name_bytes);
    Some((FileHeader { file_name, file_size }, HEADER_PREFIX_LEN + name_len))
}

/// Decoding the wire form of a name and size gives back the same name bytes
/// and size, taking exactly the whole header; the name bytes are valid UTF-8
/// and read back as the text they came from.
pub proof fn lemma_round_trip(name: Seq<char>, size: u64)
    requires
        encode_utf8(name).len() <= MAX_NAME_LEN,
    ensures
        parse_header(wire_header(encode_utf8(name), size)) == Some(
            (encode_utf8(name), size, (HEADER_PREFIX_LEN + encode_utf8(name).len()) as nat),
        ),
        valid_utf8(encode_utf8(name)),
        decode_utf8(encode_utf8(name)) == name,
{
    lemma_parse_wire_header(encode_utf8(name), size, Seq::empty());
    assert(wire_header(encode_utf8(name), size) + Seq::<u8>::empty() =~= wire_header(
        encode_utf8(name),
        size,
    ));
    vstd::utf8::encode_utf8_valid_utf8(name);
    vstd::utf8::encode_utf8_decode_utf8(name);
}

/// A complete header followed by any bytes decodes to that header, and
/// takes exactly the header's length.
pub proof fn lemma_parse_wire_header(name: Seq<u8>, size: u64, rest: Seq<u8>)
    requires
        name.len() <= MAX_NAME_LEN,
    ensures
        parse_header(wire_header(name, size) + rest) == Some(
            (name, size, (HEADER_PREFIX_LEN + name.len()) as nat),
        ),
{
    let b = wire_header(name, size) + rest;
    let n = name.len() as u16;
    lemma_u16_le(n);
    lemma_u64_le(size);
    assert(b[0] == u16_le(n)[0] && b[1] == u16_le(n)[1]);
    assert(announced_name_len(b) == name.len());
    assert(b.subrange(2, 10) =~= u64_le(size));
    assert(b.subrange(HEADER_PREFIX_LEN as int, HEADER_PREFIX_LEN + name.len()) =~= name);
}

/// No proper prefix of a header's wire form decodes: a probe on a header cut
/// short at any point finds nothing, while the whole of it decodes.
pub proof fn lemma_partial_header(name: Seq<u8>, size: u64, k: int)
    requires
        name.len() <= MAX_NAME_LEN,
        0 <= k < wire_header(name, size).len(),
    ensures
        parse_header(wire_header(name, size).subrange(0, k)) is None,
        parse_header(wire_header(name, size)) == Some(
            (name, size, wire_header(name, size).len()),
        ),
{
    let h = wire_header(name, size);
    let p = h.subrange(0, k);
    let n = name.len() as u16;
    lemma_u16_le(n);
    if k >= HEADER_PREFIX_LEN {
        assert(p[0] == h[0] && p[1] == h[1]);
        assert(announced_name_len(p) == name.len());
    }
    lemma_parse_wire_header(name, size, Seq::empty());
    assert(h + Seq::<u8>::empty() =~= h);
}

} // verus!
