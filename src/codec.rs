//! The on-disk record format.
//!
//! ```text
//! key_len   : u64 little-endian
//! value_len : u64 little-endian (all ones marks a tombstone)
//! checksum  : u32 little-endian, CRC-32 of key ∥ value (key alone for a tombstone)
//! key bytes, then value bytes (none for a tombstone)
//! ```
use crate::error::StoreError;
use vstd::bytes::*;
use vstd::prelude::*;
use vstd::slice::*;
use vstd::utf8::*;

verus! {

/// Size of the fixed record header in bytes.
pub const HEADER_SIZE: usize = 20;

/// The `value_len` that marks a tombstone.
pub const TOMBSTONE_LEN: u64 = 0xffff_ffff_ffff_ffffu64;

/// The CRC-32/IEEE checksum of a byte sequence.
pub uninterp spec fn crc32_of(data: Seq<u8>) -> u32;

/// Relies on `crc32fast::hash`: the CRC-32/IEEE checksum of `data`, a
/// function of the bytes alone.
#[verifier::external_body]
pub(crate) fn crc32(data: &[u8]) -> (r: u32)
    ensures
        r == crc32_of(data@),
{
    crc32fast::hash(data)
}

/// The fixed header of a record.
#[derive(Debug, Clone, Copy, PartialEq, Eq)]
pub struct RecordHeader {
    /// Length of the key in bytes.
    pub key_len: u64,
    /// Length of the value in bytes, or `TOMBSTONE_LEN` for a tombstone.
    pub value_len: u64,
    /// CRC-32 of the payload.
    pub checksum: u32,
}

/// The bytes of a header.
pub open spec fn header_bytes(h: RecordHeader) -> Seq<u8> {
    spec_u64_to_le_bytes(h.key_len) + spec_u64_to_le_bytes(h.value_len) + spec_u32_to_le_bytes(
        h.checksum,
    )
}

impl RecordHeader {
    /// A header with the given fields.
    pub fn new(key_len: u64, value_len: u64, checksum: u32) -> (r: RecordHeader)
        ensures
            r == (RecordHeader { key_len, value_len, checksum }),
    {
        RecordHeader { key_len, value_len, checksum }
    }

    /// Whether the header marks a tombstone.
    pub fn is_tombstone(&self) -> (r: bool)
        ensures
            r == (self.value_len == TOMBSTONE_LEN),
    {
        self.value_len == TOMBSTONE_LEN
    }

    /// Appends the header's bytes to `out`.
    pub fn write_to(&self, out: &mut Vec<u8>)
        ensures
            final(out)@ == old(out)@ + header_bytes(*self),
    {
        let k = u64_to_le_bytes(self.key_len);
        push_all(out, k.as_slice());
        let v = u64_to_le_bytes(self.value_len);
        push_all(out, v.as_slice());
        let c = u32_to_le_bytes(self.checksum);
        push_all(out, c.as_slice());
        assert(final(out)@ =~= old(out)@ + header_bytes(*self));
    }

    /// Reads a header from the front of `buf`; fails when fewer than
    /// `HEADER_SIZE` bytes are there.
    pub fn read_from(buf: &[u8]) -> (r: Result<RecordHeader, StoreError>)
        ensures
            buf@.len() < HEADER_SIZE <==> r is Err,
            r is Err ==> r->Err_0 is Io,
            r is Ok ==> header_bytes(r->Ok_0) == buf@.subrange(0, HEADER_SIZE as int),
    {
        if buf.len() < HEADER_SIZE {
            return Err(StoreError::Io("failed to fill whole buffer".to_string()));
        }
        let key_len = u64_from_le_bytes(slice_subrange(buf, 0, 8));
        let value_len = u64_from_le_bytes(slice_subrange(buf, 8, 16));
        let checksum = u32_from_le_bytes(slice_subrange(buf, 16, 20));
        let h = RecordHeader { key_len, value_len, checksum };
        proof {
            lemma_auto_spec_u64_to_from_le_bytes();
            lemma_auto_spec_u32_to_from_le_bytes();
            let b = buf@;
            assert(spec_u64_to_le_bytes(spec_u64_from_le_bytes(b.subrange(0, 8))) == b.subrange(0, 8));
            assert(spec_u64_to_le_bytes(spec_u64_from_le_bytes(b.subrange(8, 16))) == b.subrange(8, 16));
            assert(spec_u32_to_le_bytes(spec_u32_from_le_bytes(b.subrange(16, 20))) == b.subrange(16, 20));
            assert(header_bytes(h) =~= b.subrange(0, 20));
        }
        Ok(h)
    }
}

/// One logical record: a key with its value, or a tombstone.
#[derive(Debug, Clone)]
pub struct Record {
    pub key: Vec<u8>,
    pub value: Vec<u8>,
    pub deleted: bool,
}

impl Record {
    /// A record that binds `key` to `value`.
    pub fn new(key: Vec<u8>, value: Vec<u8>) -> (r: Record)
        ensures
            r.key@ == key@,
            r.value@ == value@,
            !r.deleted,
    {
        Record { key, value, deleted: false }
    }

    /// A tombstone for `key`, with an empty value.
    pub fn tombstone(key: Vec<u8>) -> (r: Record)
        ensures
            r.key@ == key@,
            r.value@ == Seq::<u8>::empty(),
            r.deleted,
    {
        Record { key, value: Vec::new(), deleted: true }
    }
}

/// The checksum of a record's payload: CRC-32 of the key followed by the value.
pub fn compute_checksum(key: &[u8], value: &[u8]) -> (r: u32)
    ensures
        r == crc32_of(key@ + value@),
{
    let mut payload: Vec<u8> = Vec::new();
    push_all(&mut payload, key);
    push_all(&mut payload, value);
    crc32(payload.as_slice())
}

/// Relies on `String::from_utf8`: it succeeds exactly on valid UTF-8, and the
/// string then holds those bytes.
#[verifier::external_body]
fn string_from_utf8(bytes: Vec<u8>) -> (r: Option<String>)
    ensures
        r.is_some() == valid_utf8(bytes@),
        r.is_some() ==> encode_utf8(r.unwrap()@) == bytes@,
{
    String::from_utf8(bytes).ok()
}

/// What decoding finds at the front of a byte sequence.
pub enum Decoding {
    Record { key: Seq<char>, value: Option<Seq<u8>>, size: nat },
    EndOfFile,
    Truncated,
    ChecksumMismatch { expected: u32, computed: u32 },
    InvalidKey,
}

/// The result of decoding one record from a segment image.
pub enum Decoded {
    /// A complete record whose checksum validates; `value` is `None` for a tombstone.
    Record { key: String, value: Option<Vec<u8>>, size: usize },
    /// No bytes remain.
    EndOfFile,
    /// Some, but not all, bytes of a record remain.
    Truncated,
    /// The record is complete but its payload does not match its checksum.
    ChecksumMismatch { expected: u32, computed: u32 },
    /// The checksum validates but the key is not UTF-8 text.
    InvalidKey,
}

pub open spec fn opt_bytes_view(v: Option<Vec<u8>>) -> Option<Seq<u8>> {
    match v {
        Some(b) => Some(b@),
        None => None,
    }
}

impl View for Decoded {
    type V = Decoding;

    open spec fn view(&self) -> Decoding {
        match self {
            Decoded::Record { key, value, size } => Decoding::Record {
                key: key@,
                value: opt_bytes_view(*value),
                size: *size as nat,
            },
            Decoded::EndOfFile => Decoding::EndOfFile,
            Decoded::Truncated => Decoding::Truncated,
            Decoded::ChecksumMismatch { expected, computed } => Decoding::ChecksumMismatch {
                expected: *expected,
                computed: *computed,
            },
            Decoded::InvalidKey => Decoding::InvalidKey,
        }
    }
}

/// The key length stored in a header.
pub open spec fn header_key_len(s: Seq<u8>) -> u64 {
    spec_u64_from_le_bytes(s.subrange(0, 8))
}

/// The value length stored in a header.
pub open spec fn header_value_len(s: Seq<u8>) -> u64 {
    spec_u64_from_le_bytes(s.subrange(8, 16))
}

/// The checksum stored in a header.
pub open spec fn header_checksum(s: Seq<u8>) -> u32 {
    spec_u32_from_le_bytes(s.subrange(16, 20))
}

/// Number of bytes that follow the header of the record at the front of `s`.
pub open spec fn body_len(s: Seq<u8>) -> int {
    if header_value_len(s) == TOMBSTONE_LEN {
        header_key_len(s) as int
    } else {
        header_key_len(s) + header_value_len(s)
    }
}

/// Decodes the record at the front of `s`.
pub open spec fn decode_front(s: Seq<u8>) -> Decoding {
    if s.len() == 0 {
        Decoding::EndOfFile
    } else if s.len() < HEADER_SIZE {
        Decoding::Truncated
    } else if s.len() - HEADER_SIZE < body_len(s) {
        Decoding::Truncated
    } else {
        let klen = header_key_len(s) as int;
        let end = HEADER_SIZE + body_len(s);
        let key_bytes = s.subrange(HEADER_SIZE as int, HEADER_SIZE + klen);
        let computed = crc32_of(s.subrange(HEADER_SIZE as int, end));
        if computed != header_checksum(s) {
            Decoding::ChecksumMismatch { expected: header_checksum(s), computed }
        } else if !valid_utf8(key_bytes) {
            Decoding::InvalidKey
        } else {
            Decoding::Record {
                key: decode_utf8(key_bytes),
                value: if header_value_len(s) == TOMBSTONE_LEN {
                    None
                } else {
                    Some(s.subrange(HEADER_SIZE + klen, end))
                },
                size: end as nat,
            }
        }
    }
}

/// Decodes the record that starts at `off` in `data`.
pub open spec fn decode_spec(data: Seq<u8>, off: int) -> Decoding {
    decode_front(data.subrange(off, data.len() as int))
}

/// The bytes of a record that binds `key` to `value`.
pub open spec fn put_bytes(key: Seq<char>, value: Seq<u8>) -> Seq<u8> {
    let kb = encode_utf8(key);
    spec_u64_to_le_bytes(kb.len() as u64) + spec_u64_to_le_bytes(value.len() as u64)
        + spec_u32_to_le_bytes(crc32_of(kb + value)) + kb + value
}

/// The bytes of a tombstone for `key`.
pub open spec fn tombstone_bytes(key: Seq<char>) -> Seq<u8> {
    let kb = encode_utf8(key);
    spec_u64_to_le_bytes(kb.len() as u64) + spec_u64_to_le_bytes(TOMBSTONE_LEN)
        + spec_u32_to_le_bytes(crc32_of(kb)) + kb
}

/// The bytes of a record: a put when `value` is present, else a tombstone.
pub open spec fn record_bytes(key: Seq<char>, value: Option<Seq<u8>>) -> Seq<u8> {
    match value {
        Some(v) => put_bytes(key, v),
        None => tombstone_bytes(key),
    }
}

/// A record can be written: its lengths fit the header, and a value's
/// length differs from the tombstone marker.
pub open spec fn encodable(key: Seq<char>, value: Option<Seq<u8>>) -> bool {
    &&& encode_utf8(key).len() <= TOMBSTONE_LEN
    &&& match value {
        Some(v) => v.len() < TOMBSTONE_LEN,
        None => true,
    }
}

fn push_all(out: &mut Vec<u8>, src: &[u8])
    ensures
        final(out)@ == old(out)@ + src@,
{
    let mut i: usize = 0;
    while i < src.len()
        invariant
            i <= src@.len(),
            out@ == old(out)@ + src@.subrange(0, i as int),
        decreases src@.len() - i,
    {
        out.push(src[i]);
        i = i + 1;
        assert(out@ =~= old(out)@ + src@.subrange(0, i as int));
    }
    assert(src@.subrange(0, src@.len() as int) =~= src@);
}

fn encode_record(key_bytes: &[u8], value_len: u64, payload: Vec<u8>) -> (r: Vec<u8>)
    ensures
        r@ == spec_u64_to_le_bytes(key_bytes@.len() as u64) + spec_u64_to_le_bytes(value_len)
            + spec_u32_to_le_bytes(crc32_of(payload@)) + payload@,
{
    let checksum = crc32(payload.as_slice());
    let mut out = u64_to_le_bytes(key_bytes.len() as u64);
    let vl = u64_to_le_bytes(value_len);
    push_all(&mut out, vl.as_slice());
    let cs = u32_to_le_bytes(checksum);
    push_all(&mut out, cs.as_slice());
    push_all(&mut out, payload.as_slice());
    out
}

/// Encodes a record that binds `key` to `value`.
pub fn encode_put(key: &str, value: &[u8]) -> (r: Vec<u8>)
    requires
        encodable(key@, Some(value@)),
    ensures
        r@ == put_bytes(key@, value@),
{
    let kb = key.as_bytes();
    let mut payload: Vec<u8> = Vec::new();
    push_all(&mut payload, kb);
    push_all(&mut payload, value);
    assert(payload@ =~= encode_utf8(key@) + value@);
    encode_record(kb, value.len() as u64, payload)
}

/// Encodes a tombstone for `key`.
pub fn encode_tombstone(key: &str) -> (r: Vec<u8>)
    requires
        encodable(key@, None),
    ensures
        r@ == tombstone_bytes(key@),
{
    let kb = key.as_bytes();
    let mut payload: Vec<u8> = Vec::new();
    push_all(&mut payload, kb);
    assert(payload@ =~= encode_utf8(key@));
    encode_record(kb, TOMBSTONE_LEN, payload)
}

/// Decodes the record that starts at `off` in `data`, validating its checksum.
pub fn decode_at(data: &[u8], off: usize) -> (r: Decoded)
    requires
        off <= data@.len(),
    ensures
        r@ == decode_spec(data@, off as int),
{
    let ghost s = data@.subrange(off as int, data@.len() as int);
    let rem = data.len() - off;
    if rem == 0 {
        return Decoded::EndOfFile;
    }
    if rem < HEADER_SIZE {
        return Decoded::Truncated;
    }
    let klen = u64_from_le_bytes(slice_subrange(data, off, off + 8));
    let vlen = u64_from_le_bytes(slice_subrange(data, off + 8, off + 16));
    let stored = u32_from_le_bytes(slice_subrange(data, off + 16, off + 20));
    proof {
        assert(s.subrange(0, 8) =~= data@.subrange(off as int, off + 8));
        assert(s.subrange(8, 16) =~= data@.subrange(off + 8, off + 16));
        assert(s.subrange(16, 20) =~= data@.subrange(off + 16, off + 20));
    }
    let avail = (rem - HEADER_SIZE) as u64;
    let tomb = vlen == TOMBSTONE_LEN;
    if klen > avail {
        return Decoded::Truncated;
    }
    let body: u64 = if tomb {
        klen
    } else {
        if vlen > avail - klen {
            return Decoded::Truncated;
        }
        klen + vlen
    };
    let start = off + HEADER_SIZE;
    let kend = start + klen as usize;
    let end = start + body as usize;
    proof {
        assert(s.subrange(HEADER_SIZE as int, HEADER_SIZE + body) =~= data@.subrange(
            start as int,
            end as int,
        ));
        assert(s.subrange(HEADER_SIZE as int, HEADER_SIZE + klen) =~= data@.subrange(
            start as int,
            kend as int,
        ));
        assert(s.subrange(HEADER_SIZE + klen, HEADER_SIZE + body) =~= data@.subrange(
            kend as int,
            end as int,
        ));
    }
    let computed = crc32(slice_subrange(data, start, end));
    if computed != stored {
        return Decoded::ChecksumMismatch { expected: stored, computed };
    }
    let key_bytes = slice_to_vec(slice_subrange(data, start, kend));
    match string_from_utf8(key_bytes) {
        None => Decoded::InvalidKey,
        Some(key) => {
            proof {
                encode_utf8_decode_utf8(key@);
            }
            let value = if tomb {
                None
            } else {
                Some(slice_to_vec(slice_subrange(data, kend, end)))
            };
            Decoded::Record { key, value, size: HEADER_SIZE + body as usize }
        },
    }
}

/// A decoded record spans at least its header and at most the bytes there are.
pub proof fn lemma_record_size(s: Seq<u8>)
    requires
        decode_front(s) is Record,
    ensures
        HEADER_SIZE <= decode_front(s)->size <= s.len(),
{
}

/// Encoding a record and decoding it again gives back the record, and the
/// decoder consumes exactly the encoded bytes.
pub proof fn lemma_decode_encode(key: Seq<char>, value: Option<Seq<u8>>)
    requires
        encodable(key, value),
    ensures
        decode_front(record_bytes(key, value)) == (Decoding::Record {
            key,
            value,
            size: record_bytes(key, value).len(),
        }),
{
    lemma_auto_spec_u64_to_from_le_bytes();
    lemma_auto_spec_u32_to_from_le_bytes();
    encode_utf8_valid_utf8(key);
    encode_utf8_decode_utf8(key);
    let kb = encode_utf8(key);
    let kl = kb.len() as int;
    let s = record_bytes(key, value);
    match value {
        Some(v) => {
            let vl = spec_u64_to_le_bytes(v.len() as u64);
            assert(s.subrange(0, 8) =~= spec_u64_to_le_bytes(kb.len() as u64));
            assert(s.subrange(8, 16) =~= vl);
            assert(s.subrange(16, 20) =~= spec_u32_to_le_bytes(crc32_of(kb + v)));
            assert(s.subrange(20, 20 + kl) =~= kb);
            assert(s.subrange(20, 20 + kl + v.len()) =~= kb + v);
            assert(s.subrange(20 + kl, 20 + kl + v.len()) =~= v);
        },
        None => {
            assert(s.subrange(0, 8) =~= spec_u64_to_le_bytes(kb.len() as u64));
            assert(s.subrange(8, 16) =~= spec_u64_to_le_bytes(TOMBSTONE_LEN));
            assert(s.subrange(16, 20) =~= spec_u32_to_le_bytes(crc32_of(kb)));
            assert(s.subrange(20, 20 + kl) =~= kb);
        },
    }
}

/// A decoded record, encoded again, is byte for byte the bytes it was
/// decoded from.
pub proof fn lemma_encode_decode(s: Seq<u8>)
    requires
        decode_front(s) is Record,
    ensures
        ({
            let d = decode_front(s);
            &&& encodable(d->key, d->value)
            &&& s.subrange(0, d->size as int) == record_bytes(d->key, d->value)
        }),
{
    lemma_auto_spec_u64_to_from_le_bytes();
    lemma_auto_spec_u32_to_from_le_bytes();
    let d = decode_front(s);
    let klen = header_key_len(s) as int;
    let kb = s.subrange(20, 20 + klen);
    decode_utf8_encode_utf8(kb);
    assert(encode_utf8(d->key) == kb);
    let h0 = s.subrange(0, 8);
    let h1 = s.subrange(8, 16);
    let h2 = s.subrange(16, 20);
    assert(spec_u64_to_le_bytes(spec_u64_from_le_bytes(h0)) == h0);
    assert(spec_u64_to_le_bytes(spec_u64_from_le_bytes(h1)) == h1);
    assert(spec_u32_to_le_bytes(spec_u32_from_le_bytes(h2)) == h2);
    if header_value_len(s) == TOMBSTONE_LEN {
        assert(s.subrange(0, d->size as int) =~= h0 + h1 + h2 + kb);
    } else {
        let vb = s.subrange(20 + klen, 20 + body_len(s));
        assert(s.subrange(20, 20 + body_len(s)) =~= kb + vb);
        assert(s.subrange(0, d->size as int) =~= h0 + h1 + h2 + kb + vb);
    }
}

} // verus!
