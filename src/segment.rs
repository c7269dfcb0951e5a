//! One segment of the log: the byte image of an append-only file.
use crate::codec::{
    decode_at, decode_spec, encodable, encode_put, encode_tombstone, put_bytes, tombstone_bytes,
    Decoded, Decoding, TOMBSTONE_LEN,
};
use crate::error::StoreError;
use crate::log::clean_front;
use vstd::prelude::*;

verus! {

/// The segment size limit used when none is configured: 1 MiB.
pub const SEGMENT_SIZE_LIMIT: u64 = 1048576;

/// A segment: its id, the bytes of its file, and the size at which it is full.
pub struct Segment {
    id: usize,
    len: u64,
    data: Vec<u8>,
    limit: u64,
}

impl Segment {
    /// The bytes the segment holds.
    pub closed spec fn image(&self) -> Seq<u8> {
        self.data@
    }

    /// The segment's id.
    pub closed spec fn sid(&self) -> usize {
        self.id
    }

    /// The size at which the segment counts as full.
    pub closed spec fn size_limit(&self) -> u64 {
        self.limit
    }

    /// The cached length matches the bytes, and the bytes are whole records.
    pub closed spec fn wf(&self) -> bool {
        &&& self.len == self.data@.len()
        &&& clean_front(self.data@)
    }

    /// A well-formed segment's bytes are whole records.
    pub proof fn lemma_clean(&self)
        requires
            self.wf(),
        ensures
            clean_front(self.image()),
    {
    }

    /// A new, empty segment.
    pub fn new(id: usize, limit: u64) -> (r: Segment)
        ensures
            r.wf(),
            r.sid() == id,
            r.size_limit() == limit,
            r.image() == Seq::<u8>::empty(),
    {
        let r = Segment { id, len: 0, data: Vec::new(), limit };
        assert(crate::codec::decode_front(r.data@) is EndOfFile);
        r
    }

    /// The segment's id.
    pub fn id(&self) -> (r: usize)
        ensures
            r == self.sid(),
    {
        self.id
    }

    /// The segment's length in bytes.
    pub fn len(&self) -> (r: u64)
        requires
            self.wf(),
        ensures
            r == self.image().len(),
    {
        self.len
    }

    /// The bytes of the segment.
    pub fn bytes(&self) -> (r: &[u8])
        ensures
            r@ == self.image(),
    {
        self.data.as_slice()
    }

    /// Appends bytes that extend the image by whole records.
    pub(crate) fn push_record(&mut self, rec: &Vec<u8>)
        requires
            old(self).wf(),
            clean_front(old(self).image() + rec@),
        ensures
            final(self).wf(),
            final(self).image() == old(self).image() + rec@,
            final(self).sid() == old(self).sid(),
            final(self).size_limit() == old(self).size_limit(),
    {
        let mut i: usize = 0;
        while i < rec.len()
            invariant
                i <= rec@.len(),
                self.data@ == old(self).data@ + rec@.subrange(0, i as int),
                self.id == old(self).id,
                self.limit == old(self).limit,
                self.len == old(self).len,
            decreases rec@.len() - i,
        {
            self.data.push(rec[i]);
            i = i + 1;
            assert(self.data@ =~= old(self).data@ + rec@.subrange(0, i as int));
        }
        assert(rec@.subrange(0, rec@.len() as int) =~= rec@);
        self.len = self.data.len() as u64;
    }

    /// Appends a record binding `key` to `value`; returns the offset of its first byte.
    pub fn append(&mut self, key: &str, value: &[u8]) -> (r: u64)
        requires
            old(self).wf(),
            encodable(key@, Some(value@)),
        ensures
            final(self).wf(),
            r == old(self).image().len(),
            final(self).image() == old(self).image() + put_bytes(key@, value@),
            final(self).sid() == old(self).sid(),
            final(self).size_limit() == old(self).size_limit(),
    {
        let offset = self.len;
        let rec = encode_put(key, value);
        proof {
            crate::log::lemma_scan_append(self.data@, key@, Some(value@));
        }
        self.push_record(&rec);
        offset
    }

    /// Appends a tombstone for `key`; returns the offset of its first byte.
    pub fn append_tombstone(&mut self, key: &str) -> (r: u64)
        requires
            old(self).wf(),
            encodable(key@, None),
        ensures
            final(self).wf(),
            r == old(self).image().len(),
            final(self).image() == old(self).image() + tombstone_bytes(key@),
            final(self).sid() == old(self).sid(),
            final(self).size_limit() == old(self).size_limit(),
    {
        let offset = self.len;
        let rec = encode_tombstone(key);
        proof {
            crate::log::lemma_scan_append(self.data@, key@, None);
        }
        self.push_record(&rec);
        offset
    }

    /// Whether the segment has reached its size limit.
    pub fn is_full(&self) -> (r: bool)
        requires
            self.wf(),
        ensures
            r == (self.image().len() >= self.size_limit()),
    {
        self.len >= self.limit
    }

    /// Reads the record at `offset`: `Ok(None)` at or past the end,
    /// `Ok(Some((key, None)))` for a tombstone.
    pub fn read_record_at(&self, offset: u64) -> (r: Result<
        Option<(String, Option<Vec<u8>>)>,
        StoreError,
    >)
        requires
            self.wf(),
        ensures
            offset >= self.image().len() ==> r == Ok::<
                Option<(String, Option<Vec<u8>>)>,
                StoreError,
            >(None),
            offset < self.image().len() ==> match decode_spec(self.image(), offset as int) {
                Decoding::Record { key, value, size } => r is Ok && r->Ok_0 is Some && r->Ok_0->Some_0.0@
                    == key && crate::codec::opt_bytes_view(r->Ok_0->Some_0.1) == value,
                Decoding::ChecksumMismatch { expected, computed } => r == Err::<
                    Option<(String, Option<Vec<u8>>)>,
                    StoreError,
                >(StoreError::ChecksumMismatch { offset, expected, computed }),
                _ => r is Err && r->Err_0 is CorruptedData,
            },
    {
        let n = self.data.len();
        if offset >= n as u64 {
            return Ok(None);
        }
        let off = offset as usize;
        assert(off as int == offset as int);
        match decode_at(self.data.as_slice(), off) {
            Decoded::Record { key, value, size } => Ok(Some((key, value))),
            Decoded::ChecksumMismatch { expected, computed } => Err(
                StoreError::ChecksumMismatch { offset, expected, computed },
            ),
            Decoded::EndOfFile => Err(StoreError::CorruptedData("record expected".to_string())),
            Decoded::Truncated => Err(StoreError::CorruptedData("truncated record".to_string())),
            Decoded::InvalidKey => Err(StoreError::CorruptedData("key is not UTF-8".to_string())),
        }
    }

    /// Reads only the value at `offset`: `Ok(None)` for a tombstone or past the end.
    pub fn read_value_at(&self, offset: u64) -> (r: Result<Option<Vec<u8>>, StoreError>)
        requires
            self.wf(),
        ensures
            offset >= self.image().len() ==> r == Ok::<Option<Vec<u8>>, StoreError>(None),
            offset < self.image().len() ==> match decode_spec(self.image(), offset as int) {
                Decoding::Record { key, value, size } => r is Ok && crate::codec::opt_bytes_view(
                    r->Ok_0,
                ) == value,
                Decoding::ChecksumMismatch { expected, computed } => r == Err::<
                    Option<Vec<u8>>,
                    StoreError,
                >(StoreError::ChecksumMismatch { offset, expected, computed }),
                _ => r is Err && r->Err_0 is CorruptedData,
            },
    {
        match self.read_record_at(offset) {
            Ok(Some((_, value))) => Ok(value),
            Ok(None) => Ok(None),
            Err(e) => Err(e),
        }
    }

    /// The size of a record with the given key and value lengths; a value
    /// length equal to the tombstone marker counts no value bytes.
    pub fn record_size(key_len: u64, value_len: u64) -> (r: u64)
        requires
            20 + key_len + (if value_len == TOMBSTONE_LEN { 0 } else { value_len }) <= u64::MAX,
        ensures
            r == 20 + key_len + (if value_len == TOMBSTONE_LEN { 0 } else { value_len }),
    {
        20 + key_len + if value_len == TOMBSTONE_LEN {
            0
        } else {
            value_len
        }
    }
}

} // verus!
