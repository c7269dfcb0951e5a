//! A blob store over the key-value store: each value is a blob, tagged with
//! a checksum of its content, and the answers a blob service gives.
use crate::codec::{crc32, crc32_of, TOMBSTONE_LEN};
use crate::engine::{Append, KVStore};
use crate::error::StoreError;
use crate::schemas::BlobMeta;
use crate::stats::StoreStats;
use vstd::prelude::*;
use vstd::string::StringExecFns;

verus! {

/// The lower-case hexadecimal digit of `d`.
pub open spec fn hex_char(d: nat) -> char {
    if d < 10 {
        crate::text::digit_char(d)
    } else if d == 10 {
        'a'
    } else if d == 11 {
        'b'
    } else if d == 12 {
        'c'
    } else if d == 13 {
        'd'
    } else if d == 14 {
        'e'
    } else {
        'f'
    }
}

/// `x` as eight lower-case hexadecimal digits, most significant first.
pub open spec fn hex8(x: u32) -> Seq<char> {
    Seq::new(8, |i: int| hex_char(((x >> ((28 - 4 * i) as u32)) & 0xf) as nat))
}

fn hex_digit_str(d: u32) -> (r: &'static str)
    requires
        d < 16,
    ensures
        r@ == seq![hex_char(d as nat)],
{
    proof {
        reveal_strlit("0");
        reveal_strlit("1");
        reveal_strlit("2");
        reveal_strlit("3");
        reveal_strlit("4");
        reveal_strlit("5");
        reveal_strlit("6");
        reveal_strlit("7");
        reveal_strlit("8");
        reveal_strlit("9");
        reveal_strlit("a");
        reveal_strlit("b");
        reveal_strlit("c");
        reveal_strlit("d");
        reveal_strlit("e");
        reveal_strlit("f");
    }
    let r = if d == 0 {
        "0"
    } else if d == 1 {
        "1"
    } else if d == 2 {
        "2"
    } else if d == 3 {
        "3"
    } else if d == 4 {
        "4"
    } else if d == 5 {
        "5"
    } else if d == 6 {
        "6"
    } else if d == 7 {
        "7"
    } else if d == 8 {
        "8"
    } else if d == 9 {
        "9"
    } else if d == 10 {
        "a"
    } else if d == 11 {
        "b"
    } else if d == 12 {
        "c"
    } else if d == 13 {
        "d"
    } else if d == 14 {
        "e"
    } else {
        "f"
    };
    assert(r@ =~= seq![hex_char(d as nat)]);
    r
}

/// `x` as eight lower-case hexadecimal digits.
pub fn hex8_string(x: u32) -> (r: String)
    ensures
        r@ == hex8(x),
{
    let mut s = String::from_str("");
    proof {
        reveal_strlit("");
    }
    let mut i: u32 = 0;
    while i < 8
        invariant
            i <= 8,
            s@ == hex8(x).subrange(0, i as int),
        decreases 8 - i,
    {
        let sh: u32 = 28 - 4 * i;
        let d = (x >> sh) & 0xf;
        assert(d < 16) by (bit_vector)
            requires
                d == (x >> sh) & 0xf,
        ;
        s.append(hex_digit_str(d));
        assert(s@ =~= hex8(x).subrange(0, i + 1));
        i = i + 1;
    }
    assert(hex8(x).subrange(0, 8) =~= hex8(x));
    s
}

/// The etag of a blob: its CRC-32 as eight hexadecimal digits.
pub fn etag_of(data: &[u8]) -> (r: String)
    ensures
        r@ == hex8(crc32_of(data@)),
{
    hex8_string(crc32(data))
}

/// Blobs keyed by name, held in a key-value store, for one volume.
pub struct BlobStorage {
    store: KVStore,
    volume_id: String,
}

impl BlobStorage {
    /// The store that holds the blobs.
    pub closed spec fn inner(&self) -> KVStore {
        self.store
    }

    /// The volume's id.
    pub closed spec fn volume(&self) -> Seq<char> {
        self.volume_id@
    }

    /// Blob storage over `store`, for volume `volume_id`.
    pub fn new(store: KVStore, volume_id: String) -> (r: BlobStorage)
        requires
            store.wf(),
        ensures
            r.inner() == store,
            r.volume() == volume_id@,
    {
        BlobStorage { store, volume_id }
    }

    /// Stores `data` under `key`; returns the blob's metadata and the bytes
    /// the store appended.
    pub fn put(&mut self, key: &str, data: &[u8]) -> (r: Result<(BlobMeta, Append), StoreError>)
        requires
            old(self).inner().wf(),
            data@.len() < TOMBSTONE_LEN,
        ensures
            final(self).inner().wf(),
            final(self).volume() == old(self).volume(),
            r is Err <==> old(self).inner().must_rotate() && old(self).inner().active_id()
                == usize::MAX,
            r is Err ==> final(self).inner()@ == old(self).inner()@,
            r is Ok ==> {
                &&& final(self).inner()@ == old(self).inner()@.insert(key@, data@)
                &&& r->Ok_0.0.key@ == key@
                &&& r->Ok_0.0.etag@ == hex8(crc32_of(data@))
                &&& r->Ok_0.0.size == data@.len()
                &&& r->Ok_0.0.volume_id@ == old(self).volume()
            },
    {
        let etag = etag_of(data);
        let append = self.store.set(key, data)?;
        let meta = BlobMeta {
            key: String::from_str(key),
            etag,
            size: data.len() as u64,
            volume_id: self.volume_id.clone(),
        };
        Ok((meta, append))
    }

    /// The blob stored under `key`, if any.
    pub fn get(&self, key: &str) -> (r: Result<Option<Vec<u8>>, StoreError>)
        requires
            self.inner().wf(),
        ensures
            r is Ok,
            match r {
                Ok(Some(v)) => self.inner()@.contains_key(key@) && v@ == self.inner()@[key@],
                Ok(None) => !self.inner()@.contains_key(key@),
                Err(_) => false,
            },
    {
        self.store.get(key)
    }

    /// Removes the blob under `key`; returns the bytes the store appended, if any.
    pub fn delete(&mut self, key: &str) -> (r: Result<Option<Append>, StoreError>)
        requires
            old(self).inner().wf(),
        ensures
            final(self).inner().wf(),
            final(self).volume() == old(self).volume(),
            final(self).inner()@ == if r is Ok {
                old(self).inner()@.remove(key@)
            } else {
                old(self).inner()@
            },
            r is Err <==> old(self).inner()@.contains_key(key@) && old(self).inner().must_rotate()
                && old(self).inner().active_id() == usize::MAX,
    {
        self.store.delete(key)
    }

    /// The names of all blobs.
    pub fn list_keys(&self) -> (r: Vec<String>)
        requires
            self.inner().wf(),
        ensures
            r@.map_values(|s: String| s@).no_duplicates(),
            forall|k: Seq<char>|
                self.inner()@.contains_key(k) <==> r@.map_values(|s: String| s@).contains(k),
    {
        self.store.list_keys()
    }

    /// The volume's id.
    pub fn volume_id(&self) -> (r: &str)
        ensures
            r@ == self.volume(),
    {
        self.volume_id.as_str()
    }

    /// Statistics of the underlying store.
    pub fn stats(&self) -> (r: StoreStats)
        requires
            self.inner().wf(),
        ensures
            r.num_keys == self.inner()@.len(),
            r.num_segments == self.inner().log().len(),
    {
        self.store.stats()
    }
}

/// The HTTP status of a blob read: 200 with the blob, 404 when there is
/// none, 500 on a store error.
pub fn get_status(r: &Result<Option<Vec<u8>>, StoreError>) -> (s: u16)
    ensures
        s == match r {
            Ok(Some(_)) => 200u16,
            Ok(None) => 404u16,
            Err(_) => 500u16,
        },
{
    match r {
        Ok(Some(_)) => 200,
        Ok(None) => 404,
        Err(_) => 500,
    }
}

/// The HTTP status of a blob write: 201 when stored, 500 on a store error.
pub fn put_status<T>(r: &Result<T, StoreError>) -> (s: u16)
    ensures
        s == if r is Ok {
            201u16
        } else {
            500u16
        },
{
    match r {
        Ok(_) => 201,
        Err(_) => 500,
    }
}

/// The HTTP status of a blob removal: 204 when done, 500 on a store error.
pub fn delete_status<T>(r: &Result<T, StoreError>) -> (s: u16)
    ensures
        s == if r is Ok {
            204u16
        } else {
            500u16
        },
{
    match r {
        Ok(_) => 204,
        Err(_) => 500,
    }
}

} // verus!
