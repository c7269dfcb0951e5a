//! The store: the segments of the log, the index over them, and the
//! operations that change them.
use crate::codec::{
    decode_at, decode_spec, encodable, encode_put, encode_tombstone, lemma_encode_decode,
    opt_bytes_view, put_bytes, record_bytes, tombstone_bytes, Decoded, TOMBSTONE_LEN,
};
use crate::error::StoreError;
use crate::index::{Index, Location};
use crate::log::{
    apply_entry, lemma_clean_valid_len, lemma_decode_appended, lemma_decode_spec_extend,
    lemma_replay_log_append, lemma_replay_log_push_empty, lemma_replay_log_scans, lemma_scan_cut,
    lemma_valid_prefix, records_within, replay_entries, replay_log, scan_front, valid_len,
};
use crate::naming::{ids_ascending, ids_distinct, order_segment_files};
use crate::segment::Segment;
use crate::stats::StoreStats;
use vstd::prelude::*;
use vstd::slice::slice_to_vec;

verus! {

/// Bytes that an operation appended to a segment, for the caller to write
/// to that segment's file.
pub struct Append {
    /// The segment the record went to; a new id means a new segment file.
    pub segment_id: usize,
    /// Offset of the record's first byte in the segment.
    pub offset: u64,
    /// The encoded record.
    pub bytes: Vec<u8>,
}

/// The log after appending the record `rec`: to the last segment, or to a
/// new one when the last has reached `limit`.
pub open spec fn add_record(log: Seq<Seq<u8>>, limit: u64, rec: Seq<u8>) -> Seq<Seq<u8>> {
    if log.last().len() >= limit {
        log.push(rec)
    } else {
        log.update(log.len() - 1, log.last() + rec)
    }
}

/// The log that writing each of `keys`, in order, with its value in `m`
/// produces in a fresh store.
pub open spec fn layout(keys: Seq<Seq<char>>, m: Map<Seq<char>, Seq<u8>>, limit: u64) -> Seq<
    Seq<u8>,
>
    decreases keys.len(),
{
    if keys.len() == 0 {
        seq![Seq::<u8>::empty()]
    } else {
        add_record(layout(keys.drop_last(), m, limit), limit, put_bytes(keys.last(), m[keys.last()]))
    }
}

/// The bytes of an optional value.
pub open spec fn opt_slice_view(v: Option<&[u8]>) -> Option<Seq<u8>> {
    match v {
        Some(b) => Some(b@),
        None => None,
    }
}

/// The byte images of segment files.
pub open spec fn file_images(files: Seq<(usize, Vec<u8>)>) -> Seq<Seq<u8>> {
    files.map_values(|f: (usize, Vec<u8>)| f.1@)
}

/// The ids of segment files.
pub open spec fn file_ids(files: Seq<(usize, Vec<u8>)>) -> Seq<usize> {
    files.map_values(|f: (usize, Vec<u8>)| f.0)
}

/// Each image cut to its longest decodable prefix.
pub open spec fn trimmed(images: Seq<Seq<u8>>) -> Seq<Seq<u8>> {
    images.map_values(|d: Seq<u8>| d.subrange(0, valid_len(d) as int))
}

/// Total length of the segment images.
pub open spec fn total_len(log: Seq<Seq<u8>>) -> nat
    decreases log.len(),
{
    if log.len() == 0 {
        0
    } else {
        total_len(log.drop_last()) + log.last().len()
    }
}

/// A key-value store over a segmented log held in memory.
pub struct KVStore {
    segments: Vec<Segment>,
    index: Index,
    limit: u64,
}

impl View for KVStore {
    type V = Map<Seq<char>, Seq<u8>>;

    /// The live keys and their values: the replay of the log, latest record wins.
    closed spec fn view(&self) -> Map<Seq<char>, Seq<u8>> {
        replay_log(self.log())
    }
}

impl KVStore {
    /// The byte image of each segment, oldest first.
    pub closed spec fn log(&self) -> Seq<Seq<u8>> {
        self.segments@.map_values(|s: Segment| s.image())
    }

    /// The id of each segment, oldest first.
    pub closed spec fn ids(&self) -> Seq<usize> {
        self.segments@.map_values(|s: Segment| s.sid())
    }

    /// The size at which a segment is full.
    pub closed spec fn size_limit(&self) -> u64 {
        self.limit
    }

    /// The order in which `list_keys` returns the keys.
    pub closed spec fn key_seq(&self) -> Seq<Seq<char>> {
        self.index.key_seq()
    }

    /// The id of the segment that takes appends.
    pub open spec fn active_id(&self) -> usize {
        self.ids().last()
    }

    /// The next write must first open a new segment.
    pub open spec fn must_rotate(&self) -> bool {
        self.log().last().len() >= self.size_limit()
    }

    /// Segment `i` holds, at `loc`'s offset, the latest record of `k`.
    pub closed spec fn holds_at(&self, i: int, k: Seq<char>, loc: Location) -> bool {
        &&& 0 <= i < self.segments@.len()
        &&& self.segments@[i].sid() == loc.0
        &&& loc.1 < self.segments@[i].image().len()
        &&& decode_spec(self.segments@[i].image(), loc.1 as int) is Record
        &&& decode_spec(self.segments@[i].image(), loc.1 as int)->key == k
        &&& decode_spec(self.segments@[i].image(), loc.1 as int)->value == Some(self@[k])
    }

    /// The store's invariant: at least one segment, ids strictly increasing,
    /// each segment whole records, and the index pointing at the latest put
    /// of exactly the live keys.
    pub closed spec fn wf(&self) -> bool {
        &&& self.segments@.len() > 0
        &&& forall|i: int|
            0 <= i < self.segments@.len() ==> {
                &&& (#[trigger] self.segments@[i]).wf()
                &&& self.segments@[i].size_limit() == self.limit
            }
        &&& forall|i: int, j: int|
            0 <= i < j < self.segments@.len() ==> (#[trigger] self.segments@[i]).sid()
                < (#[trigger] self.segments@[j]).sid()
        &&& self.index.wf()
        &&& self.index@.dom() == self@.dom()
        &&& forall|k: Seq<char>|
            #[trigger] self.index@.contains_key(k) ==> {
                &&& self.index@[k].2 == self@[k].len()
                &&& exists|i: int| #[trigger] self.holds_at(i, k, self.index@[k])
            }
    }

    /// A well-formed store has one id per segment image, at least one
    /// segment, and strictly increasing ids.
    pub proof fn lemma_ids(&self)
        requires
            self.wf(),
        ensures
            self.ids().len() == self.log().len(),
            self.log().len() > 0,
            forall|i: int, j: int| 0 <= i < j < self.ids().len() ==> self.ids()[i] < self.ids()[j],
    {
        self.lemma_log_facts();
        assert forall|i: int, j: int| 0 <= i < j < self.ids().len() implies self.ids()[i]
            < self.ids()[j] by {
            assert(self.segments@[i].sid() < self.segments@[j].sid());
        }
    }

    proof fn lemma_log_facts(&self)
        ensures
            self.log().len() == self.segments@.len(),
            self.ids().len() == self.segments@.len(),
            forall|i: int|
                0 <= i < self.segments@.len() ==> #[trigger] self.log()[i]
                    == self.segments@[i].image() && self.ids()[i] == self.segments@[i].sid(),
    {
    }

    /// A store with one empty segment.
    fn start(id: usize, limit: u64) -> (r: KVStore)
        ensures
            r.wf(),
            r.log() == seq![Seq::<u8>::empty()],
            r.ids() == seq![id],
            r@ == Map::<Seq<char>, Seq<u8>>::empty(),
            r.size_limit() == limit,
            r.key_seq() == Seq::<Seq<char>>::empty(),
    {
        let mut segments: Vec<Segment> = Vec::new();
        segments.push(Segment::new(id, limit));
        let r = KVStore { segments, index: Index::new(), limit };
        proof {
            assert(r.log() =~= seq![Seq::<u8>::empty()]);
            assert(r.ids() =~= seq![id]);
            lemma_replay_log_push_empty(Seq::<Seq<u8>>::empty());
            assert(seq![Seq::<u8>::empty()] =~= Seq::<Seq<u8>>::empty().push(Seq::<u8>::empty()));
            assert(r@ =~= Map::<Seq<char>, Seq<u8>>::empty());
            assert(r.index@.dom() =~= r@.dom());
        }
        r
    }

    /// Appends a record for `key` to the active segment and points the index
    /// at it: a put when `value` is present, else a tombstone. Returns the
    /// record's offset and bytes.
    fn append_entry(&mut self, key: &str, value: Option<&[u8]>) -> (r: (u64, Vec<u8>))
        requires
            old(self).wf(),
            encodable(key@, opt_slice_view(value)),
        ensures
            final(self).wf(),
            final(self).log() == old(self).log().update(
                old(self).log().len() - 1,
                old(self).log().last() + record_bytes(key@, opt_slice_view(value)),
            ),
            final(self).ids() == old(self).ids(),
            final(self)@ == apply_entry(old(self)@, (key@, opt_slice_view(value))),
            final(self).size_limit() == old(self).size_limit(),
            r.0 == old(self).log().last().len(),
            r.1@ == record_bytes(key@, opt_slice_view(value)),
            value is Some ==> final(self).key_seq() == if old(self)@.contains_key(key@) {
                old(self).key_seq()
            } else {
                old(self).key_seq().push(key@)
            },
            value is None && !old(self)@.contains_key(key@) ==> final(self).key_seq() == old(self).key_seq(),
    {
        proof {
            self.lemma_log_facts();
        }
        let ghost old_self = *self;
        let ghost val = opt_slice_view(value);
        let rec = match value {
            Some(v) => encode_put(key, v),
            None => encode_tombstone(key),
        };
        let mut seg = self.segments.pop().unwrap();
        let ghost old_last = seg.image();
        let offset = seg.len();
        proof {
            seg.lemma_clean();
            lemma_replay_log_append(old_self.log(), key@, val);
        }
        seg.push_record(&rec);
        let seg_id = seg.id();
        self.segments.push(seg);
        match value {
            Some(v) => {
                self.index.insert(key.to_owned(), seg_id, offset, v.len() as u64);
            },
            None => {
                let _ = self.index.remove(key);
            },
        }
        proof {
            let n = old_self.segments@.len() - 1;
            assert(self.segments@ =~= old_self.segments@.update(n, seg));
            assert(self.log() =~= old_self.log().update(n, old_last + rec@));
            assert(self.ids() =~= old_self.ids());
            vstd::bytes::lemma_auto_spec_u64_to_from_le_bytes();
            assert forall|i: int, j: int|
                0 <= i < j < self.segments@.len() implies (#[trigger] self.segments@[i]).sid()
                < (#[trigger] self.segments@[j]).sid() by {
                assert(old_self.segments@[i].sid() < old_self.segments@[j].sid());
            }
            assert forall|i: int| 0 <= i < self.segments@.len() implies {
                &&& (#[trigger] self.segments@[i]).wf()
                &&& self.segments@[i].size_limit() == self.limit
            } by {
                assert(old_self.segments@[i].wf());
            }
            assert(self.index@.dom() =~= self@.dom());
            assert forall|k: Seq<char>| #[trigger] self.index@.contains_key(k) implies {
                &&& self.index@[k].2 == self@[k].len()
                &&& exists|i: int| #[trigger] self.holds_at(i, k, self.index@[k])
            } by {
                if k == key@ {
                    lemma_decode_appended(old_last, key@, val);
                    assert(self.holds_at(n, k, self.index@[k]));
                } else {
                    let loc = old_self.index@[k];
                    let i = choose|i: int| #[trigger] old_self.holds_at(i, k, loc);
                    if i == n {
                        lemma_decode_spec_extend(old_last, rec@, loc.1 as int);
                    }
                    assert(self.holds_at(i, k, self.index@[k]));
                }
            }
        }
        (offset, rec)
    }

    /// Opens a new, empty segment with a higher id; it takes the appends from now on.
    fn open_segment(&mut self, id: usize)
        requires
            old(self).wf(),
            id > old(self).active_id(),
        ensures
            final(self).wf(),
            final(self).log() == old(self).log().push(Seq::<u8>::empty()),
            final(self).ids() == old(self).ids().push(id),
            final(self)@ == old(self)@,
            final(self).size_limit() == old(self).size_limit(),
            final(self).key_seq() == old(self).key_seq(),
    {
        proof {
            self.lemma_log_facts();
        }
        let ghost old_self = *self;
        let seg = Segment::new(id, self.limit);
        self.segments.push(seg);
        proof {
            assert(self.log() =~= old_self.log().push(Seq::<u8>::empty()));
            assert(self.ids() =~= old_self.ids().push(id));
            lemma_replay_log_push_empty(old_self.log());
            let n = old_self.segments@.len();
            assert forall|i: int, j: int|
                0 <= i < j < self.segments@.len() implies (#[trigger] self.segments@[i]).sid()
                < (#[trigger] self.segments@[j]).sid() by {
                if j == n && i < n - 1 {
                    assert(old_self.segments@[i].sid() < old_self.segments@[n - 1].sid());
                }
            }
            assert forall|k: Seq<char>| #[trigger] self.index@.contains_key(k) implies {
                &&& self.index@[k].2 == self@[k].len()
                &&& exists|i: int| #[trigger] self.holds_at(i, k, self.index@[k])
            } by {
                let i = choose|i: int| #[trigger] old_self.holds_at(i, k, old_self.index@[k]);
                assert(self.holds_at(i, k, self.index@[k]));
            }
        }
    }
}

impl KVStore {
    /// A store with one empty segment, id 0, whose segments are full at
    /// `segment_size` bytes.
    pub fn new(segment_size: u64) -> (r: KVStore)
        ensures
            r.wf(),
            r@ == Map::<Seq<char>, Seq<u8>>::empty(),
            r.log() == seq![Seq::<u8>::empty()],
            r.ids() == seq![0usize],
            r.size_limit() == segment_size,
            r.key_seq() == Seq::<Seq<char>>::empty(),
    {
        KVStore::start(0, segment_size)
    }

    /// Replays the records that a prefix scan of `data` decodes into the
    /// active segment, which is empty; the segment keeps exactly those records.
    fn replay_segment(&mut self, data: &[u8])
        requires
            old(self).wf(),
            old(self).log().last() == Seq::<u8>::empty(),
        ensures
            final(self).wf(),
            final(self).log() == old(self).log().update(
                old(self).log().len() - 1,
                data@.subrange(0, valid_len(data@) as int),
            ),
            final(self).ids() == old(self).ids(),
            final(self)@ == replay_entries(old(self)@, scan_front(data@)),
            final(self).size_limit() == old(self).size_limit(),
    {
        proof {
            self.lemma_log_facts();
        }
        let ghost old_self = *self;
        let ghost last = old_self.log().len() - 1;
        let n = data.len();
        let mut off: usize = 0;
        let mut done = false;
        proof {
            assert(data@.subrange(0, 0) =~= Seq::<u8>::empty());
            assert(old_self.log().update(last, data@.subrange(0, 0)) =~= old_self.log());
            assert(data@.subrange(0, data@.len() as int) =~= data@);
        }
        while !done
            invariant
                off <= data@.len(),
                n == data@.len(),
                old_self.log().len() > 0,
                last == old_self.log().len() - 1,
                self.wf(),
                self.ids() == old_self.ids(),
                self.size_limit() == old_self.size_limit(),
                self.log() == old_self.log().update(last, data@.subrange(0, off as int)),
                valid_len(data@) == off + valid_len(data@.subrange(off as int, data@.len() as int)),
                replay_entries(old_self@, scan_front(data@)) == replay_entries(
                    self@,
                    scan_front(data@.subrange(off as int, data@.len() as int)),
                ),
                done ==> !(decode_spec(data@, off as int) is Record),
            decreases data@.len() - off + (if done { 0int } else { 1int }),
        {
            let ghost rest = data@.subrange(off as int, data@.len() as int);
            match decode_at(data, off) {
                Decoded::Record { key, value, size } => {
                    let vref: Option<&[u8]> = match &value {
                        Some(v) => Some(v.as_slice()),
                        None => None,
                    };
                    proof {
                        lemma_encode_decode(rest);
                        crate::codec::lemma_record_size(rest);
                        assert(opt_slice_view(vref) == opt_bytes_view(value));
                        assert(rest.subrange(0, size as int) == record_bytes(
                            key@,
                            opt_bytes_view(value),
                        ));
                    }
                    let ghost before = *self;
                    self.append_entry(key.as_str(), vref);
                    let ghost rest2 = data@.subrange(off + size, data@.len() as int);
                    proof {
                        before.lemma_log_facts();
                        assert(before.log().last() == data@.subrange(0, off as int));
                        assert(rest.subrange(size as int, rest.len() as int) =~= rest2);
                        assert(data@.subrange(0, off + size) =~= data@.subrange(0, off as int)
                            + rest.subrange(0, size as int));
                        assert(self.log() =~= old_self.log().update(
                            last,
                            data@.subrange(0, off + size),
                        ));
                        let e = (key@, opt_bytes_view(value));
                        assert(scan_front(rest) =~= seq![e] + scan_front(rest2));
                        assert(scan_front(rest)[0] == e);
                        assert(scan_front(rest).drop_first() =~= scan_front(rest2));
                    }
                    off = off + size;
                },
                _ => {
                    done = true;
                },
            }
        }
        proof {
            let rest = data@.subrange(off as int, data@.len() as int);
            assert(scan_front(rest) =~= Seq::<crate::log::Entry>::empty());
        }
    }

    /// The store that a set of segment files holds, oldest first: each file is
    /// scanned until its records stop decoding, the index is rebuilt with the
    /// latest record of each key winning, and the newest file takes appends.
    /// Bytes after a file's last whole record are dropped. Without files the
    /// store starts with an empty segment 0.
    pub fn recover(files: &[(usize, Vec<u8>)], segment_size: u64) -> (r: KVStore)
        requires
            forall|i: int, j: int| 0 <= i < j < files@.len() ==> files@[i].0 < files@[j].0,
        ensures
            r.wf(),
            r.size_limit() == segment_size,
            r@ == replay_log(file_images(files@)),
            files@.len() == 0 ==> r.log() == seq![Seq::<u8>::empty()] && r.ids() == seq![0usize],
            files@.len() > 0 ==> r.log() == trimmed(file_images(files@)) && r.ids() == file_ids(
                files@,
            ),
    {
        if files.len() == 0 {
            let r = KVStore::start(0, segment_size);
            proof {
                assert(file_images(files@) =~= Seq::<Seq<u8>>::empty());
            }
            return r;
        }
        let ghost imgs = file_images(files@);
        let ghost trims = trimmed(imgs);
        let ghost ids = file_ids(files@);
        let mut store = KVStore::start(files[0].0, segment_size);
        let mut i: usize = 0;
        proof {
            assert(trims.subrange(0, 0).push(Seq::<u8>::empty()) =~= seq![Seq::<u8>::empty()]);
            assert(ids.subrange(0, 0).push(files@[0].0) =~= seq![files@[0].0]);
            assert(replay_log(Seq::<Seq<u8>>::empty()) == Map::<Seq<char>, Seq<u8>>::empty());
            assert(trims.subrange(0, 0) =~= Seq::<Seq<u8>>::empty());
        }
        while i < files.len()
            invariant
                i <= files@.len(),
                files@.len() > 0,
                imgs == file_images(files@),
                trims == trimmed(imgs),
                ids == file_ids(files@),
                forall|a: int, b: int| 0 <= a < b < files@.len() ==> files@[a].0 < files@[b].0,
                store.wf(),
                store.size_limit() == segment_size,
                i == 0 ==> store.log() == seq![Seq::<u8>::empty()] && store.ids() == seq![
                    files@[0].0,
                ],
                i > 0 ==> store.log() == trims.subrange(0, i as int) && store.ids()
                    == ids.subrange(0, i as int),
                store@ == replay_log(trims.subrange(0, i as int)),
            decreases files@.len() - i,
        {
            if i > 0 {
                proof {
                    store.lemma_log_facts();
                    assert(store.active_id() == files@[i - 1].0);
                }
                store.open_segment(files[i].0);
            }
            proof {
                store.lemma_log_facts();
                assert(store.log() =~= trims.subrange(0, i as int).push(Seq::<u8>::empty()));
                assert(store.ids() =~= ids.subrange(0, i as int).push(files@[i as int].0));
            }
            let ghost before = store;
            store.replay_segment(files[i].1.as_slice());
            proof {
                let d = files@[i as int].1@;
                lemma_valid_prefix(d);
                assert(imgs[i as int] == d);
                assert(trims[i as int] == d.subrange(0, valid_len(d) as int));
                assert(store.log() =~= trims.subrange(0, i + 1));
                assert(store.ids() =~= ids.subrange(0, i + 1));
                assert(trims.subrange(0, i + 1).drop_last() =~= trims.subrange(0, i as int));
            }
            i = i + 1;
        }
        proof {
            assert(trims.subrange(0, files@.len() as int) =~= trims);
            assert(ids.subrange(0, files@.len() as int) =~= ids);
            assert forall|k: int| 0 <= k < trims.len() implies scan_front(#[trigger] trims[k])
                == scan_front(imgs[k]) by {
                lemma_valid_prefix(imgs[k]);
            }
            lemma_replay_log_scans(trims, imgs);
        }
        store
    }

    /// The store that a directory's segment files hold, in any order: the
    /// files are put in id order and replayed as `recover` does. Two files
    /// with the same id are reported as corrupted data.
    pub fn open_files(files: Vec<(usize, Vec<u8>)>, segment_size: u64) -> (r: Result<
        KVStore,
        StoreError,
    >)
        ensures
            r is Ok <==> ids_distinct(files@),
            r is Err ==> r->Err_0 is CorruptedData,
            r is Ok ==> r->Ok_0.wf() && r->Ok_0.size_limit() == segment_size && exists|
                sorted: Seq<(usize, Vec<u8>)>,
            |
                {
                    &&& ids_ascending(sorted)
                    &&& sorted.len() == files@.len()
                    &&& forall|x: (usize, Vec<u8>)| sorted.contains(x) <==> files@.contains(x)
                    &&& r->Ok_0@ == #[trigger] replay_log(file_images(sorted))
                    &&& sorted.len() == 0 ==> r->Ok_0.log() == seq![Seq::<u8>::empty()]
                        && r->Ok_0.ids() == seq![0usize]
                    &&& sorted.len() > 0 ==> r->Ok_0.log() == trimmed(file_images(sorted))
                        && r->Ok_0.ids() == file_ids(sorted)
                },
    {
        let sorted = order_segment_files(files)?;
        let store = KVStore::recover(sorted.as_slice(), segment_size);
        proof {
            assert(replay_log(file_images(sorted@)) == store@);
        }
        Ok(store)
    }

    /// Opens the next segment when the active one is full.
    fn rotate_if_full(&mut self) -> (r: Result<(), StoreError>)
        requires
            old(self).wf(),
        ensures
            final(self).wf(),
            final(self)@ == old(self)@,
            final(self).size_limit() == old(self).size_limit(),
            final(self).key_seq() == old(self).key_seq(),
            r is Err <==> old(self).must_rotate() && old(self).active_id() == usize::MAX,
            r is Err ==> r->Err_0 is Io && final(self).log() == old(self).log() && final(self).ids() == old(self).ids(),
            r is Ok ==> final(self).log() == if old(self).must_rotate() {
                old(self).log().push(Seq::<u8>::empty())
            } else {
                old(self).log()
            },
            r is Ok ==> final(self).ids() == if old(self).must_rotate() {
                old(self).ids().push((old(self).active_id() + 1) as usize)
            } else {
                old(self).ids()
            },
    {
        proof {
            self.lemma_log_facts();
        }
        let n = self.segments.len();
        if self.segments[n - 1].is_full() {
            let id = self.segments[n - 1].id();
            if id == usize::MAX {
                return Err(StoreError::Io("segment id overflow".to_string()));
            }
            self.open_segment(id + 1);
        }
        Ok(())
    }

    /// Binds `key` to `value`: appends a put record to the active segment,
    /// first opening a new segment if the active one is full, and points the
    /// index at it. Returns what was appended.
    pub fn set(&mut self, key: &str, value: &[u8]) -> (r: Result<Append, StoreError>)
        requires
            old(self).wf(),
            value@.len() < TOMBSTONE_LEN,
        ensures
            final(self).wf(),
            final(self).size_limit() == old(self).size_limit(),
            r is Err <==> old(self).must_rotate() && old(self).active_id() == usize::MAX,
            r is Err ==> r->Err_0 is Io && final(self)@ == old(self)@ && final(self).log() == old(self).log() && final(self).ids() == old(self).ids() && final(self).key_seq() == old(self).key_seq(),
            r is Ok ==> {
                &&& final(self)@ == old(self)@.insert(key@, value@)
                &&& final(self).log() == add_record(
                    old(self).log(),
                    old(self).size_limit(),
                    put_bytes(key@, value@),
                )
                &&& final(self).ids() == if old(self).must_rotate() {
                    old(self).ids().push((old(self).active_id() + 1) as usize)
                } else {
                    old(self).ids()
                }
                &&& r->Ok_0.segment_id == final(self).active_id()
                &&& r->Ok_0.offset == if old(self).must_rotate() {
                    0
                } else {
                    old(self).log().last().len()
                }
                &&& r->Ok_0.bytes@ == put_bytes(key@, value@)
                &&& final(self).key_seq() == if old(self)@.contains_key(key@) {
                    old(self).key_seq()
                } else {
                    old(self).key_seq().push(key@)
                }
            },
    {
        let kb = key.as_bytes();
        let _ = kb.len();
        let ghost old_self = *self;
        self.rotate_if_full()?;
        let ghost mid = *self;
        let (offset, bytes) = self.append_entry(key, Some(value));
        proof {
            self.lemma_log_facts();
            mid.lemma_log_facts();
            if old_self.must_rotate() {
                assert(self.log() =~= old_self.log().push(put_bytes(key@, value@)));
            }
        }
        let segment_id = self.segments[self.segments.len() - 1].id();
        Ok(Append { segment_id, offset, bytes })
    }

    /// Removes `key`: when it is live, appends a tombstone to the active
    /// segment (first opening a new segment if the active one is full) and
    /// drops it from the index. Removing an absent key writes nothing.
    pub fn delete(&mut self, key: &str) -> (r: Result<Option<Append>, StoreError>)
        requires
            old(self).wf(),
        ensures
            final(self).wf(),
            final(self).size_limit() == old(self).size_limit(),
            final(self)@ == if r is Ok {
                old(self)@.remove(key@)
            } else {
                old(self)@
            },
            r is Err <==> old(self)@.contains_key(key@) && old(self).must_rotate()
                && old(self).active_id() == usize::MAX,
            r is Err ==> r->Err_0 is Io,
            r == Ok::<Option<Append>, StoreError>(None) <==> !old(self)@.contains_key(key@),
            !old(self)@.contains_key(key@) || r is Err ==> final(self).log() == old(self).log()
                && final(self).ids() == old(self).ids() && final(self).key_seq() == old(self).key_seq(),
            r is Ok && r->Ok_0 is Some ==> {
                &&& final(self).log() == add_record(
                    old(self).log(),
                    old(self).size_limit(),
                    tombstone_bytes(key@),
                )
                &&& final(self).ids() == if old(self).must_rotate() {
                    old(self).ids().push((old(self).active_id() + 1) as usize)
                } else {
                    old(self).ids()
                }
                &&& r->Ok_0->Some_0.segment_id == final(self).active_id()
                &&& r->Ok_0->Some_0.offset == if old(self).must_rotate() {
                    0
                } else {
                    old(self).log().last().len()
                }
                &&& r->Ok_0->Some_0.bytes@ == tombstone_bytes(key@)
            },
    {
        if !self.index.contains(key) {
            proof {
                assert(self@.remove(key@) =~= self@);
            }
            return Ok(None);
        }
        let kb = key.as_bytes();
        let _ = kb.len();
        let ghost old_self = *self;
        self.rotate_if_full()?;
        let (offset, bytes) = self.append_entry(key, None);
        proof {
            self.lemma_log_facts();
            if old_self.must_rotate() {
                assert(self.log() =~= old_self.log().push(tombstone_bytes(key@)));
            }
        }
        let segment_id = self.segments[self.segments.len() - 1].id();
        Ok(Some(Append { segment_id, offset, bytes }))
    }

    fn find_segment(&self, id: usize) -> (r: Option<usize>)
        ensures
            match r {
                Some(i) => i < self.segments@.len() && self.segments@[i as int].sid() == id,
                None => forall|i: int|
                    0 <= i < self.segments@.len() ==> (#[trigger] self.segments@[i]).sid() != id,
            },
    {
        let mut i: usize = 0;
        while i < self.segments.len()
            invariant
                i <= self.segments@.len(),
                forall|j: int| 0 <= j < i ==> (#[trigger] self.segments@[j]).sid() != id,
            decreases self.segments@.len() - i,
        {
            if self.segments[i].id() == id {
                return Some(i);
            }
            i = i + 1;
        }
        None
    }

    /// The value bound to `key`, or `None` when it is not live. The index
    /// invariant guarantees that the record found at the indexed location is
    /// a put of `key` whose checksum validates, so the read cannot fail on a
    /// well-formed store.
    pub fn get(&self, key: &str) -> (r: Result<Option<Vec<u8>>, StoreError>)
        requires
            self.wf(),
        ensures
            r is Ok,
            match r {
                Ok(Some(v)) => self@.contains_key(key@) && v@ == self@[key@],
                Ok(None) => !self@.contains_key(key@),
                Err(_) => false,
            },
    {
        let loc = match self.index.get(key) {
            None => {
                return Ok(None);
            },
            Some(loc) => *loc,
        };
        let ghost j = choose|j: int| #[trigger] self.holds_at(j, key@, loc);
        let i = match self.find_segment(loc.0) {
            None => {
                proof {
                    assert(self.segments@[j].sid() != loc.0);
                }
                return Err(StoreError::SegmentNotFound(loc.0));
            },
            Some(i) => i,
        };
        proof {
            if (i as int) < j {
                assert(self.segments@[i as int].sid() < self.segments@[j].sid());
            } else if (i as int) > j {
                assert(self.segments@[j].sid() < self.segments@[i as int].sid());
            }
            assert(self.segments@[i as int].wf());
        }
        match self.segments[i].read_value_at(loc.1) {
            Ok(Some(v)) => Ok(Some(v)),
            Ok(None) => Err(StoreError::CorruptedData("tombstone where a value was indexed".to_string())),
            Err(e) => Err(e),
        }
    }

    /// The live keys, each once, in the index's order.
    pub fn list_keys(&self) -> (r: Vec<String>)
        requires
            self.wf(),
        ensures
            r@.map_values(|s: String| s@) == self.key_seq(),
            r@.map_values(|s: String| s@).no_duplicates(),
            forall|k: Seq<char>|
                self@.contains_key(k) <==> r@.map_values(|s: String| s@).contains(k),
    {
        proof {
            self.index.lemma_key_seq();
        }
        self.index.keys()
    }

    /// Every live value can be written again as a record.
    proof fn lemma_value_encodable(&self, k: Seq<char>)
        requires
            self.wf(),
            self@.contains_key(k),
        ensures
            encodable(k, Some(self@[k])),
    {
        let loc = self.index@[k];
        assert(self.index@.contains_key(k));
        let i = choose|i: int| #[trigger] self.holds_at(i, k, loc);
        let img = self.segments@[i].image();
        lemma_encode_decode(img.subrange(loc.1 as int, img.len() as int));
    }

    /// A fresh store holding the live keys with their values, written as
    /// puts in the order of `list_keys` into segments numbered from 0.
    fn compacted(&self) -> (r: KVStore)
        requires
            self.wf(),
        ensures
            r.wf(),
            r@ == self@,
            r.key_seq() == self.key_seq(),
            r.size_limit() == self.size_limit(),
            r.log() == layout(self.key_seq(), self@, self.size_limit()),
            forall|j: int| 0 <= j < r.ids().len() ==> r.ids()[j] == j,
    {
        let ghost ks = self.key_seq();
        proof {
            self.index.lemma_key_seq();
        }
        let keys = self.index.keys();
        let mut fresh = KVStore::start(0, self.limit);
        let mut i: usize = 0;
        proof {
            assert(ks.subrange(0, 0) =~= Seq::<Seq<char>>::empty());
            assert(fresh@ =~= Map::new(|k: Seq<char>| ks.subrange(0, 0).contains(k), |k| self@[k]));
        }
        while i < keys.len()
            invariant
                self.wf(),
                i <= keys@.len(),
                keys@.map_values(|s: String| s@) == ks,
                ks == self.key_seq(),
                ks.no_duplicates(),
                forall|k: Seq<char>| self@.contains_key(k) <==> ks.contains(k),
                fresh.wf(),
                fresh.size_limit() == self.limit,
                fresh.key_seq() == ks.subrange(0, i as int),
                fresh@ == Map::new(|k: Seq<char>| ks.subrange(0, i as int).contains(k), |k| self@[k]),
                fresh.log() == layout(ks.subrange(0, i as int), self@, self.limit),
                fresh.active_id() <= i,
                forall|j: int| 0 <= j < fresh.ids().len() ==> fresh.ids()[j] == j,
            decreases keys@.len() - i,
        {
            let key = &keys[i];
            let ghost k = key@;
            proof {
                assert(ks[i as int] == k);
                assert(ks.contains(k));
                self.lemma_value_encodable(k);
                fresh.lemma_log_facts();
            }
            let value = match self.get(key.as_str()) {
                Ok(Some(v)) => v,
                _ => {
                    proof {
                        assert(false);
                    }
                    Vec::new()
                },
            };
            let ghost before = fresh;
            proof {
                assert(!ks.subrange(0, i as int).contains(k)) by {
                    if ks.subrange(0, i as int).contains(k) {
                        let j = choose|j: int| 0 <= j < i && ks.subrange(0, i as int)[j] == k;
                        assert(ks[j] == ks[i as int]);
                    }
                }
            }
            match fresh.set(key.as_str(), value.as_slice()) {
                Ok(_) => {},
                Err(_) => {
                    proof {
                        assert(false);
                    }
                },
            }
            proof {
                fresh.lemma_log_facts();
                before.lemma_log_facts();
                let s1 = ks.subrange(0, i + 1);
                assert(s1.drop_last() =~= ks.subrange(0, i as int));
                assert(s1.last() == k);
                assert(ks.subrange(0, i as int).push(k) =~= s1);
                assert(fresh@ =~= Map::new(|x: Seq<char>| s1.contains(x), |x| self@[x])) by {
                    assert forall|x: Seq<char>| s1.contains(x) <==> (ks.subrange(
                        0,
                        i as int,
                    ).contains(x) || x == k) by {
                        if s1.contains(x) {
                            let j = choose|j: int| 0 <= j < s1.len() && s1[j] == x;
                            if j < i {
                                assert(ks.subrange(0, i as int)[j] == x);
                            }
                        }
                        if ks.subrange(0, i as int).contains(x) {
                            let j = choose|j: int|
                                0 <= j < i && ks.subrange(0, i as int)[j] == x;
                            assert(s1[j] == x);
                        }
                        if x == k {
                            assert(s1[i as int] == x);
                        }
                    }
                }
                assert(before.ids().len() > 0);
                assert(before.active_id() == before.ids().len() - 1);
                assert forall|j: int| 0 <= j < fresh.ids().len() implies fresh.ids()[j] == j by {
                    if j < before.ids().len() {
                        assert(fresh.ids()[j] == before.ids()[j]);
                    }
                }
            }
            i = i + 1;
        }
        proof {
            assert(ks.subrange(0, keys@.len() as int) =~= ks);
            assert(keys@.len() == ks.len());
            assert(fresh@ =~= self@);
        }
        fresh
    }

    /// Rewrites the live data into fresh segments numbered from 0: each live
    /// key once, as a put of its value, in the order of `list_keys`, opening a
    /// new segment whenever the current one reaches the size limit. Superseded
    /// puts and tombstones are gone afterwards; the live keys and values are
    /// unchanged.
    pub fn compact(&mut self)
        requires
            old(self).wf(),
        ensures
            final(self).wf(),
            final(self)@ == old(self)@,
            final(self).key_seq() == old(self).key_seq(),
            final(self).size_limit() == old(self).size_limit(),
            final(self).log() == layout(old(self).key_seq(), old(self)@, old(self).size_limit()),
            forall|j: int| 0 <= j < final(self).ids().len() ==> final(self).ids()[j] == j,
    {
        let fresh = self.compacted();
        *self = fresh;
    }

    /// Counts that describe the store; `total_bytes` saturates at `u64::MAX`.
    pub fn stats(&self) -> (r: StoreStats)
        requires
            self.wf(),
        ensures
            r.num_keys == self@.len(),
            r.num_segments == self.log().len(),
            r.total_bytes == if total_len(self.log()) <= u64::MAX {
                total_len(self.log())
            } else {
                u64::MAX as nat
            },
            r.active_segment_id == self.active_id(),
            r.oldest_segment_id == self.ids()[0],
    {
        proof {
            self.lemma_log_facts();
            assert(self.index@.dom() == self@.dom());
        }
        let n = self.segments.len();
        let mut total: u64 = 0;
        let mut i: usize = 0;
        while i < n
            invariant
                n == self.segments@.len(),
                i <= n,
                self.wf(),
                total == if total_len(self.log().subrange(0, i as int)) <= u64::MAX {
                    total_len(self.log().subrange(0, i as int))
                } else {
                    u64::MAX as nat
                },
            decreases n - i,
        {
            proof {
                self.lemma_log_facts();
                assert(self.segments@[i as int].wf());
                assert(self.log().subrange(0, i + 1).drop_last() =~= self.log().subrange(0, i as int));
            }
            let len = self.segments[i].len();
            if total > u64::MAX - len {
                total = u64::MAX;
            } else {
                total = total + len;
            }
            i = i + 1;
        }
        proof {
            assert(self.log().subrange(0, n as int) =~= self.log());
            assert(self.index@.len() == self@.len());
        }
        StoreStats {
            num_keys: self.index.len(),
            num_segments: n,
            total_bytes: total,
            active_segment_id: self.segments[n - 1].id(),
            oldest_segment_id: self.segments[0].id(),
        }
    }

    /// The size at which a segment counts as full.
    pub fn segment_size(&self) -> (r: u64)
        ensures
            r == self.size_limit(),
    {
        self.limit
    }

    /// The id of each segment, oldest first.
    pub fn segment_ids(&self) -> (r: Vec<usize>)
        requires
            self.wf(),
        ensures
            r@ == self.ids(),
    {
        proof {
            self.lemma_log_facts();
        }
        let mut r: Vec<usize> = Vec::new();
        let mut i: usize = 0;
        while i < self.segments.len()
            invariant
                i <= self.segments@.len(),
                r@ == self.ids().subrange(0, i as int),
                self.ids().len() == self.segments@.len(),
                forall|j: int| 0 <= j < self.segments@.len() ==> self.ids()[j] == (#[trigger] self.segments@[j]).sid(),
            decreases self.segments@.len() - i,
        {
            r.push(self.segments[i].id());
            i = i + 1;
            assert(r@ =~= self.ids().subrange(0, i as int));
        }
        assert(self.ids().subrange(0, i as int) =~= self.ids());
        r
    }

    /// Each segment's id with a copy of its bytes, oldest first: what the
    /// segment files hold.
    pub fn segment_files(&self) -> (r: Vec<(usize, Vec<u8>)>)
        requires
            self.wf(),
        ensures
            file_images(r@) == self.log(),
            file_ids(r@) == self.ids(),
    {
        proof {
            self.lemma_log_facts();
        }
        let mut r: Vec<(usize, Vec<u8>)> = Vec::new();
        let mut i: usize = 0;
        while i < self.segments.len()
            invariant
                i <= self.segments@.len(),
                self.log().len() == self.segments@.len(),
                self.ids().len() == self.segments@.len(),
                forall|j: int|
                    0 <= j < self.segments@.len() ==> #[trigger] self.log()[j]
                        == self.segments@[j].image() && self.ids()[j] == self.segments@[j].sid(),
                r@.len() == i,
                file_images(r@) == self.log().subrange(0, i as int),
                file_ids(r@) == self.ids().subrange(0, i as int),
            decreases self.segments@.len() - i,
        {
            let bytes = slice_to_vec(self.segments[i].bytes());
            let ghost before = r@;
            assert(self.log()[i as int] == self.segments@[i as int].image());
            assert(bytes@ == self.log()[i as int]);
            r.push((self.segments[i].id(), bytes));
            assert(r@ == before.push((self.segments@[i as int].sid(), bytes)));
            assert forall|j: int| 0 <= j < i + 1 implies #[trigger] file_images(r@)[j]
                == self.log().subrange(0, i + 1)[j] by {
                if j < i {
                    assert(r@[j] == before[j]);
                    assert(file_images(before)[j] == self.log().subrange(0, i as int)[j]);
                }
            }
            assert(file_images(r@) =~= self.log().subrange(0, i + 1));
            assert(file_ids(r@) =~= self.ids().subrange(0, i + 1));
            i = i + 1;
        }
        assert(self.log().subrange(0, i as int) =~= self.log());
        assert(self.ids().subrange(0, i as int) =~= self.ids());
        r
    }

    /// The bytes of the `i`-th segment, oldest first.
    pub fn segment_bytes(&self, i: usize) -> (r: &[u8])
        requires
            i < self.log().len(),
        ensures
            r@ == self.log()[i as int],
    {
        self.segments[i].bytes()
    }

    /// Durability: reopening the store from the bytes of its segments, under
    /// their ids, gives back the state it held, and the same segments. The
    /// files are in the order `recover` asks for.
    pub proof fn lemma_reopen_same_state(&self, files: Seq<(usize, Vec<u8>)>)
        requires
            self.wf(),
            file_images(files) == self.log(),
            file_ids(files) == self.ids(),
        ensures
            forall|i: int, j: int| 0 <= i < j < files.len() ==> files[i].0 < files[j].0,
            replay_log(file_images(files)) == self@,
            trimmed(file_images(files)) == self.log(),
    {
        self.lemma_log_facts();
        assert forall|i: int, j: int| 0 <= i < j < files.len() implies files[i].0 < files[j].0 by {
            assert(file_ids(files)[i] == files[i].0);
            assert(file_ids(files)[j] == files[j].0);
            assert(self.segments@[i].sid() < self.segments@[j].sid());
        }
        assert forall|i: int| 0 <= i < self.log().len() implies #[trigger] trimmed(self.log())[i]
            == self.log()[i] by {
            assert(self.segments@[i].wf());
            self.segments@[i].lemma_clean();
            lemma_clean_valid_len(self.log()[i]);
            assert(self.log()[i].subrange(0, self.log()[i].len() as int) =~= self.log()[i]);
        }
        assert(trimmed(self.log()) =~= self.log());
    }

    /// Prefix crash tolerance: cutting the active segment at any byte leaves a
    /// log that replays to the state after exactly those of the active
    /// segment's records that end before the cut.
    pub proof fn lemma_cut_active_segment(&self, n: int)
        requires
            self.wf(),
            0 <= n <= self.log().last().len(),
        ensures
            self@ == replay_entries(
                replay_log(self.log().drop_last()),
                scan_front(self.log().last()),
            ),
            records_within(self.log().last(), n) <= scan_front(self.log().last()).len(),
            replay_log(self.log().update(self.log().len() - 1, self.log().last().subrange(0, n)))
                == replay_entries(
                replay_log(self.log().drop_last()),
                scan_front(self.log().last()).subrange(0, records_within(self.log().last(), n) as int),
            ),
    {
        self.lemma_log_facts();
        let last = self.log().len() - 1;
        assert(self.segments@[last].wf());
        self.segments@[last].lemma_clean();
        lemma_scan_cut(self.log().last(), n);
        let cut = self.log().update(last, self.log().last().subrange(0, n));
        assert(cut.drop_last() =~= self.log().drop_last());
        assert(cut.last() == self.log().last().subrange(0, n));
    }

    /// Compaction is idempotent: compacting the result of a compaction writes
    /// the very same segment bytes again. `c` is what `compact` makes of `s`.
    pub proof fn lemma_compact_idempotent(s: KVStore, c: KVStore)
        requires
            s.wf(),
            c.wf(),
            c@ == s@,
            c.key_seq() == s.key_seq(),
            c.size_limit() == s.size_limit(),
            c.log() == layout(s.key_seq(), s@, s.size_limit()),
        ensures
            layout(c.key_seq(), c@, c.size_limit()) == c.log(),
    {
    }
}

} // verus!
