//! The meaning of a log: the records a segment image holds, and the state
//! that replaying them produces.
use crate::codec::{
    body_len, decode_front, encodable, header_key_len, HEADER_SIZE, lemma_decode_encode, record_bytes, Decoding,
};
use vstd::prelude::*;

verus! {

/// One decoded record: a key and its value, or `None` for a tombstone.
pub type Entry = (Seq<char>, Option<Seq<u8>>);

/// The records that a prefix scan of `s` decodes, in order. The scan stops
/// at the end of the bytes or at the first record that does not decode.
pub open spec fn scan_front(s: Seq<u8>) -> Seq<Entry>
    decreases s.len(),
{
    match decode_front(s) {
        Decoding::Record { key, value, size } => if 0 < size <= s.len() {
            seq![(key, value)] + scan_front(s.subrange(size as int, s.len() as int))
        } else {
            Seq::empty()
        },
        _ => Seq::empty(),
    }
}

/// `s` is a sequence of whole records, with nothing after the last one.
pub open spec fn clean_front(s: Seq<u8>) -> bool
    decreases s.len(),
{
    match decode_front(s) {
        Decoding::EndOfFile => true,
        Decoding::Record { key, value, size } => if 0 < size <= s.len() {
            clean_front(s.subrange(size as int, s.len() as int))
        } else {
            false
        },
        _ => false,
    }
}

/// Length of the longest prefix of `s` that a scan decodes.
pub open spec fn valid_len(s: Seq<u8>) -> nat
    decreases s.len(),
{
    match decode_front(s) {
        Decoding::Record { key, value, size } => if 0 < size <= s.len() {
            size + valid_len(s.subrange(size as int, s.len() as int))
        } else {
            0
        },
        _ => 0,
    }
}

/// The effect of one record on the key-value state.
pub open spec fn apply_entry(m: Map<Seq<char>, Seq<u8>>, e: Entry) -> Map<Seq<char>, Seq<u8>> {
    match e.1 {
        Some(v) => m.insert(e.0, v),
        None => m.remove(e.0),
    }
}

/// The state after applying `es` in order to `m`.
pub open spec fn replay_entries(m: Map<Seq<char>, Seq<u8>>, es: Seq<Entry>) -> Map<
    Seq<char>,
    Seq<u8>,
>
    decreases es.len(),
{
    if es.len() == 0 {
        m
    } else {
        replay_entries(apply_entry(m, es[0]), es.drop_first())
    }
}

/// The state that replaying the segment images in order produces: every
/// record of each segment's scan, latest wins.
pub open spec fn replay_log(segs: Seq<Seq<u8>>) -> Map<Seq<char>, Seq<u8>>
    decreases segs.len(),
{
    if segs.len() == 0 {
        Map::empty()
    } else {
        replay_entries(replay_log(segs.drop_last()), scan_front(segs.last()))
    }
}

/// A record decodes the same from any bytes that agree with its own.
pub proof fn lemma_decode_window(s: Seq<u8>, t: Seq<u8>)
    requires
        decode_front(s) is Record,
        decode_front(s)->size <= t.len(),
        t.subrange(0, decode_front(s)->size as int) == s.subrange(
            0,
            decode_front(s)->size as int,
        ),
    ensures
        decode_front(t) == decode_front(s),
{
    let size = decode_front(s)->size as int;
    let c = s.subrange(0, size);
    assert(t.subrange(0, 8) =~= c.subrange(0, 8));
    assert(s.subrange(0, 8) =~= c.subrange(0, 8));
    assert(t.subrange(8, 16) =~= c.subrange(8, 16));
    assert(s.subrange(8, 16) =~= c.subrange(8, 16));
    assert(t.subrange(16, 20) =~= c.subrange(16, 20));
    assert(s.subrange(16, 20) =~= c.subrange(16, 20));
    let klen = header_key_len(s) as int;
    assert(t.subrange(20, 20 + klen) =~= c.subrange(20, 20 + klen));
    assert(s.subrange(20, 20 + klen) =~= c.subrange(20, 20 + klen));
    assert(t.subrange(20, size) =~= c.subrange(20, size));
    assert(s.subrange(20, size) =~= c.subrange(20, size));
    assert(t.subrange(20 + klen, size) =~= c.subrange(20 + klen, size));
    assert(s.subrange(20 + klen, size) =~= c.subrange(20 + klen, size));
}

/// A record at the front of `s` decodes the same once bytes are appended.
pub proof fn lemma_decode_extend(s: Seq<u8>, e: Seq<u8>)
    requires
        decode_front(s) is Record,
    ensures
        decode_front(s + e) == decode_front(s),
{
    let size = decode_front(s)->size as int;
    assert((s + e).subrange(0, size) =~= s.subrange(0, size));
    lemma_decode_window(s, s + e);
}

/// Scanning `p + q` where `p` holds whole records scans `p`, then `q`.
pub proof fn lemma_scan_concat(p: Seq<u8>, q: Seq<u8>)
    requires
        clean_front(p),
    ensures
        scan_front(p + q) == scan_front(p) + scan_front(q),
        clean_front(q) ==> clean_front(p + q),
        valid_len(p + q) == p.len() + valid_len(q),
    decreases p.len(),
{
    if p.len() == 0 {
        assert(p + q =~= q);
        assert(scan_front(p) =~= Seq::<Entry>::empty());
        assert(scan_front(p) + scan_front(q) =~= scan_front(q));
    } else {
        lemma_decode_extend(p, q);
        let size = decode_front(p)->size as int;
        let rest = p.subrange(size, p.len() as int);
        lemma_scan_concat(rest, q);
        assert((p + q).subrange(size, (p + q).len() as int) =~= rest + q);
        let d = decode_front(p);
        assert(scan_front(p + q) =~= scan_front(p) + scan_front(q));
    }
}

/// The bytes of one encodable record form a clean image that scans to that record.
pub proof fn lemma_scan_record(key: Seq<char>, value: Option<Seq<u8>>)
    requires
        encodable(key, value),
    ensures
        clean_front(record_bytes(key, value)),
        scan_front(record_bytes(key, value)) == seq![(key, value)],
{
    let b = record_bytes(key, value);
    lemma_decode_encode(key, value);
    let rest = b.subrange(b.len() as int, b.len() as int);
    assert(rest =~= Seq::<u8>::empty());
    assert(decode_front(rest) is EndOfFile);
    assert(clean_front(rest));
    assert(scan_front(rest) =~= Seq::<Entry>::empty());
    assert(scan_front(b) =~= seq![(key, value)]);
}

/// Appending one record to a clean image adds exactly that record to its scan.
pub proof fn lemma_scan_append(p: Seq<u8>, key: Seq<char>, value: Option<Seq<u8>>)
    requires
        clean_front(p),
        encodable(key, value),
    ensures
        clean_front(p + record_bytes(key, value)),
        scan_front(p + record_bytes(key, value)) == scan_front(p).push((key, value)),
{
    lemma_scan_record(key, value);
    lemma_scan_concat(p, record_bytes(key, value));
    assert(scan_front(p) + seq![(key, value)] =~= scan_front(p).push((key, value)));
}

/// Replaying `a` then `b` is replaying `a + b`.
pub proof fn lemma_replay_concat(m: Map<Seq<char>, Seq<u8>>, a: Seq<Entry>, b: Seq<Entry>)
    ensures
        replay_entries(m, a + b) == replay_entries(replay_entries(m, a), b),
    decreases a.len(),
{
    if a.len() == 0 {
        assert(a + b =~= b);
    } else {
        assert((a + b).drop_first() =~= a.drop_first() + b);
        lemma_replay_concat(apply_entry(m, a[0]), a.drop_first(), b);
    }
}

/// Replaying one more record applies it last.
pub proof fn lemma_replay_push(m: Map<Seq<char>, Seq<u8>>, a: Seq<Entry>, e: Entry)
    ensures
        replay_entries(m, a.push(e)) == apply_entry(replay_entries(m, a), e),
{
    lemma_replay_concat(m, a, seq![e]);
    assert(a + seq![e] =~= a.push(e));
    assert(seq![e].drop_first() =~= Seq::<Entry>::empty());
    let r = replay_entries(m, a);
    assert(replay_entries(apply_entry(r, e), Seq::<Entry>::empty()) == apply_entry(r, e));
    assert(replay_entries(r, seq![e]) == apply_entry(r, e));
}

/// Replay depends on each segment only through what its scan decodes.
pub proof fn lemma_replay_log_scans(a: Seq<Seq<u8>>, b: Seq<Seq<u8>>)
    requires
        a.len() == b.len(),
        forall|i: int| 0 <= i < a.len() ==> scan_front(#[trigger] a[i]) == scan_front(b[i]),
    ensures
        replay_log(a) == replay_log(b),
    decreases a.len(),
{
    if a.len() > 0 {
        assert forall|i: int| 0 <= i < a.drop_last().len() implies scan_front(
            #[trigger] a.drop_last()[i],
        ) == scan_front(b.drop_last()[i]) by {
            assert(a.drop_last()[i] == a[i]);
            assert(b.drop_last()[i] == b[i]);
        }
        lemma_replay_log_scans(a.drop_last(), b.drop_last());
        assert(scan_front(a.last()) == scan_front(b.last()));
    }
}

/// The longest decodable prefix of an image is clean and scans to the same records.
pub proof fn lemma_valid_prefix(s: Seq<u8>)
    ensures
        valid_len(s) <= s.len(),
        clean_front(s.subrange(0, valid_len(s) as int)),
        scan_front(s.subrange(0, valid_len(s) as int)) == scan_front(s),
    decreases s.len(),
{
    let vl = valid_len(s) as int;
    match decode_front(s) {
        Decoding::Record { key, value, size } => {
            if 0 < size <= s.len() {
                let rest = s.subrange(size as int, s.len() as int);
                lemma_valid_prefix(rest);
                let head = s.subrange(0, size as int);
                assert(head.subrange(0, size as int) =~= s.subrange(0, size as int));
                lemma_decode_window(s, head);
                let hrest = head.subrange(size as int, size as int);
                assert(hrest =~= Seq::<u8>::empty());
                assert(decode_front(hrest) is EndOfFile);
                assert(clean_front(hrest));
                assert(scan_front(hrest) =~= Seq::<Entry>::empty());
                assert(clean_front(head));
                assert(scan_front(head) =~= seq![(key, value)]);
                let tail = rest.subrange(0, valid_len(rest) as int);
                assert(s.subrange(0, vl) =~= head + tail);
                lemma_scan_concat(head, tail);
                assert(scan_front(s.subrange(0, vl)) =~= scan_front(s));
            } else {
                assert(s.subrange(0, 0) =~= Seq::<u8>::empty());
            }
        },
        _ => {
            assert(s.subrange(0, 0) =~= Seq::<u8>::empty());
        },
    }
}

/// Appending a record to the last segment applies it to the replayed state.
pub proof fn lemma_replay_log_append(segs: Seq<Seq<u8>>, key: Seq<char>, value: Option<Seq<u8>>)
    requires
        segs.len() > 0,
        clean_front(segs.last()),
        encodable(key, value),
    ensures
        replay_log(segs.update(segs.len() - 1, segs.last() + record_bytes(key, value)))
            == apply_entry(replay_log(segs), (key, value)),
        clean_front(segs.last() + record_bytes(key, value)),
{
    let n = segs.len() - 1;
    let last2 = segs.last() + record_bytes(key, value);
    let segs2 = segs.update(n, last2);
    lemma_scan_append(segs.last(), key, value);
    assert(segs2.drop_last() =~= segs.drop_last());
    assert(segs2.last() == last2);
    lemma_replay_push(replay_log(segs.drop_last()), scan_front(segs.last()), (key, value));
}

/// Opening an empty segment leaves the replayed state as it was.
pub proof fn lemma_replay_log_push_empty(segs: Seq<Seq<u8>>)
    ensures
        replay_log(segs.push(Seq::<u8>::empty())) == replay_log(segs),
        clean_front(Seq::<u8>::empty()),
{
    let e = Seq::<u8>::empty();
    assert(decode_front(e) is EndOfFile);
    assert(scan_front(e) =~= Seq::<Entry>::empty());
    assert(segs.push(e).drop_last() =~= segs);
    assert(segs.push(e).last() == e);
}

/// Where a record decodes in an image, it decodes the same once bytes are appended.
pub proof fn lemma_decode_spec_extend(a: Seq<u8>, e: Seq<u8>, off: int)
    requires
        0 <= off <= a.len(),
        decode_front(a.subrange(off, a.len() as int)) is Record,
    ensures
        decode_front((a + e).subrange(off, (a + e).len() as int)) == decode_front(
            a.subrange(off, a.len() as int),
        ),
{
    assert((a + e).subrange(off, (a + e).len() as int) =~= a.subrange(off, a.len() as int) + e);
    lemma_decode_extend(a.subrange(off, a.len() as int), e);
}

/// The record appended at the end of an image decodes where it starts.
pub proof fn lemma_decode_appended(a: Seq<u8>, key: Seq<char>, value: Option<Seq<u8>>)
    requires
        encodable(key, value),
    ensures
        decode_front((a + record_bytes(key, value)).subrange(
            a.len() as int,
            (a + record_bytes(key, value)).len() as int,
        )) == (Decoding::Record { key, value, size: record_bytes(key, value).len() }),
{
    let b = record_bytes(key, value);
    assert((a + b).subrange(a.len() as int, (a + b).len() as int) =~= b);
    lemma_decode_encode(key, value);
}

/// A record does not decode from fewer bytes than it spans.
pub proof fn lemma_decode_short(d: Seq<u8>, n: int)
    requires
        decode_front(d) is Record,
        0 <= n < decode_front(d)->size,
    ensures
        !(decode_front(d.subrange(0, n)) is Record),
{
    let t = d.subrange(0, n);
    if n >= HEADER_SIZE {
        assert(t.subrange(0, 8) =~= d.subrange(0, 8));
        assert(t.subrange(8, 16) =~= d.subrange(8, 16));
        assert(body_len(t) == body_len(d));
    }
}

/// How many of the records at the front of `d` end within its first `n` bytes.
pub open spec fn records_within(d: Seq<u8>, n: int) -> nat
    decreases d.len(),
{
    match decode_front(d) {
        Decoding::Record { key, value, size } => if 0 < size <= n && size <= d.len() {
            1 + records_within(d.subrange(size as int, d.len() as int), n - size)
        } else {
            0
        },
        _ => 0,
    }
}

/// Cutting a clean image anywhere leaves bytes that scan to a prefix of its
/// records: exactly the records that end before the cut.
pub proof fn lemma_scan_cut(d: Seq<u8>, n: int)
    requires
        clean_front(d),
        0 <= n <= d.len(),
    ensures
        records_within(d, n) <= scan_front(d).len(),
        scan_front(d.subrange(0, n)) == scan_front(d).subrange(0, records_within(d, n) as int),
    decreases d.len(),
{
    let t = d.subrange(0, n);
    if d.len() == 0 {
        assert(t =~= d);
        assert(scan_front(d).subrange(0, 0) =~= scan_front(t));
    } else {
        let sz = decode_front(d)->size as int;
        if n < sz {
            lemma_decode_short(d, n);
            assert(scan_front(t) =~= scan_front(d).subrange(0, 0));
        } else {
            assert(t.subrange(0, sz) =~= d.subrange(0, sz));
            lemma_decode_window(d, t);
            let rest = d.subrange(sz, d.len() as int);
            lemma_scan_cut(rest, n - sz);
            let j = records_within(rest, n - sz) as int;
            assert(t.subrange(sz, t.len() as int) =~= rest.subrange(0, n - sz));
            let e = (decode_front(d)->key, decode_front(d)->value);
            assert(scan_front(d) =~= seq![e] + scan_front(rest));
            assert(scan_front(t) =~= seq![e] + scan_front(rest.subrange(0, n - sz)));
            assert(scan_front(t) =~= scan_front(d).subrange(0, j + 1));
        }
    }
}

/// A clean image is its own longest decodable prefix.
pub proof fn lemma_clean_valid_len(d: Seq<u8>)
    requires
        clean_front(d),
    ensures
        valid_len(d) == d.len(),
{
    let e = Seq::<u8>::empty();
    assert(decode_front(e) is EndOfFile);
    lemma_scan_concat(d, e);
    assert(d + e =~= d);
}

} // verus!
