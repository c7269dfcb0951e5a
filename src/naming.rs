//! Names of segment files, and the order in which they are replayed.
use crate::error::StoreError;
use crate::text::{decimal_spec, push_decimal};
use vstd::prelude::*;
use vstd::string::{StringExecFns, StringSliceAdditionalSpecFns};
use vstd::utf8::{encode_utf8, is_ascii_chars, is_ascii_chars_encode_utf8};

verus! {

/// The bytes of `segment-`, which starts every segment file name.
pub open spec fn name_prefix() -> Seq<u8> {
    seq![115u8, 101u8, 103u8, 109u8, 101u8, 110u8, 116u8, 45u8]
}

/// The bytes of `.dat`, which ends every segment file name.
pub open spec fn name_suffix() -> Seq<u8> {
    seq![46u8, 100u8, 97u8, 116u8]
}

/// Whether every byte is an ASCII decimal digit.
pub open spec fn all_digits(s: Seq<u8>) -> bool {
    forall|i: int| 0 <= i < s.len() ==> 48 <= #[trigger] s[i] <= 57
}

/// The number that ASCII decimal digits spell.
pub open spec fn digits_value(s: Seq<u8>) -> nat
    decreases s.len(),
{
    if s.len() == 0 {
        0
    } else {
        digits_value(s.drop_last()) * 10 + (s.last() - 48) as nat
    }
}

/// The id that a file name gives, when it is `segment-<digits>.dat`.
pub open spec fn name_id(b: Seq<u8>) -> Option<nat> {
    if b.len() > 12 && b.subrange(0, 8) == name_prefix() && b.subrange(b.len() - 4, b.len() as int)
        == name_suffix() && all_digits(b.subrange(8, b.len() - 4)) {
        Some(digits_value(b.subrange(8, b.len() - 4)))
    } else {
        None
    }
}

/// Parses a segment file name `segment-<id>.dat` with a decimal id of any
/// width; `None` for any other name or for an id beyond `usize`.
pub fn parse_segment_file_name(name: &str) -> (r: Option<usize>)
    ensures
        r == match name_id(name.spec_bytes()) {
            Some(v) => if v <= usize::MAX {
                Some(v as usize)
            } else {
                None::<usize>
            },
            None => None::<usize>,
        },
{
    let b = name.as_bytes();
    let n = b.len();
    if n <= 12 {
        return None;
    }
    let ghost bs = b@;
    assert(bs == name.spec_bytes());
    let prefix: [u8; 8] = [115u8, 101u8, 103u8, 109u8, 101u8, 110u8, 116u8, 45u8];
    let mut i: usize = 0;
    while i < 8
        invariant
            n == bs.len(),
            n > 12,
            b@ == bs,
            bs == name.spec_bytes(),
            prefix@ == name_prefix(),
            i <= 8,
            forall|j: int| 0 <= j < i ==> bs[j] == name_prefix()[j],
        decreases 8 - i,
    {
        if b[i] != prefix[i] {
            proof {
                assert(bs.subrange(0, 8)[i as int] != name_prefix()[i as int]);
            }
            return None;
        }
        i = i + 1;
    }
    assert(bs.subrange(0, 8) =~= name_prefix());
    let suffix: [u8; 4] = [46u8, 100u8, 97u8, 116u8];
    let mut i: usize = 0;
    while i < 4
        invariant
            n == bs.len(),
            n > 12,
            b@ == bs,
            bs == name.spec_bytes(),
            suffix@ == name_suffix(),
            i <= 4,
            forall|j: int| 0 <= j < i ==> bs[n - 4 + j] == name_suffix()[j],
        decreases 4 - i,
    {
        if b[n - 4 + i] != suffix[i] {
            proof {
                assert(bs.subrange(n - 4, n as int)[i as int] != name_suffix()[i as int]);
            }
            return None;
        }
        i = i + 1;
    }
    assert(bs.subrange(n - 4, n as int) =~= name_suffix());
    let ghost mid = bs.subrange(8, n - 4);
    let mut v: usize = 0;
    let mut i: usize = 8;
    while i < n - 4
        invariant
            n == bs.len(),
            n > 12,
            b@ == bs,
            bs == name.spec_bytes(),
            mid == bs.subrange(8, n - 4),
            8 <= i <= n - 4,
            all_digits(bs.subrange(8, i as int)),
            v as nat == digits_value(bs.subrange(8, i as int)),
        decreases n - 4 - i,
    {
        let c = b[i];
        if c < 48 || c > 57 {
            proof {
                assert(mid[i - 8] == c);
            }
            return None;
        }
        let d = (c - 48) as usize;
        proof {
            assert(bs.subrange(8, i + 1).drop_last() =~= bs.subrange(8, i as int));
            assert(bs.subrange(8, i + 1).last() == c);
        }
        if v > (usize::MAX - d) / 10 {
            proof {
                assert(digits_value(bs.subrange(8, i + 1)) == v * 10 + d);
                if all_digits(mid) {
                    lemma_digits_monotone(mid, (i - 8 + 1) as int);
                    assert(mid.subrange(0, i - 8 + 1) =~= bs.subrange(8, i + 1));
                }
                assert(v * 10 + d > usize::MAX) by (nonlinear_arith)
                    requires
                        v > (usize::MAX - d) / 10,
                        d <= 9,
                ;
            }
            return None;
        }
        assert(v * 10 + d <= usize::MAX) by (nonlinear_arith)
            requires
                v <= (usize::MAX - d) / 10,
                d <= 9,
        ;
        v = v * 10 + d;
        i = i + 1;
    }
    proof {
        assert(bs.subrange(8, i as int) =~= mid);
    }
    Some(v)
}

/// A prefix of a digit string never spells a larger number than the whole.
proof fn lemma_digits_monotone(s: Seq<u8>, k: int)
    requires
        0 <= k <= s.len(),
        all_digits(s),
    ensures
        digits_value(s.subrange(0, k)) <= digits_value(s),
    decreases s.len() - k,
{
    if k < s.len() {
        lemma_digits_monotone(s, k + 1);
        assert(s.subrange(0, k + 1).drop_last() =~= s.subrange(0, k));
        assert(48 <= s[k]);
    } else {
        assert(s.subrange(0, k) =~= s);
    }
}

/// `digits` left-padded with zeros to at least four characters.
pub open spec fn pad4(digits: Seq<char>) -> Seq<char> {
    if digits.len() >= 4 {
        digits
    } else if digits.len() == 3 {
        seq!['0'] + digits
    } else if digits.len() == 2 {
        seq!['0', '0'] + digits
    } else {
        seq!['0', '0', '0'] + digits
    }
}

proof fn lemma_decimal_len(n: nat)
    ensures
        n < 10 ==> decimal_spec(n).len() == 1,
        10 <= n < 100 ==> decimal_spec(n).len() == 2,
        100 <= n < 1000 ==> decimal_spec(n).len() == 3,
        n >= 1000 ==> decimal_spec(n).len() >= 4,
    decreases n,
{
    if n >= 10 {
        lemma_decimal_len(n / 10);
    }
}

/// The file name of segment `id`: `segment-` and the id in decimal, padded
/// with zeros to four digits, then `.dat`.
pub fn segment_file_name(id: usize) -> (r: String)
    ensures
        r@ == "segment-"@ + pad4(decimal_spec(id as nat)) + ".dat"@,
{
    proof {
        reveal_strlit("0");
        reveal_strlit("00");
        reveal_strlit("000");
        lemma_decimal_len(id as nat);
    }
    let mut s = String::from_str("segment-");
    if id < 10 {
        s.append("000");
    } else if id < 100 {
        s.append("00");
    } else if id < 1000 {
        s.append("0");
    }
    push_decimal(&mut s, id as u64);
    s.append(".dat");
    proof {
        assert(s@ =~= "segment-"@ + pad4(decimal_spec(id as nat)) + ".dat"@);
    }
    s
}

/// Segment files in strictly increasing order of id.
pub open spec fn ids_ascending(files: Seq<(usize, Vec<u8>)>) -> bool {
    forall|i: int, j: int| 0 <= i < j < files.len() ==> files[i].0 < files[j].0
}

/// No two segment files share an id.
pub open spec fn ids_distinct(files: Seq<(usize, Vec<u8>)>) -> bool {
    forall|i: int, j: int|
        0 <= i < files.len() && 0 <= j < files.len() && i != j ==> files[i].0 != files[j].0
}

/// Puts segment files in the order of replay, ascending by id. Two files
/// with the same id (say `segment-1.dat` and `segment-0001.dat`) make the
/// directory ambiguous, which is reported as corrupted data.
pub fn order_segment_files(files: Vec<(usize, Vec<u8>)>) -> (r: Result<
    Vec<(usize, Vec<u8>)>,
    StoreError,
>)
    ensures
        r is Ok <==> ids_distinct(files@),
        r is Err ==> r->Err_0 is CorruptedData,
        r is Ok ==> {
            &&& ids_ascending(r->Ok_0@)
            &&& r->Ok_0@.len() == files@.len()
            &&& forall|x: (usize, Vec<u8>)| r->Ok_0@.contains(x) <==> files@.contains(x)
        },
{
    let ghost orig = files@;
    let mut rest = files;
    let mut out: Vec<(usize, Vec<u8>)> = Vec::new();
    proof {
        assert(orig.subrange(orig.len() as int, orig.len() as int) =~= Seq::<
            (usize, Vec<u8>),
        >::empty());
        assert(orig.subrange(0, orig.len() as int) =~= orig);
    }
    while rest.len() > 0
        invariant
            orig == files@,
            rest@.len() <= orig.len(),
            rest@ == orig.subrange(0, rest@.len() as int),
            ids_ascending(out@),
            out@.len() + rest@.len() == orig.len(),
            forall|x: (usize, Vec<u8>)|
                out@.contains(x) <==> orig.subrange(rest@.len() as int, orig.len() as int).contains(
                    x,
                ),
            ids_distinct(orig.subrange(rest@.len() as int, orig.len() as int)),
        decreases rest@.len(),
    {
        let ghost k = (rest@.len() - 1) as int;
        let f = rest.pop().unwrap();
        let ghost done = orig.subrange(k + 1, orig.len() as int);
        let ghost done2 = orig.subrange(k, orig.len() as int);
        proof {
            assert(f == orig[k]);
            assert(rest@ =~= orig.subrange(0, k));
            assert(done2 =~= seq![f] + done);
            assert forall|x: (usize, Vec<u8>)| out@.contains(x) <==> done.contains(x) by {}
        }
        let mut p: usize = 0;
        while p < out.len() && out[p].0 < f.0
            invariant
                p <= out@.len(),
                forall|q: int| 0 <= q < p ==> (#[trigger] out@[q]).0 < f.0,
                forall|x: (usize, Vec<u8>)| out@.contains(x) <==> done.contains(x),
            decreases out@.len() - p,
        {
            p = p + 1;
        }
        if p < out.len() && out[p].0 == f.0 {
            proof {
                assert(out@.contains(out@[p as int]));
                let m = choose|m: int| 0 <= m < done.len() && done[m] == out@[p as int];
                assert(done2[0] == f);
                assert(done2[m + 1] == done[m]);
                assert(orig[k] == done2[0]);
                assert(orig[k + 1 + m] == done2[m + 1]);
                assert(!ids_distinct(orig));
            }
            return Err(StoreError::CorruptedData("two segment files share an id".to_string()));
        }
        let ghost before = out@;
        out.insert(p, f);
        proof {
            assert(out@ == before.insert(p as int, f));
            assert(out@.len() == before.len() + 1);
            assert(out@[p as int] == f);
            assert forall|i: int| 0 <= i < p implies #[trigger] out@[i] == before[i] by {}
            assert forall|i: int| p < i < out@.len() implies #[trigger] out@[i] == before[i - 1] by {}
            assert forall|i: int, j: int| 0 <= i < j < out@.len() implies out@[i].0 < out@[j].0 by {
                if j < p {
                    assert(out@[i] == before[i] && out@[j] == before[j]);
                } else if j == p {
                    assert(out@[i] == before[i]);
                } else if i < p {
                    assert(out@[i] == before[i] && out@[j] == before[j - 1]);
                    assert(before[i].0 < f.0);
                    if (p as int) < j - 1 {
                        assert(before[p as int].0 < before[j - 1].0);
                    }
                    assert(before[p as int].0 > f.0);
                } else if i == p {
                    assert(out@[j] == before[j - 1]);
                    assert(before[p as int].0 > f.0);
                    if (p as int) < j - 1 {
                        assert(before[p as int].0 < before[j - 1].0);
                    }
                } else {
                    assert(out@[i] == before[i - 1] && out@[j] == before[j - 1]);
                }
            }
            assert forall|x: (usize, Vec<u8>)| out@.contains(x) <==> done2.contains(x) by {
                if out@.contains(x) {
                    let i = choose|i: int| 0 <= i < out@.len() && out@[i] == x;
                    if i < p {
                        assert(before[i] == x);
                        assert(before.contains(x));
                    } else if i > p {
                        assert(before[i - 1] == x);
                        assert(before.contains(x));
                    }
                    if x != f {
                        let m = choose|m: int| 0 <= m < done.len() && done[m] == x;
                        assert(done2[m + 1] == x);
                    } else {
                        assert(done2[0] == x);
                    }
                }
                if done2.contains(x) {
                    let m = choose|m: int| 0 <= m < done2.len() && done2[m] == x;
                    if m == 0 {
                        assert(out@[p as int] == x);
                    } else {
                        assert(done[m - 1] == x);
                        assert(done.contains(x));
                        let i = choose|i: int| 0 <= i < before.len() && before[i] == x;
                        if i < p {
                            assert(out@[i] == x);
                        } else {
                            assert(out@[i + 1] == x);
                        }
                    }
                }
            }
            assert forall|i: int, j: int|
                0 <= i < done2.len() && 0 <= j < done2.len() && i != j implies done2[i].0
                != done2[j].0 by {
                if i > 0 && j > 0 {
                    assert(done2[i] == done[i - 1] && done2[j] == done[j - 1]);
                } else {
                    let o = if i == 0 {
                        j
                    } else {
                        i
                    };
                    assert(done2[o] == done[o - 1]);
                    assert(done.contains(done2[o]));
                    assert(before.contains(done2[o]));
                    let q = choose|q: int| 0 <= q < before.len() && before[q] == done2[o];
                    if q < p {
                        assert(before[q].0 < f.0);
                    } else {
                        assert(before[p as int].0 > f.0);
                        if (p as int) < q {
                            assert(before[p as int].0 < before[q].0);
                        }
                    }
                }
            }
        }
    }
    proof {
        assert(orig.subrange(0, orig.len() as int) =~= orig);
    }
    Ok(out)
}

/// The bytes of ASCII characters.
pub open spec fn ascii_bytes(cs: Seq<char>) -> Seq<u8> {
    cs.map_values(|c: char| c as u8)
}

proof fn lemma_decimal_chars(n: nat)
    ensures
        forall|i: int|
            0 <= i < decimal_spec(n).len() ==> '0' <= #[trigger] decimal_spec(n)[i] <= '9',
    decreases n,
{
    if n >= 10 {
        lemma_decimal_chars(n / 10);
        let a = decimal_spec(n / 10);
        assert forall|i: int| 0 <= i < decimal_spec(n).len() implies '0' <= #[trigger] decimal_spec(
            n,
        )[i] <= '9' by {
            if i < a.len() {
                assert(decimal_spec(n)[i] == a[i]);
            }
        }
    }
}

proof fn lemma_digit_byte(d: nat)
    requires
        d < 10,
    ensures
        crate::text::digit_char(d) as u8 == 48 + d,
{
    if d == 0 {
    } else if d == 1 {
    } else if d == 2 {
    } else if d == 3 {
    } else if d == 4 {
    } else if d == 5 {
    } else if d == 6 {
    } else if d == 7 {
    } else if d == 8 {
    } else {
    }
}

proof fn lemma_decimal_value(n: nat)
    ensures
        digits_value(ascii_bytes(decimal_spec(n))) == n,
    decreases n,
{
    let b = ascii_bytes(decimal_spec(n));
    lemma_digit_byte(n % 10);
    if n < 10 {
        assert(b.drop_last() =~= Seq::<u8>::empty());
        assert(b.last() == crate::text::digit_char(n) as u8);
    } else {
        assert(b.last() == crate::text::digit_char(n % 10) as u8);
        lemma_decimal_value(n / 10);
        assert(b.drop_last() =~= ascii_bytes(decimal_spec(n / 10)));
        assert(n == (n / 10) * 10 + n % 10) by (nonlinear_arith);
    }
    assert(digits_value(b) == digits_value(b.drop_last()) * 10 + (b.last() - 48) as nat);
}

proof fn lemma_zeros_value(z: Seq<u8>)
    requires
        forall|i: int| 0 <= i < z.len() ==> #[trigger] z[i] == 48,
    ensures
        digits_value(z) == 0,
    decreases z.len(),
{
    if z.len() > 0 {
        lemma_zeros_value(z.drop_last());
    }
}

proof fn lemma_leading_zeros(z: Seq<u8>, s: Seq<u8>)
    requires
        forall|i: int| 0 <= i < z.len() ==> #[trigger] z[i] == 48,
    ensures
        digits_value(z + s) == digits_value(s),
    decreases s.len(),
{
    if s.len() == 0 {
        assert(z + s =~= z);
        lemma_zeros_value(z);
    } else {
        assert((z + s).drop_last() =~= z + s.drop_last());
        lemma_leading_zeros(z, s.drop_last());
    }
}

/// Parsing the file name of segment `id` gives back `id`.
pub proof fn lemma_name_round_trip(id: usize)
    ensures
        name_id(encode_utf8("segment-"@ + pad4(decimal_spec(id as nat)) + ".dat"@)) == Some(
            id as nat,
        ),
{
    reveal_strlit("segment-");
    reveal_strlit(".dat");
    let d = decimal_spec(id as nat);
    let p = pad4(d);
    let cs = "segment-"@ + p + ".dat"@;
    lemma_decimal_chars(id as nat);
    lemma_decimal_len_pos(id as nat);
    assert forall|i: int| 0 <= i < p.len() implies '0' <= #[trigger] p[i] <= '9' by {
        if d.len() < 4 {
            let k = p.len() - d.len();
            if i >= k {
                assert(p[i] == d[i - k]);
            }
        }
    }
    assert(is_ascii_chars(cs)) by {
        assert forall|i: int| 0 <= i < cs.len() implies '\0' <= #[trigger] cs[i] <= '\u{7f}' by {
            if 8 <= i < 8 + p.len() {
                assert(cs[i] == p[i - 8]);
            }
        }
    }
    is_ascii_chars_encode_utf8(cs);
    let b = encode_utf8(cs);
    let n = b.len();
    assert(n == 12 + p.len());
    assert(b.subrange(0, 8) =~= name_prefix()) by {
        assert forall|i: int| 0 <= i < 8 implies b.subrange(0, 8)[i] == name_prefix()[i] by {
            assert(b[i] == cs[i] as u8);
        }
    }
    assert(b.subrange(n - 4, n as int) =~= name_suffix()) by {
        assert forall|i: int| 0 <= i < 4 implies b.subrange(n - 4, n as int)[i]
            == name_suffix()[i] by {
            assert(b[n - 4 + i] == cs[n - 4 + i] as u8);
            assert(cs[n - 4 + i] == ".dat"@[i]);
        }
    }
    let mid = b.subrange(8, n - 4);
    assert(mid =~= ascii_bytes(p)) by {
        assert forall|i: int| 0 <= i < p.len() implies mid[i] == ascii_bytes(p)[i] by {
            assert(b[8 + i] == cs[8 + i] as u8);
            assert(cs[8 + i] == p[i]);
        }
    }
    assert(all_digits(mid)) by {
        assert forall|i: int| 0 <= i < mid.len() implies 48 <= #[trigger] mid[i] <= 57 by {
            assert(mid[i] == p[i] as u8);
        }
    }
    lemma_decimal_value(id as nat);
    let z = ascii_bytes(p).subrange(0, p.len() - d.len());
    assert(ascii_bytes(p) =~= z + ascii_bytes(d));
    assert forall|i: int| 0 <= i < z.len() implies #[trigger] z[i] == 48 by {
        assert(p[i] == '0');
    }
    lemma_leading_zeros(z, ascii_bytes(d));
}

proof fn lemma_decimal_len_pos(n: nat)
    ensures
        decimal_spec(n).len() >= 1,
{
    lemma_decimal_len(n);
}

} // verus!
