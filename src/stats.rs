//! Statistics about a store.
use crate::text::{decimal_spec, push_decimal};
use vstd::prelude::*;
use vstd::string::StringExecFns;

verus! {

/// Counts that describe a store.
#[derive(Debug, Clone, Copy, PartialEq, Eq)]
pub struct StoreStats {
    /// Number of live keys.
    pub num_keys: usize,
    /// Number of segments.
    pub num_segments: usize,
    /// Total bytes across all segments.
    pub total_bytes: u64,
    /// Id of the segment that takes appends.
    pub active_segment_id: usize,
    /// Id of the oldest segment.
    pub oldest_segment_id: usize,
}

/// Totals of a store, in the simpler form.
#[derive(Debug, Clone, Copy, PartialEq, Eq)]
pub struct Stats {
    pub num_keys: usize,
    pub num_segments: usize,
    pub total_bytes: usize,
}

impl Stats {
    /// A one-line description: keys, segments and bytes.
    pub fn to_string(&self) -> (r: String)
        ensures
            r@ == "Stats { keys: "@ + decimal_spec(self.num_keys as nat) + ", segments: "@
                + decimal_spec(self.num_segments as nat) + ", bytes: "@ + decimal_spec(
                self.total_bytes as nat,
            ) + " }"@,
    {
        let mut s = String::from_str("Stats { keys: ");
        push_decimal(&mut s, self.num_keys as u64);
        s.append(", segments: ");
        push_decimal(&mut s, self.num_segments as u64);
        s.append(", bytes: ");
        push_decimal(&mut s, self.total_bytes as u64);
        s.append(" }");
        s
    }
}

/// Bytes in a mebibyte.
pub const MIB: u64 = 1048576;

/// `b` bytes in hundredths of a mebibyte, rounded to nearest, ties to even.
pub open spec fn mib_hundredths(b: nat) -> nat {
    let q = b / MIB as nat;
    let t = (b % MIB as nat) * 100;
    let f = t / MIB as nat;
    let rem = t % MIB as nat;
    let up = rem > MIB / 2 || (rem == MIB / 2 && f % 2 == 1);
    q * 100 + f + if up {
        1nat
    } else {
        0nat
    }
}

/// Two decimal places: the hundredths of `h`, with a leading zero below ten.
pub open spec fn two_places(h: nat) -> Seq<char> {
    if h % 100 < 10 {
        seq!['0'] + decimal_spec(h % 100)
    } else {
        decimal_spec(h % 100)
    }
}

/// `b` bytes as mebibytes with two decimal places.
pub open spec fn mib_text(b: nat) -> Seq<char> {
    decimal_spec(mib_hundredths(b) / 100) + seq!['.'] + two_places(mib_hundredths(b))
}

/// Appends `b` bytes as mebibytes with two decimal places.
pub fn push_mib(s: &mut String, b: u64)
    ensures
        final(s)@ == old(s)@ + mib_text(b as nat),
{
    proof {
        reveal_strlit(".");
        reveal_strlit("0");
    }
    let q = b / MIB;
    let r = b % MIB;
    let t = r * 100;
    let f = t / MIB;
    let rem = t % MIB;
    let up = rem > MIB / 2 || (rem == MIB / 2 && f % 2 == 1);
    assert(q * 100 <= 1759218604441500) by (nonlinear_arith)
        requires
            q == b / MIB,
    ;
    let h = q * 100 + f + if up {
        1u64
    } else {
        0u64
    };
    assert(h as nat == mib_hundredths(b as nat));
    push_decimal(s, h / 100);
    s.append(".");
    if h % 100 < 10 {
        s.append("0");
    }
    push_decimal(s, h % 100);
    assert(final(s)@ =~= old(s)@ + mib_text(b as nat));
}

impl StoreStats {
    /// Statistics of nothing: every count zero.
    pub fn new() -> (r: StoreStats)
        ensures
            r.num_keys == 0,
            r.num_segments == 0,
            r.total_bytes == 0,
            r.active_segment_id == 0,
            r.oldest_segment_id == 0,
    {
        StoreStats {
            num_keys: 0,
            num_segments: 0,
            total_bytes: 0,
            active_segment_id: 0,
            oldest_segment_id: 0,
        }
    }

    /// A multi-line description: keys, segments, total size in MB with two
    /// decimals, active and oldest segment.
    pub fn to_string(&self) -> (r: String)
        ensures
            r@ == "Store Statistics:\n  Keys: "@ + decimal_spec(self.num_keys as nat)
                + "\n  Segments: "@ + decimal_spec(self.num_segments as nat)
                + "\n  Total size: "@ + mib_text(self.total_bytes as nat) + " MB\n  Active segment: "@
                + decimal_spec(self.active_segment_id as nat) + "\n  Oldest segment: "@
                + decimal_spec(self.oldest_segment_id as nat),
    {
        let mut s = String::from_str("Store Statistics:\n  Keys: ");
        push_decimal(&mut s, self.num_keys as u64);
        s.append("\n  Segments: ");
        push_decimal(&mut s, self.num_segments as u64);
        s.append("\n  Total size: ");
        push_mib(&mut s, self.total_bytes);
        s.append(" MB\n  Active segment: ");
        push_decimal(&mut s, self.active_segment_id as u64);
        s.append("\n  Oldest segment: ");
        push_decimal(&mut s, self.oldest_segment_id as u64);
        s
    }
}

} // verus!
