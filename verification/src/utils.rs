//! Small utilities: timestamp normalization, adjacent pairs, range
//! overlap, character splitting, the human-readable timestamp, and the
//! raw-insert envelope.
//!
//! The raw-insert envelope frames one update for shipping over a command
//! channel: `"ra"`, the book name's length as a big-endian `u64`, the
//! name's bytes (none when the length is zero), the update's 21-byte raw
//! image, and a closing newline. A book name is capped at 64 bytes.

use vstd::prelude::*;
use vstd::string::StringSliceAdditionalSpecFns;

use crate::update::{spec_parse_raw, spec_raw_bytes, Update};
use crate::wire::{push_be8, read_be8, spec_be8, spec_u64_of};

verus! {

/// The index of the first `sep` at or after `i`, or `-1` when there is
/// none.
pub open spec fn spec_find_char(s: Seq<char>, sep: char, i: int) -> int
    recommends
        0 <= i,
    decreases s.len() - i,
{
    if i < 0 || i >= s.len() {
        -1
    } else if s[i] == sep {
        i
    } else {
        spec_find_char(s, sep, i + 1)
    }
}

proof fn lemma_find_char_props(s: Seq<char>, sep: char, i: int)
    requires
        0 <= i <= s.len(),
    ensures
        ({
            let j = spec_find_char(s, sep, i);
            &&& (j == -1 ==> forall|k: int| i <= k < s.len() ==> s[k] != sep)
            &&& (j >= 0 ==> i <= j < s.len() && s[j] == sep && (forall|k: int|
                i <= k < j ==> s[k] != sep))
        }),
    decreases s.len() - i,
{
    if i < s.len() && s[i] != sep {
        lemma_find_char_props(s, sep, i + 1);
    }
}

/// The segments of `s` between occurrences of `sep`: always one more
/// segment than separators, so an empty string splits into one empty
/// segment.
pub open spec fn spec_split(s: Seq<char>, sep: char) -> Seq<Seq<char>>
    decreases s.len(),
    via spec_split_dec
{
    let j = spec_find_char(s, sep, 0);
    if j < 0 {
        seq![s]
    } else {
        seq![s.subrange(0, j)] + spec_split(s.skip(j + 1), sep)
    }
}

#[via_fn]
proof fn spec_split_dec(s: Seq<char>, sep: char) {
    if s.len() > 0 {
        lemma_find_char_props(s, sep, 0);
    }
}

/// Splits `s` at every occurrence of `sep`, like `str::split` with a
/// character pattern.
pub fn split_char(s: &str, sep: char) -> (r: Vec<String>)
    ensures
        r@.len() == spec_split(s@, sep).len(),
        forall|k: int| 0 <= k < r@.len() ==> r@[k]@ == spec_split(s@, sep)[k],
{
    let n = s.unicode_len();
    let mut r: Vec<String> = Vec::new();
    let ghost mut segs: Seq<Seq<char>> = Seq::empty();
    let mut start: usize = 0;
    let mut i: usize = 0;
    proof {
        assert(s@.skip(0) =~= s@);
        assert(segs + spec_split(s@, sep) =~= spec_split(s@, sep));
    }
    while i < n
        invariant
            0 <= start as int <= i as int <= n as int,
            n == s@.len(),
            forall|k: int| start <= k < i ==> s@[k] != sep,
            spec_split(s@, sep) == segs + spec_split(s@.skip(start as int), sep),
            r@.len() == segs.len(),
            forall|k: int| 0 <= k < r@.len() ==> r@[k]@ == segs[k],
        decreases n - i,
    {
        if s.get_char(i) == sep {
            let seg = s.substring_char(start, i).to_owned();
            proof {
                let t = s@.skip(start as int);
                lemma_find_char_at(t, sep, (i - start) as int);
                assert(t.subrange(0, i - start) =~= s@.subrange(start as int, i as int));
                assert(t.skip(i - start + 1) =~= s@.skip(i + 1));
                assert(spec_split(t, sep) == seq![s@.subrange(start as int, i as int)]
                    + spec_split(s@.skip(i + 1), sep));
                assert(segs + spec_split(t, sep) =~= (segs + seq![
                    s@.subrange(start as int, i as int),
                ]) + spec_split(s@.skip(i + 1), sep));
                segs = segs + seq![s@.subrange(start as int, i as int)];
            }
            r.push(seg);
            start = i + 1;
        }
        i = i + 1;
    }
    let seg = s.substring_char(start, n).to_owned();
    proof {
        let t = s@.skip(start as int);
        lemma_find_char_props(t, sep, 0);
        if spec_find_char(t, sep, 0) >= 0 {
            let j = spec_find_char(t, sep, 0);
            assert(t[j] == s@[start + j]);
            assert(false);
        }
        assert(spec_split(t, sep) == seq![t]);
        assert(t =~= s@.subrange(start as int, n as int));
        segs = segs + seq![t];
        assert(segs =~= spec_split(s@, sep));
    }
    r.push(seg);
    r
}

proof fn lemma_find_char_at(t: Seq<char>, sep: char, j: int)
    requires
        0 <= j < t.len(),
        t[j] == sep,
        forall|k: int| 0 <= k < j ==> t[k] != sep,
    ensures
        spec_find_char(t, sep, 0) == j,
{
    lemma_find_char_from(t, sep, 0, j);
}

proof fn lemma_find_char_from(t: Seq<char>, sep: char, m: int, j: int)
    requires
        0 <= m <= j < t.len(),
        t[j] == sep,
        forall|k: int| m <= k < j ==> t[k] != sep,
    ensures
        spec_find_char(t, sep, m) == j,
    decreases j - m,
{
    if m < j {
        lemma_find_char_from(t, sep, m + 1, j);
    }
}

/// Splits a comma-separated tag list, as carried in the metadata-tags
/// environment string, into its entries.
pub fn parse_wstf_metadata_tags(raw: &str) -> (r: Vec<String>)
    ensures
        r@.len() == spec_split(raw@, ',').len(),
        forall|k: int| 0 <= k < r@.len() ==> r@[k]@ == spec_split(raw@, ',')[k],
{
    split_char(raw, ',')
}

/// `target` and `file` intervals of timestamps overlap.
pub fn within_range(target_min: u64, target_max: u64, file_min: u64, file_max: u64) -> (r: bool)
    ensures
        r == (target_min <= file_max && target_max >= file_min),
{
    target_min <= file_max && target_max >= file_min
}

/// Adjacent pairs of a slice: `(a[0], a[1]), (a[1], a[2]), ...`.
pub fn bigram<T: Copy>(a: &[T]) -> (r: Vec<(T, T)>)
    requires
        a@.len() >= 1,
    ensures
        r@.len() == a@.len() - 1,
        forall|i: int| 0 <= i < r@.len() ==> r@[i] == (a@[i], a@[i + 1]),
{
    let n = a.len();
    let mut r: Vec<(T, T)> = Vec::new();
    let mut i: usize = 0;
    while i + 1 < n
        invariant
            0 <= i as int <= n - 1,
            n == a@.len(),
            n >= 1,
            r@.len() == i as int,
            forall|k: int| 0 <= k < r@.len() ==> r@[k] == (a@[k], a@[k + 1]),
        decreases n - i,
    {
        r.push((a[i], a[i + 1]));
        i = i + 1;
    }
    r
}

/// A timestamp multiplied by ten until it reaches thirteen digits, the
/// common magnitude for millisecond epochs.
pub open spec fn spec_fill_digits(x: u64) -> u64
    recommends
        x > 0,
    decreases
            (if x >= 1_000_000_000_000 {
                0int
            } else {
                1_000_000_000_000 - x
            }),
    when x > 0
{
    if x >= 1_000_000_000_000 {
        x
    } else {
        spec_fill_digits((x * 10) as u64)
    }
}

/// Normalizes a positive timestamp that may be in seconds, milliseconds
/// or microseconds by multiplying it by ten until it has at least
/// thirteen digits; zero stays zero.
pub fn fill_digits(input: u64) -> (r: u64)
    ensures
        input == 0 ==> r == 0,
        input > 0 ==> r == spec_fill_digits(input),
{
    let mut ret = input;
    if input == 0 {
        return 0;
    }
    while ret < 1_000_000_000_000
        invariant
            ret > 0,
            spec_fill_digits(input) == spec_fill_digits(ret),
        decreases
                (if ret >= 1_000_000_000_000 {
                    0int
                } else {
                    1_000_000_000_000 - ret
                }),
    {
        ret = ret * 10;
    }
    ret
}

/// What chrono renders for an epoch-second timestamp, as UTC text.
pub uninterp spec fn human_of(ts: u64) -> Seq<char>;

/// Relies on chrono's `DateTime::<Utc>::from_timestamp` and the `Display`
/// of `DateTime<Utc>`: the rendered text depends on the timestamp alone.
/// A timestamp outside chrono's representable range renders as the empty
/// string.
#[verifier::external_body]
pub fn epoch_to_human(ts: u64) -> (r: String)
    ensures
        r@ == human_of(ts),
{
    match chrono::DateTime::<chrono::Utc>::from_timestamp(ts as i64, 0) {
        Some(dt) => format!("{}", dt),
        None => String::new(),
    }
}

/// The raw-insert envelope for one update, optionally labelled with a
/// book name.
pub open spec fn spec_insert_envelope(name: Option<Seq<u8>>, u: Update) -> Seq<u8> {
    let nm = match name {
        Some(b) => b,
        None => Seq::empty(),
    };
    seq![0x72u8, 0x61u8] + spec_be8(nm.len() as u64) + nm + spec_raw_bytes(u) + seq![0x0au8]
}

/// Writes the raw-insert envelope: the `"ra"` prefix, the name length,
/// the name bytes, the update's raw image and a newline.
pub fn encode_insert_into(book_name: Option<&str>, update: &Update) -> (r: Vec<u8>)
    ensures
        r@ == spec_insert_envelope(
            match book_name {
                Some(s) => Some(s.spec_bytes()),
                None => None,
            },
            *update,
        ),
{
    let mut out: Vec<u8> = Vec::new();
    out.push(0x72);
    out.push(0x61);
    match book_name {
        None => {
            push_be8(&mut out, 0);
            assert(out@ =~= seq![0x72u8, 0x61u8] + spec_be8(0) + Seq::<u8>::empty());
        },
        Some(nm) => {
            let b = nm.as_bytes();
            push_be8(&mut out, b.len() as u64);
            let mut i: usize = 0;
            while i < b.len()
                invariant
                    i <= b@.len(),
                    out@ == seq![0x72u8, 0x61u8] + spec_be8(b@.len() as u64) + b@.subrange(
                        0,
                        i as int,
                    ),
                decreases b@.len() - i,
            {
                out.push(b[i]);
                assert(out@ =~= seq![0x72u8, 0x61u8] + spec_be8(b@.len() as u64) + b@.subrange(
                    0,
                    i + 1,
                ));
                i = i + 1;
            }
            assert(out@ =~= seq![0x72u8, 0x61u8] + spec_be8(b@.len() as u64) + b@);
        },
    }
    update.serialize_raw_to_buffer(&mut out);
    out.push(0x0a);
    assert(out@ =~= spec_insert_envelope(
        match book_name {
            Some(s) => Some(s.spec_bytes()),
            None => None,
        },
        *update,
    ));
    out
}

/// Reads a raw-insert envelope back: the update (when its image is whole
/// and well formed) and the book name (when one was written). A buffer
/// too short for the length field, a name longer than 64 bytes, or a
/// name running off the end of the buffer is rejected outright.
pub fn decode_insert_into(buf: &[u8]) -> (r: Option<(Option<Update>, Option<Vec<u8>>)>)
    ensures
        buf@.len() < 10 ==> r is None,
        buf@.len() >= 10 ==> ({
            let len = spec_u64_of(buf@.subrange(2, 10)) as int;
            &&& len > 64 ==> r is None
            &&& (len <= 64 && 10 + len > buf@.len()) ==> r is None
            &&& (len <= 64 && 10 + len <= buf@.len()) ==> (r matches Some(p) && {
                &&& (len == 0 ==> p.1 is None)
                &&& (len > 0 ==> (p.1 matches Some(nm) && nm@ == buf@.subrange(10, 10 + len)))
                &&& (buf@.len() - (10 + len) >= 21 ==> p.0 == spec_parse_raw(
                    buf@.subrange(10 + len, 31 + len),
                ))
                &&& (buf@.len() - (10 + len) < 21 ==> p.0 is None)
            })
        }),
{
    let n = buf.len();
    if n < 10 {
        return None;
    }
    let len64 = read_be8(buf, 2);
    if len64 > 64 {
        return None;
    }
    let len = len64 as usize;
    if n < 10 + len {
        return None;
    }
    let name: Option<Vec<u8>> = if len > 0 {
        let mut nm: Vec<u8> = Vec::new();
        let mut i: usize = 0;
        while i < len
            invariant
                i <= len,
                10 + len <= n,
                n == buf@.len(),
                nm@ == buf@.subrange(10, 10 + i as int),
            decreases len - i,
        {
            nm.push(buf[10 + i]);
            assert(nm@ =~= buf@.subrange(10, 10 + (i + 1) as int));
            i = i + 1;
        }
        Some(nm)
    } else {
        None
    };
    let update = Update::read_raw_at(buf, 10 + len);
    Some((update, name))
}

/// Decoding an encoded raw-insert envelope recovers the update and the
/// book name exactly, for every update and every name of at most 64
/// bytes.
pub proof fn lemma_insert_roundtrip(name: Option<Seq<u8>>, u: Update)
    requires
        name is Some ==> 0 < name->0.len() <= 64,
    ensures
        ({
            let env = spec_insert_envelope(name, u);
            let nl = if name is Some {
                name->0.len() as int
            } else {
                0int
            };
            &&& env.len() == 32 + nl
            &&& spec_u64_of(env.subrange(2, 10)) == nl
            &&& (nl > 0 ==> env.subrange(10, 10 + nl) == name->0)
            &&& spec_parse_raw(env.subrange(10 + nl, 31 + nl)) == Some(u)
        }),
{
    let env = spec_insert_envelope(name, u);
    let nm = match name {
        Some(b) => b,
        None => Seq::<u8>::empty(),
    };
    let nl = nm.len() as int;
    assert(spec_raw_bytes(u).len() == 21);
    assert(env.len() == 32 + nl);
    assert(env.subrange(2, 10) =~= spec_be8(nm.len() as u64));
    crate::wire::lemma_be8_roundtrip(nm.len() as u64);
    if nl > 0 {
        assert(env.subrange(10, 10 + nl) =~= nm);
    }
    assert(env.subrange(10 + nl, 31 + nl) =~= spec_raw_bytes(u));
    crate::update::lemma_raw_roundtrip(u);
}

/// The time-axis bin boundaries: `step_bins` values starting at
/// `min_ts`, evenly spaced by the integer bucket width
/// `(max_ts - min_ts) / (step_bins - 1)`. Every boundary stays within
/// `[min_ts, max_ts]`.
pub fn time_boundaries(min_ts: u64, max_ts: u64, step_bins: usize) -> (r: Vec<u64>)
    requires
        min_ts <= max_ts,
        2 <= step_bins,
    ensures
        r@.len() == step_bins,
        forall|i: int|
            0 <= i < step_bins ==> #[trigger] r@[i] == min_ts + i * (((max_ts - min_ts) as int) / (
            step_bins - 1)),
        forall|i: int| 0 <= i < step_bins ==> min_ts <= #[trigger] r@[i] <= max_ts,
{
    let d = max_ts - min_ts;
    let k = (step_bins - 1) as u64;
    let bucket = d / k;
    proof {
        assert(k * bucket <= d) by (nonlinear_arith)
            requires
                k >= 1 && bucket == d / k,
        ;
    }
    let mut r: Vec<u64> = Vec::new();
    let mut i: usize = 0;
    while i < step_bins
        invariant
            i <= step_bins,
            2 <= step_bins,
            min_ts <= max_ts,
            d == max_ts - min_ts,
            k == (step_bins - 1) as u64,
            bucket == d / k,
            k * bucket <= d,
            r@.len() == i,
            forall|j: int| 0 <= j < i ==> #[trigger] r@[j] == min_ts + j * bucket,
            forall|j: int| 0 <= j < i ==> min_ts <= #[trigger] r@[j] <= max_ts,
        decreases step_bins - i,
    {
        proof {
            assert((i as int) * bucket <= k * bucket) by (nonlinear_arith)
                requires
                    0 <= i as int <= k && bucket >= 0,
            ;
        }
        r.push(min_ts + (i as u64) * bucket);
        i = i + 1;
    }
    r
}

} // verus!
