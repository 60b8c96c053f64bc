//! The WSTF file format: header layout, delta-compressed batch framing,
//! writer, reader, metadata reader and range scan, all over in-memory
//! byte buffers.
//!
//! Layout of a non-empty file, by byte offset: `0..5` the magic value,
//! `5..25` the symbol padded right with spaces, `25..33` the record count
//! (u64, big-endian), `33..41` the greatest timestamp (u64, big-endian),
//! `41..80` reserved zero bytes, `80..` the body. The body is a run of
//! batches, each `0x01 ref_ts:u64 ref_seq:u32 count:u16` followed by
//! `count` 12-byte delta records; a byte other than `0x01` where a batch
//! marker is due ends the body.
//!
//! The writer opens a new batch whenever a record's timestamp delta would
//! reach `0xffff`, its sequence delta would reach `0xf`, either delta
//! would be negative, or the batch already holds `0xffff` records. The
//! `0xf` sequence bound is deliberately far below what the byte-wide
//! field could hold; historical files depend on it.

use vstd::prelude::*;
use vstd::string::StringSliceAdditionalSpecFns;

use crate::update::{
    spec_delta_bytes, spec_parse_delta, sorted_updates, update_le, Update,
};
use crate::wire::{
    push_be2, push_be4, push_be8, read_be2, read_be4, read_be8, spec_be2, spec_be4, spec_be8,
    spec_u16_of, spec_u32_of, spec_u64_of,
};

verus! {

/// Offset of the first body byte in a file.
pub const MAIN_OFFSET: usize = 80;

/// Offset of the record count in the header.
pub const LEN_OFFSET: usize = 25;

/// Offset of the greatest timestamp in the header.
pub const MAX_TS_OFFSET: usize = 33;

/// Width of the padded symbol field.
pub const SYMBOL_LEN: usize = 20;

/// What can go wrong while encoding or decoding a file.
#[derive(Clone, Copy, Debug, PartialEq, Eq, Structural)]
pub enum CodecError {
    /// The magic value is absent or wrong.
    BadMagic,
    /// The symbol does not fit the 20-byte header field.
    SymbolTooLong,
    /// The buffer ends inside a header, batch header or record.
    Truncated,
    /// A record holds unknown flag bits, or reconstructing its timestamp
    /// or sequence number from the batch reference would overflow.
    BadRecord,
    /// A length field would overflow while appending.
    Oversize,
    /// The symbol field holds bytes outside printable ASCII.
    BadSymbol,
}

/// Per-file header summary.
#[derive(Clone, Debug)]
pub struct Metadata {
    pub symbol: String,
    pub nums: u64,
    pub max_ts: u64,
    pub min_ts: u64,
}

/// Per-batch in-body header.
#[derive(Clone, Copy, Debug, PartialEq, Eq, Structural)]
pub struct BatchMetadata {
    pub ref_ts: u64,
    pub ref_seq: u32,
    pub count: u16,
}

/// The five magic bytes that open every WSTF file.
pub open spec fn spec_magic() -> Seq<u8> {
    seq![0x57u8, 0x53u8, 0x54u8, 0x46u8, 0x01u8]
}

/// The record can join a batch referenced at `(ref_ts, ref_seq)`: both
/// deltas are non-negative and stay below the writer's rollover bounds.
pub open spec fn fits_batch(u: Update, ref_ts: u64, ref_seq: u32) -> bool {
    &&& ref_ts <= u.ts
    &&& u.ts - ref_ts < 0xffff
    &&& ref_seq <= u.seq
    &&& u.seq - ref_seq < 0xf
}

/// Index just past the batch that starts at `s`, scanning from `i`: the
/// batch extends while records fit the reference at `s` and the batch
/// holds fewer than `0xffff` records.
pub open spec fn spec_batch_end(ups: Seq<Update>, s: int, i: int) -> int
    recommends
        0 <= s < i <= ups.len(),
    decreases ups.len() - i,
{
    if i >= ups.len() || i - s >= 0xffff || !fits_batch(ups[i], ups[s].ts, ups[s].seq) {
        i
    } else {
        spec_batch_end(ups, s, i + 1)
    }
}

proof fn lemma_batch_end_bounds(ups: Seq<Update>, s: int, i: int)
    requires
        0 <= s < i <= ups.len(),
    ensures
        i <= spec_batch_end(ups, s, i) <= ups.len(),
    decreases ups.len() - i,
{
    if !(i >= ups.len() || i - s >= 0xffff || !fits_batch(ups[i], ups[s].ts, ups[s].seq)) {
        lemma_batch_end_bounds(ups, s, i + 1);
    }
}

/// The concatenated 12-byte images of `ups`, relative to `(ref_ts, ref_seq)`.
pub open spec fn spec_records_bytes(ups: Seq<Update>, ref_ts: u64, ref_seq: u32) -> Seq<u8>
    decreases ups.len(),
{
    if ups.len() == 0 {
        Seq::empty()
    } else {
        spec_delta_bytes(ups[0], ref_ts, ref_seq) + spec_records_bytes(
            ups.drop_first(),
            ref_ts,
            ref_seq,
        )
    }
}

proof fn lemma_records_bytes_len(ups: Seq<Update>, ref_ts: u64, ref_seq: u32)
    ensures
        spec_records_bytes(ups, ref_ts, ref_seq).len() == 12 * ups.len(),
    decreases ups.len(),
{
    if ups.len() > 0 {
        lemma_records_bytes_len(ups.drop_first(), ref_ts, ref_seq);
        assert(spec_delta_bytes(ups[0], ref_ts, ref_seq).len() == 12);
    }
}

proof fn lemma_records_bytes_snoc(ups: Seq<Update>, u: Update, ref_ts: u64, ref_seq: u32)
    ensures
        spec_records_bytes(ups.push(u), ref_ts, ref_seq) == spec_records_bytes(
            ups,
            ref_ts,
            ref_seq,
        ) + spec_delta_bytes(u, ref_ts, ref_seq),
    decreases ups.len(),
{
    if ups.len() == 0 {
        assert(ups.push(u).drop_first() =~= Seq::<Update>::empty());
        assert(ups.push(u)[0] == u);
        assert(spec_records_bytes(Seq::<Update>::empty(), ref_ts, ref_seq) == Seq::<u8>::empty());
        assert(spec_records_bytes(ups.push(u), ref_ts, ref_seq) == spec_delta_bytes(u, ref_ts,
            ref_seq) + Seq::<u8>::empty());
        assert(spec_records_bytes(ups, ref_ts, ref_seq) == Seq::<u8>::empty());
        assert(spec_delta_bytes(u, ref_ts, ref_seq) + Seq::<u8>::empty() =~= Seq::<u8>::empty()
            + spec_delta_bytes(u, ref_ts, ref_seq));
    } else {
        assert(ups.push(u).drop_first() =~= ups.drop_first().push(u));
        assert(ups.push(u)[0] == ups[0]);
        assert(spec_records_bytes(ups.push(u), ref_ts, ref_seq) == spec_delta_bytes(ups[0], ref_ts,
            ref_seq) + spec_records_bytes(ups.drop_first().push(u), ref_ts, ref_seq));
        lemma_records_bytes_snoc(ups.drop_first(), u, ref_ts, ref_seq);
        assert(spec_records_bytes(ups.push(u), ref_ts, ref_seq) =~= spec_records_bytes(
            ups,
            ref_ts,
            ref_seq,
        ) + spec_delta_bytes(u, ref_ts, ref_seq));
    }
}

/// The on-disk image of one batch: marker, reference header, records.
pub open spec fn spec_batch_bytes(ref_ts: u64, ref_seq: u32, ups: Seq<Update>) -> Seq<u8>
    recommends
        ups.len() <= 0xffff,
{
    seq![1u8] + spec_be8(ref_ts) + spec_be4(ref_seq) + spec_be2(ups.len() as u16)
        + spec_records_bytes(ups, ref_ts, ref_seq)
}

/// The body bytes produced by the batcher for the updates from index `s`
/// on: batches split greedily at the rollover bounds.
pub open spec fn spec_body_from(ups: Seq<Update>, s: int) -> Seq<u8>
    recommends
        0 <= s <= ups.len(),
    decreases ups.len() - s,
    when 0 <= s <= ups.len()
    via spec_body_from_dec
{
    if s >= ups.len() {
        Seq::empty()
    } else {
        let e = spec_batch_end(ups, s, s + 1);
        spec_batch_bytes(ups[s].ts, ups[s].seq, ups.subrange(s, e)) + spec_body_from(ups, e)
    }
}

#[via_fn]
proof fn spec_body_from_dec(ups: Seq<Update>, s: int) {
    if s < ups.len() {
        lemma_batch_end_bounds(ups, s, s + 1);
    }
}

/// The symbol field: the symbol's bytes padded right with spaces to 20.
pub open spec fn spec_padded_symbol(sym: Seq<u8>) -> Seq<u8>
    recommends
        sym.len() <= 20,
{
    sym + Seq::new((20 - sym.len()) as nat, |i: int| 32u8)
}

/// The header of a file holding `nums` records up to `max_ts`.
pub open spec fn spec_header_bytes(sym: Seq<u8>, nums: u64, max_ts: u64) -> Seq<u8>
    recommends
        sym.len() <= 20,
{
    spec_magic() + spec_padded_symbol(sym) + spec_be8(nums) + spec_be8(max_ts) + Seq::new(
        39,
        |i: int| 0u8,
    )
}

/// The whole file written for `ups` under `sym`: empty input writes
/// nothing at all.
pub open spec fn spec_file_bytes(sym: Seq<u8>, ups: Seq<Update>) -> Seq<u8>
    recommends
        sym.len() <= 20,
{
    if ups.len() == 0 {
        Seq::empty()
    } else {
        spec_header_bytes(sym, ups.len() as u64, ups.last().ts) + spec_body_from(ups, 0)
    }
}

/// The greatest timestamp of a sorted, non-empty update slice: the last
/// record's.
pub fn get_max_ts_sorted(ups: &Vec<Update>) -> (r: u64)
    requires
        ups@.len() > 0,
    ensures
        r == ups@.last().ts,
{
    ups[ups.len() - 1].ts
}

/// Appends the magic value.
pub fn write_magic_value(out: &mut Vec<u8>)
    ensures
        final(out)@ == old(out)@ + spec_magic(),
{
    out.push(0x57);
    out.push(0x53);
    out.push(0x54);
    out.push(0x46);
    out.push(0x01);
    assert(out@ =~= old(out)@ + spec_magic());
}

fn write_body_from(ups: &Vec<Update>, s: usize, out: &mut Vec<u8>)
    requires
        s <= ups@.len(),
    ensures
        final(out)@ == old(out)@ + spec_body_from(ups@, s as int),
    decreases ups@.len() - s,
{
    if s == ups.len() {
        assert(out@ =~= old(out)@ + spec_body_from(ups@, s as int));
        return ;
    }
    let ref_ts = ups[s].ts;
    let ref_seq = ups[s].seq;

    let mut e: usize = s + 1;
    while e < ups.len() && e - s < 0xffff && ups[e].ts >= ref_ts && ups[e].ts - ref_ts < 0xffff
        && ups[e].seq >= ref_seq && ups[e].seq - ref_seq < 0xf
        invariant
            s < e <= ups@.len(),
            ref_ts == ups@[s as int].ts,
            ref_seq == ups@[s as int].seq,
            forall|k: int| s < k < e ==> fits_batch(ups@[k], ref_ts, ref_seq),
            spec_batch_end(ups@, s as int, s + 1) == spec_batch_end(ups@, s as int, e as int),
        decreases ups@.len() - e,
    {
        assert(fits_batch(ups@[e as int], ref_ts, ref_seq));
        e = e + 1;
    }
    let ghost ge = spec_batch_end(ups@, s as int, s + 1);
    assert(spec_batch_end(ups@, s as int, e as int) == e);
    assert(ge == e);

    out.push(1);
    push_be8(out, ref_ts);
    push_be4(out, ref_seq);
    push_be2(out, (e - s) as u16);
    let ghost header_done = out@;
    assert(header_done =~= old(out)@ + (seq![1u8] + spec_be8(ref_ts) + spec_be4(ref_seq)
        + spec_be2((e - s) as u16)));

    let mut i: usize = s;
    while i < e
        invariant
            s <= i <= e <= ups@.len(),
            ref_ts == ups@[s as int].ts,
            ref_seq == ups@[s as int].seq,
            forall|k: int| s < k < e ==> fits_batch(ups@[k], ref_ts, ref_seq),
            out@ == header_done + spec_records_bytes(ups@.subrange(s as int, i as int), ref_ts,
                ref_seq),
        decreases e - i,
    {
        let ghost pre = ups@.subrange(s as int, i as int);
        assert(i == s || fits_batch(ups@[i as int], ref_ts, ref_seq));
        ups[i].serialize_to_buffer(out, ref_ts, ref_seq);
        proof {
            lemma_records_bytes_snoc(pre, ups@[i as int], ref_ts, ref_seq);
            assert(ups@.subrange(s as int, i + 1) =~= pre.push(ups@[i as int]));
        }
        i = i + 1;
    }

    proof {
        lemma_batch_end_bounds(ups@, s as int, s + 1);
        assert(out@ =~= old(out)@ + spec_batch_bytes(ref_ts, ref_seq, ups@.subrange(
            s as int,
            e as int,
        )));
    }
    let ghost mid = out@;
    write_body_from(ups, e, out);
    assert(out@ =~= old(out)@ + spec_body_from(ups@, s as int));
}

/// Runs the batcher over `ups` and returns the body bytes: the
/// concatenation of the greedily split batches.
pub fn write_batches(ups: &Vec<Update>) -> (r: Vec<u8>)
    ensures
        r@ == spec_body_from(ups@, 0),
{
    let mut out: Vec<u8> = Vec::new();
    write_body_from(ups, 0, &mut out);
    out
}

/// Encodes a whole file for `ups` under `symbol`. An empty `ups` writes
/// nothing; otherwise the symbol must fit the 20-byte header field.
pub fn encode_buffer(symbol: &str, ups: &Vec<Update>) -> (r: Result<Vec<u8>, CodecError>)
    ensures
        ups@.len() == 0 ==> (r matches Ok(v) && v@ == Seq::<u8>::empty()),
        ups@.len() > 0 && symbol.spec_bytes().len() > 20 ==> r == Err::<Vec<u8>, CodecError>(
            CodecError::SymbolTooLong,
        ),
        ups@.len() > 0 && symbol.spec_bytes().len() <= 20 ==> (r matches Ok(v) && v@ == spec_file_bytes(
            symbol.spec_bytes(),
            ups@,
        )),
{
    let mut out: Vec<u8> = Vec::new();
    if ups.len() == 0 {
        return Ok(out);
    }
    let sym = symbol.as_bytes();
    if sym.len() > SYMBOL_LEN {
        return Err(CodecError::SymbolTooLong);
    }
    proof {
        vstd::string::is_ascii_spec_bytes(symbol);
    }
    write_magic_value(&mut out);
    let mut i: usize = 0;
    while i < sym.len()
        invariant
            i <= sym@.len() <= 20,
            sym@ == symbol.spec_bytes(),
            out@ == spec_magic() + sym@.subrange(0, i as int),
        decreases sym@.len() - i,
    {
        out.push(sym[i]);
        assert(out@ =~= spec_magic() + sym@.subrange(0, i + 1));
        i = i + 1;
    }
    let mut j: usize = sym.len();
    while j < SYMBOL_LEN
        invariant
            sym@.len() <= j <= 20,
            sym@ == symbol.spec_bytes(),
            out@ == spec_magic() + sym@ + Seq::new((j - sym@.len()) as nat, |k: int| 32u8),
        decreases 20 - j,
    {
        out.push(32);
        assert(out@ =~= spec_magic() + sym@ + Seq::new((j + 1 - sym@.len()) as nat, |k: int| 32u8));
        j = j + 1;
    }
    assert(out@ =~= spec_magic() + spec_padded_symbol(sym@));
    push_be8(&mut out, ups.len() as u64);
    push_be8(&mut out, get_max_ts_sorted(ups));
    let mut z: usize = 0;
    let ghost pre_zero = out@;
    while z < 39
        invariant
            z <= 39,
            out@ == pre_zero + Seq::new(z as nat, |k: int| 0u8),
        decreases 39 - z,
    {
        out.push(0);
        assert(out@ =~= pre_zero + Seq::new((z + 1) as nat, |k: int| 0u8));
        z = z + 1;
    }
    assert(out@ =~= spec_header_bytes(sym@, ups@.len() as u64, ups@.last().ts));
    write_body_from(ups, 0, &mut out);
    assert(out@ =~= spec_file_bytes(symbol.spec_bytes(), ups@));
    Ok(out)
}

/// The parse of `count` 12-byte records at `pos`, relative to the batch
/// reference; `None` as soon as one record is malformed.
pub open spec fn spec_parse_records(
    b: Seq<u8>,
    pos: int,
    count: int,
    ref_ts: u64,
    ref_seq: u32,
) -> Option<Seq<Update>>
    recommends
        0 <= pos,
        pos + 12 * count <= b.len(),
    decreases count,
{
    if count <= 0 {
        Some(Seq::empty())
    } else {
        match spec_parse_delta(b.subrange(pos, pos + 12), ref_ts, ref_seq) {
            None => None,
            Some(u) => match spec_parse_records(b, pos + 12, count - 1, ref_ts, ref_seq) {
                None => None,
                Some(rest) => Some(seq![u] + rest),
            },
        }
    }
}

/// The parse of a body: batches read greedily from the front. A missing
/// marker byte ends the body cleanly; a batch that runs off the end of
/// the buffer or holds a malformed record fails the whole parse.
pub open spec fn spec_parse_batches(b: Seq<u8>) -> Option<Seq<(BatchMetadata, Seq<Update>)>>
    decreases b.len(),
{
    if b.len() == 0 || b[0] != 1 {
        Some(Seq::empty())
    } else if b.len() < 15 {
        None
    } else {
        let meta = BatchMetadata {
            ref_ts: spec_u64_of(b.subrange(1, 9)),
            ref_seq: spec_u32_of(b.subrange(9, 13)),
            count: spec_u16_of(b.subrange(13, 15)),
        };
        let cnt = meta.count as int;
        if b.len() < 15 + 12 * cnt {
            None
        } else {
            match spec_parse_records(b, 15, cnt, meta.ref_ts, meta.ref_seq) {
                None => None,
                Some(ups) => match spec_parse_batches(b.skip(15 + 12 * cnt)) {
                    None => None,
                    Some(rest) => Some(seq![(meta, ups)] + rest),
                },
            }
        }
    }
}

/// The parse of at most `n` batches from the front of a body: `None`
/// exactly when one of the first `n` batches is truncated or holds a
/// malformed record; stopping early at a missing marker is clean.
pub open spec fn spec_parse_n_batches(b: Seq<u8>, n: int) -> Option<
    Seq<(BatchMetadata, Seq<Update>)>,
>
    decreases b.len(),
{
    if n <= 0 || b.len() == 0 || b[0] != 1 {
        Some(Seq::empty())
    } else if b.len() < 15 {
        None
    } else {
        let meta = BatchMetadata {
            ref_ts: spec_u64_of(b.subrange(1, 9)),
            ref_seq: spec_u32_of(b.subrange(9, 13)),
            count: spec_u16_of(b.subrange(13, 15)),
        };
        let cnt = meta.count as int;
        if b.len() < 15 + 12 * cnt {
            None
        } else {
            match spec_parse_records(b, 15, cnt, meta.ref_ts, meta.ref_seq) {
                None => None,
                Some(ups) => match spec_parse_n_batches(b.skip(15 + 12 * cnt), n - 1) {
                    None => None,
                    Some(rest) => Some(seq![(meta, ups)] + rest),
                },
            }
        }
    }
}

/// The batches a reader collects before stopping: batches parse from the
/// front until a missing marker, a truncated batch or a malformed record
/// ends the walk. Unlike `spec_parse_batches` this never fails; it names
/// what was read up to the stopping point.
pub open spec fn spec_parse_prefix(b: Seq<u8>) -> Seq<(BatchMetadata, Seq<Update>)>
    decreases b.len(),
{
    if b.len() == 0 || b[0] != 1 || b.len() < 15 {
        Seq::empty()
    } else {
        let meta = BatchMetadata {
            ref_ts: spec_u64_of(b.subrange(1, 9)),
            ref_seq: spec_u32_of(b.subrange(9, 13)),
            count: spec_u16_of(b.subrange(13, 15)),
        };
        let cnt = meta.count as int;
        if b.len() < 15 + 12 * cnt {
            Seq::empty()
        } else {
            match spec_parse_records(b, 15, cnt, meta.ref_ts, meta.ref_seq) {
                None => Seq::empty(),
                Some(ups) => seq![(meta, ups)] + spec_parse_prefix(b.skip(15 + 12 * cnt)),
            }
        }
    }
}

/// All the records of a parsed batch list, in file order.
pub open spec fn spec_concat_batches(bs: Seq<(BatchMetadata, Seq<Update>)>) -> Seq<Update>
    decreases bs.len(),
{
    if bs.len() == 0 {
        Seq::empty()
    } else {
        bs[0].1 + spec_concat_batches(bs.drop_first())
    }
}

/// The body bytes of a file image: what follows the 80-byte header.
pub open spec fn spec_file_body(b: Seq<u8>) -> Seq<u8> {
    if b.len() <= 80 {
        Seq::empty()
    } else {
        b.skip(80)
    }
}

/// Reads the reference header of a batch; `pos` points just past the
/// marker byte.
pub fn read_one_batch_meta(buf: &[u8], pos: usize) -> (r: BatchMetadata)
    requires
        pos + 14 <= buf@.len(),
    ensures
        r.ref_ts == spec_u64_of(buf@.subrange(pos as int, pos + 8)),
        r.ref_seq == spec_u32_of(buf@.subrange(pos + 8, pos + 12)),
        r.count == spec_u16_of(buf@.subrange(pos + 12, pos + 14)),
{
    let n = buf.len();
    assert(pos + 14 <= n);
    BatchMetadata {
        ref_ts: read_be8(buf, pos),
        ref_seq: read_be4(buf, pos + 8),
        count: read_be2(buf, pos + 12),
    }
}

fn read_records(
    buf: &[u8],
    pos: usize,
    count: u16,
    ref_ts: u64,
    ref_seq: u32,
    out: &mut Vec<Update>,
) -> (r: Result<(), CodecError>)
    requires
        pos + 12 * (count as int) <= buf@.len(),
    ensures
        ({
            let p = spec_parse_records(buf@, pos as int, count as int, ref_ts, ref_seq);
            &&& (r is Ok <==> p is Some)
            &&& p matches Some(ups) ==> final(out)@ == old(out)@ + ups
            &&& r is Err ==> r == Err::<(), CodecError>(CodecError::BadRecord)
        }),
{
    let ghost p0 = spec_parse_records(buf@, pos as int, count as int, ref_ts, ref_seq);
    let n = buf.len();
    assert(pos + 12 * (count as int) <= n);
    let mut i: usize = 0;
    while i < count as usize
        invariant
            0 <= i <= count as int,
            n == buf@.len(),
            pos + 12 * (count as int) <= n,
            out@.len() == old(out)@.len() + i,
            p0 == spec_parse_records(buf@, pos as int, count as int, ref_ts, ref_seq),
            ({
                let rest = spec_parse_records(
                    buf@,
                    pos + 12 * i,
                    count - i,
                    ref_ts,
                    ref_seq,
                );
                &&& (p0 is Some <==> rest is Some)
                &&& rest matches Some(tail) ==> p0 == Some(
                    out@.subrange(old(out)@.len() as int, out@.len() as int) + tail,
                )
                &&& out@.subrange(0, old(out)@.len() as int) == old(out)@
            }),
        decreases count as int - i,
    {
        let ghost rest = spec_parse_records(buf@, pos + 12 * i, count - i, ref_ts, ref_seq);
        assert(12 * (i as int) <= 12 * (count as int));
        assert(pos + 12 * (i as int) <= n);
        let rp = pos + 12 * i;
        match Update::read_delta(buf, rp, ref_ts, ref_seq) {
            None => {
                assert(rest is None);
                return Err(CodecError::BadRecord);
            },
            Some(u) => {
                let ghost acc_pre = out@.subrange(old(out)@.len() as int, out@.len() as int);
                out.push(u);
                proof {
                    let tail2 = spec_parse_records(
                        buf@,
                        pos + 12 * (i + 1),
                        count - i - 1,
                        ref_ts,
                        ref_seq,
                    );
                    assert(out@.subrange(old(out)@.len() as int, out@.len() as int) =~= acc_pre
                        + seq![u]);
                    assert(out@.subrange(0, old(out)@.len() as int) =~= old(out)@);
                    if tail2 is Some {
                        assert(rest == Some(seq![u] + tail2->0));
                        assert(acc_pre + seq![u] + tail2->0 =~= acc_pre + (seq![u] + tail2->0));
                    }
                }
                i = i + 1;
            },
        }
    }
    proof {
        assert(spec_parse_records(buf@, pos + 12 * (count as int), 0, ref_ts, ref_seq) == Some(
            Seq::<Update>::empty(),
        ));
        if p0 is Some {
            assert(out@.subrange(old(out)@.len() as int, out@.len() as int) + Seq::<
                Update,
            >::empty() =~= out@.subrange(old(out)@.len() as int, out@.len() as int));
            assert(out@ =~= out@.subrange(0, old(out)@.len() as int) + out@.subrange(
                old(out)@.len() as int,
                out@.len() as int,
            ));
        }
    }
    Ok(())
}

/// Reads one batch at `pos`: the marker byte, the reference header and
/// the records. A missing marker yields an empty vector and leaves the
/// position; otherwise the returned position points past the batch.
pub fn read_one_batch(buf: &[u8], pos: usize) -> (r: Result<(Vec<Update>, usize), CodecError>)
    requires
        pos <= buf@.len(),
    ensures
        ({
            let sfx = buf@.skip(pos as int);
            let p = spec_parse_batches(sfx);
            &&& (pos == buf@.len() || buf@[pos as int] != 1) ==> (r matches Ok(v) && v.0@
                == Seq::<Update>::empty() && v.1 == pos)
            &&& r is Err ==> p is None
            &&& (pos < buf@.len() && buf@[pos as int] == 1 && r is Ok) ==> (r matches Ok(v) && {
                &&& pos < v.1 <= buf@.len()
                &&& (p is Some <==> spec_parse_batches(buf@.skip(v.1 as int)) is Some)
                &&& p matches Some(bs) ==> bs.len() > 0 && v.0@ == bs[0].1 && v.1 == pos + 15 + 12
                    * (bs[0].0.count as int) && spec_parse_batches(buf@.skip(v.1 as int)) == Some(
                    bs.drop_first(),
                )
            })
        }),
{
    let n = buf.len();
    if pos == n || buf[pos] != 1 {
        return Ok((Vec::new(), pos));
    }
    let ghost sfx = buf@.skip(pos as int);
    assert(sfx[0] == buf@[pos as int]);
    if n - pos < 15 {
        assert(sfx.len() < 15);
        return Err(CodecError::Truncated);
    }
    let meta = read_one_batch_meta(buf, pos + 1);
    proof {
        assert(sfx.subrange(1, 9) =~= buf@.subrange(pos + 1, pos + 9));
        assert(sfx.subrange(9, 13) =~= buf@.subrange(pos + 9, pos + 13));
        assert(sfx.subrange(13, 15) =~= buf@.subrange(pos + 13, pos + 15));
    }
    let cnt = meta.count as usize;
    if n - pos - 15 < 12 * cnt {
        assert(sfx.len() < 15 + 12 * (meta.count as int));
        return Err(CodecError::Truncated);
    }
    let mut ups: Vec<Update> = Vec::new();
    let ghost gp = spec_parse_records(buf@, pos + 15, meta.count as int, meta.ref_ts, meta.ref_seq);
    proof {
        lemma_parse_records_shift(buf@, pos as int, 15, meta.count as int, meta.ref_ts,
            meta.ref_seq);
    }
    match read_records(buf, pos + 15, meta.count, meta.ref_ts, meta.ref_seq, &mut ups) {
        Err(_) => {
            return Err(CodecError::BadRecord);
        },
        Ok(_) => {},
    }
    let new_pos = pos + 15 + 12 * cnt;
    proof {
        assert(sfx.skip(15 + 12 * (meta.count as int)) =~= buf@.skip(new_pos as int));
    }
    Ok((ups, new_pos))
}

/// The parse of records at `base + off` in `b` equals the parse at
/// offset `off` of `b.skip(base)`.
proof fn lemma_parse_records_shift(b: Seq<u8>, base: int, off: int, count: int, rt: u64, rs: u32)
    requires
        0 <= base,
        0 <= off,
        base + off + 12 * count <= b.len(),
    ensures
        spec_parse_records(b, base + off, count, rt, rs) == spec_parse_records(
            b.skip(base),
            off,
            count,
            rt,
            rs,
        ),
    decreases count,
{
    if count > 0 {
        assert(b.subrange(base + off, base + off + 12) =~= b.skip(base).subrange(off, off + 12));
        lemma_parse_records_shift(b, base, off + 12, count - 1, rt, rs);
    }
}

fn decode_all_from(buf: &[u8], pos: usize, out: &mut Vec<Update>) -> (r: Result<(), CodecError>)
    requires
        pos <= buf@.len(),
    ensures
        ({
            let p = spec_parse_batches(buf@.skip(pos as int));
            &&& (r is Ok <==> p is Some)
            &&& p matches Some(bs) ==> final(out)@ == old(out)@ + spec_concat_batches(bs)
            &&& final(out)@ == old(out)@ + spec_concat_batches(
                spec_parse_prefix(buf@.skip(pos as int)),
            )
        }),
    decreases buf@.len() - pos,
{
    let n = buf.len();
    let ghost sfx = buf@.skip(pos as int);
    let ghost p = spec_parse_batches(sfx);
    if pos == n || buf[pos] != 1 {
        proof {
            if pos < n {
                assert(sfx[0] == buf@[pos as int]);
            }
            assert(out@ =~= out@ + spec_concat_batches(spec_parse_prefix(sfx)));
        }
        return Ok(());
    }
    assert(sfx[0] == buf@[pos as int]);
    if n - pos < 15 {
        assert(sfx.len() < 15);
        assert(out@ =~= out@ + spec_concat_batches(spec_parse_prefix(sfx)));
        return Err(CodecError::Truncated);
    }
    let meta = read_one_batch_meta(buf, pos + 1);
    proof {
        assert(sfx.subrange(1, 9) =~= buf@.subrange(pos + 1, pos + 9));
        assert(sfx.subrange(9, 13) =~= buf@.subrange(pos + 9, pos + 13));
        assert(sfx.subrange(13, 15) =~= buf@.subrange(pos + 13, pos + 15));
    }
    let cnt = meta.count as usize;
    if n - pos - 15 < 12 * cnt {
        assert(sfx.len() < 15 + 12 * (meta.count as int));
        assert(out@ =~= out@ + spec_concat_batches(spec_parse_prefix(sfx)));
        return Err(CodecError::Truncated);
    }
    proof {
        lemma_parse_records_shift(buf@, pos as int, 15, meta.count as int, meta.ref_ts,
            meta.ref_seq);
    }
    let mut batch: Vec<Update> = Vec::new();
    match read_records(buf, pos + 15, meta.count, meta.ref_ts, meta.ref_seq, &mut batch) {
        Err(_) => {
            assert(out@ =~= out@ + spec_concat_batches(spec_parse_prefix(sfx)));
            return Err(CodecError::BadRecord);
        },
        Ok(_) => {},
    }
    let ghost gbatch = batch@;
    let new_pos = pos + 15 + 12 * cnt;
    proof {
        assert(sfx.skip(15 + 12 * (meta.count as int)) =~= buf@.skip(new_pos as int));
    }
    let mut b = batch;
    out.append(&mut b);
    let r = decode_all_from(buf, new_pos, out);
    proof {
        let rest = spec_parse_batches(buf@.skip(new_pos as int));
        let rest_prefix = spec_parse_prefix(buf@.skip(new_pos as int));
        assert(spec_parse_prefix(sfx) == seq![(meta, gbatch)] + rest_prefix);
        assert(spec_concat_batches(seq![(meta, gbatch)] + rest_prefix) == gbatch
            + spec_concat_batches(rest_prefix)) by {
            assert((seq![(meta, gbatch)] + rest_prefix).drop_first() =~= rest_prefix);
            assert((seq![(meta, gbatch)] + rest_prefix)[0] == (meta, gbatch));
        }
        assert(out@ =~= old(out)@ + (gbatch + spec_concat_batches(rest_prefix)));
        if p is Some {
            assert(rest is Some);
            let bs = p->0;
            assert(bs.drop_first() == rest->0);
            assert(bs[0].1 == gbatch);
            assert(spec_concat_batches(bs) == bs[0].1 + spec_concat_batches(bs.drop_first()));
            if r is Ok {
                assert(out@ =~= old(out)@ + (bs[0].1 + spec_concat_batches(bs.drop_first())));
            }
        } else {
            assert(rest is None);
        }
    }
    r
}

fn decode_n_from(buf: &[u8], pos: usize, remaining: u32, out: &mut Vec<Update>) -> (r: Result<
    (),
    CodecError,
>)
    requires
        pos <= buf@.len(),
    ensures
        ({
            let pn = spec_parse_n_batches(buf@.skip(pos as int), remaining as int);
            &&& (r is Ok <==> pn is Some)
            &&& pn matches Some(bs) ==> final(out)@ == old(out)@ + spec_concat_batches(bs)
        }),
    decreases buf@.len() - pos, remaining,
{
    let n = buf.len();
    let ghost sfx = buf@.skip(pos as int);
    if remaining == 0 || pos == n || buf[pos] != 1 {
        proof {
            if remaining > 0 && pos < n {
                assert(sfx[0] == buf@[pos as int]);
            }
            assert(spec_parse_n_batches(sfx, remaining as int) == Some(
                Seq::<(BatchMetadata, Seq<Update>)>::empty(),
            ));
            assert(out@ =~= out@ + spec_concat_batches(Seq::empty()));
        }
        return Ok(());
    }
    assert(sfx[0] == buf@[pos as int]);
    if n - pos < 15 {
        assert(sfx.len() < 15);
        return Err(CodecError::Truncated);
    }
    let meta = read_one_batch_meta(buf, pos + 1);
    proof {
        assert(sfx.subrange(1, 9) =~= buf@.subrange(pos + 1, pos + 9));
        assert(sfx.subrange(9, 13) =~= buf@.subrange(pos + 9, pos + 13));
        assert(sfx.subrange(13, 15) =~= buf@.subrange(pos + 13, pos + 15));
    }
    let cnt = meta.count as usize;
    if n - pos - 15 < 12 * cnt {
        assert(sfx.len() < 15 + 12 * (meta.count as int));
        return Err(CodecError::Truncated);
    }
    proof {
        lemma_parse_records_shift(buf@, pos as int, 15, meta.count as int, meta.ref_ts,
            meta.ref_seq);
    }
    let mut batch: Vec<Update> = Vec::new();
    match read_records(buf, pos + 15, meta.count, meta.ref_ts, meta.ref_seq, &mut batch) {
        Err(_) => {
            return Err(CodecError::BadRecord);
        },
        Ok(_) => {},
    }
    let ghost gbatch = batch@;
    let new_pos = pos + 15 + 12 * cnt;
    proof {
        assert(sfx.skip(15 + 12 * (meta.count as int)) =~= buf@.skip(new_pos as int));
    }
    let mut b = batch;
    out.append(&mut b);
    let r = decode_n_from(buf, new_pos, remaining - 1, out);
    proof {
        let pn = spec_parse_n_batches(sfx, remaining as int);
        let rest = spec_parse_n_batches(buf@.skip(new_pos as int), remaining - 1);
        if rest is Some {
            assert(pn == Some(seq![(meta, gbatch)] + rest->0));
            assert(spec_concat_batches(seq![(meta, gbatch)] + rest->0) == gbatch
                + spec_concat_batches(rest->0)) by {
                assert((seq![(meta, gbatch)] + rest->0).drop_first() =~= rest->0);
                assert((seq![(meta, gbatch)] + rest->0)[0] == (meta, gbatch));
            }
            if r is Ok {
                assert(out@ =~= old(out)@ + (gbatch + spec_concat_batches(rest->0)));
            }
        } else {
            assert(pn is None);
        }
    }
    r
}

/// Reads every batch from the front of a body buffer; on a malformed
/// batch, what was read so far is returned: always exactly the records
/// of the parseable batch prefix.
pub fn decode_buffer(buf: &[u8]) -> (r: Vec<Update>)
    ensures
        r@ == spec_concat_batches(spec_parse_prefix(buf@)),
        spec_parse_batches(buf@) matches Some(bs) ==> r@ == spec_concat_batches(bs),
{
    let mut out: Vec<Update> = Vec::new();
    let ghost whole = buf@;
    assert(buf@.skip(0) =~= whole);
    let _ = decode_all_from(buf, 0, &mut out);
    out
}

/// Checks the magic value at the start of a file image.
pub fn read_magic_value(buf: &[u8]) -> (r: Result<bool, CodecError>)
    ensures
        buf@.len() < 5 ==> r == Err::<bool, CodecError>(CodecError::Truncated),
        buf@.len() >= 5 ==> r == Ok::<bool, CodecError>(buf@.subrange(0, 5) == spec_magic()),
{
    if buf.len() < 5 {
        return Err(CodecError::Truncated);
    }
    let ok = buf[0] == 0x57 && buf[1] == 0x53 && buf[2] == 0x54 && buf[3] == 0x46 && buf[4] == 0x01;
    proof {
        if ok {
            assert(buf@.subrange(0, 5) =~= spec_magic());
        } else {
            assert(buf@.subrange(0, 5)[0] == buf@[0] && buf@.subrange(0, 5)[1] == buf@[1]
                && buf@.subrange(0, 5)[2] == buf@[2] && buf@.subrange(0, 5)[3] == buf@[3]
                && buf@.subrange(0, 5)[4] == buf@[4]);
        }
    }
    Ok(ok)
}

/// Whether a whole file image begins with the magic value.
pub open spec fn spec_magic_ok(b: Seq<u8>) -> bool {
    b.len() >= 5 && b.subrange(0, 5) == spec_magic()
}

/// Decodes a whole file image: checks the magic, then reads batches from
/// the body, all of them or at most `num_rows` of them.
pub fn decode(buf: &[u8], num_rows: Option<u32>) -> (r: Result<Vec<Update>, CodecError>)
    ensures
        !spec_magic_ok(buf@) ==> r == Err::<Vec<Update>, CodecError>(CodecError::BadMagic),
        ({
            let p = spec_parse_batches(spec_file_body(buf@));
            &&& (spec_magic_ok(buf@) && num_rows is None) ==> (r is Ok <==> p is Some)
            &&& (spec_magic_ok(buf@) && num_rows is None && p is Some) ==> (r matches Ok(v) && v@
                == spec_concat_batches(p->0))
            &&& (spec_magic_ok(buf@) && num_rows is Some) ==> ({
                let pn = spec_parse_n_batches(spec_file_body(buf@), num_rows->0 as int);
                &&& (r is Ok <==> pn is Some)
                &&& (pn matches Some(bs) ==> (r matches Ok(v) && v@ == spec_concat_batches(bs)))
            })
        }),
{
    match read_magic_value(buf) {
        Err(_) => Err(CodecError::BadMagic),
        Ok(false) => Err(CodecError::BadMagic),
        Ok(true) => {
            let n = buf.len();
            let mut out: Vec<Update> = Vec::new();
            if n <= MAIN_OFFSET {
                proof {
                    let body = spec_file_body(buf@);
                    assert(spec_parse_batches(body) == Some(
                        Seq::<(BatchMetadata, Seq<Update>)>::empty(),
                    ));
                    if num_rows is Some {
                        assert(spec_parse_n_batches(body, num_rows->0 as int) == Some(
                            Seq::<(BatchMetadata, Seq<Update>)>::empty(),
                        ));
                    }
                    assert(spec_concat_batches(Seq::empty()) =~= Seq::<Update>::empty());
                }
                return Ok(out);
            }
            assert(buf@.skip(MAIN_OFFSET as int) =~= spec_file_body(buf@));
            let res = match num_rows {
                None => decode_all_from(buf, MAIN_OFFSET, &mut out),
                Some(k) => decode_n_from(buf, MAIN_OFFSET, k, &mut out),
            };
            match res {
                Ok(_) => Ok(out),
                Err(e) => Err(e),
            }
        },
    }
}

/// Reads the record count straight from the header of a file image.
pub fn get_size(buf: &[u8]) -> (r: Result<u64, CodecError>)
    ensures
        !spec_magic_ok(buf@) ==> r == Err::<u64, CodecError>(CodecError::BadMagic),
        spec_magic_ok(buf@) && buf@.len() < 33 ==> r == Err::<u64, CodecError>(
            CodecError::Truncated,
        ),
        spec_magic_ok(buf@) && buf@.len() >= 33 ==> r == Ok::<u64, CodecError>(
            spec_u64_of(buf@.subrange(25, 33)),
        ),
{
    match read_magic_value(buf) {
        Err(_) => Err(CodecError::BadMagic),
        Ok(false) => Err(CodecError::BadMagic),
        Ok(true) => {
            if buf.len() < 33 {
                Err(CodecError::Truncated)
            } else {
                Ok(read_be8(buf, LEN_OFFSET))
            }
        },
    }
}

/// The batch decomposition that the writer produces for the updates from
/// index `s` on, as the reader will see it.
pub open spec fn spec_batches_of(ups: Seq<Update>, s: int) -> Seq<(BatchMetadata, Seq<Update>)>
    recommends
        0 <= s <= ups.len(),
    decreases ups.len() - s,
    when 0 <= s <= ups.len()
    via spec_batches_of_dec
{
    if s >= ups.len() {
        Seq::empty()
    } else {
        let e = spec_batch_end(ups, s, s + 1);
        seq![
            (
                BatchMetadata {
                    ref_ts: ups[s].ts,
                    ref_seq: ups[s].seq,
                    count: (e - s) as u16,
                },
                ups.subrange(s, e),
            ),
        ] + spec_batches_of(ups, e)
    }
}

#[via_fn]
proof fn spec_batches_of_dec(ups: Seq<Update>, s: int) {
    if s < ups.len() {
        lemma_batch_end_bounds(ups, s, s + 1);
    }
}

proof fn lemma_batch_end_props(ups: Seq<Update>, s: int, i: int)
    requires
        0 <= s < i <= ups.len(),
        i - s <= 0xffff,
    ensures
        i <= spec_batch_end(ups, s, i) <= ups.len(),
        spec_batch_end(ups, s, i) - s <= 0xffff,
        forall|k: int|
            i <= k < spec_batch_end(ups, s, i) ==> fits_batch(ups[k], ups[s].ts, ups[s].seq),
    decreases ups.len() - i,
{
    if !(i >= ups.len() || i - s >= 0xffff || !fits_batch(ups[i], ups[s].ts, ups[s].seq)) {
        lemma_batch_end_props(ups, s, i + 1);
    }
}

proof fn lemma_parse_records_of_written(ups: Seq<Update>, rt: u64, rs: u32, tail: Seq<u8>)
    requires
        forall|k: int|
            0 <= k < ups.len() ==> rt <= ups[k].ts && ups[k].ts - rt <= 0xffff && rs <= ups[k].seq
                && ups[k].seq - rs <= 0xff,
    ensures
        spec_parse_records(
            spec_records_bytes(ups, rt, rs) + tail,
            0,
            ups.len() as int,
            rt,
            rs,
        ) == Some(ups),
    decreases ups.len(),
{
    let b = spec_records_bytes(ups, rt, rs) + tail;
    if ups.len() == 0 {
        assert(spec_parse_records(b, 0, 0, rt, rs) == Some(Seq::<Update>::empty()));
        assert(Some(Seq::<Update>::empty()) == Some(ups));
    } else {
        lemma_records_bytes_len(ups, rt, rs);
        lemma_records_bytes_len(ups.drop_first(), rt, rs);
        assert(b.subrange(0, 12) =~= spec_delta_bytes(ups[0], rt, rs));
        crate::update::lemma_delta_roundtrip(ups[0], rt, rs);
        lemma_parse_records_of_written(ups.drop_first(), rt, rs, tail);
        lemma_parse_records_shift(b, 12, 0, ups.len() - 1, rt, rs);
        assert(b.skip(12) =~= spec_records_bytes(ups.drop_first(), rt, rs) + tail);
        assert(spec_parse_records(b, 12, ups.len() - 1, rt, rs) == Some(ups.drop_first()));
        assert(spec_parse_records(b, 0, ups.len() as int, rt, rs) == Some(
            seq![ups[0]] + ups.drop_first(),
        ));
        assert(seq![ups[0]] + ups.drop_first() =~= ups);
    }
}

proof fn lemma_parse_one_batch(rt: u64, rs: u32, bups: Seq<Update>, tail: Seq<u8>)
    requires
        1 <= bups.len() <= 0xffff,
        forall|k: int|
            0 <= k < bups.len() ==> rt <= bups[k].ts && bups[k].ts - rt <= 0xffff && rs
                <= bups[k].seq && bups[k].seq - rs <= 0xff,
    ensures
        ({
            let meta = BatchMetadata { ref_ts: rt, ref_seq: rs, count: bups.len() as u16 };
            spec_parse_batches(spec_batch_bytes(rt, rs, bups) + tail) == (
            match spec_parse_batches(tail) {
                None => None::<Seq<(BatchMetadata, Seq<Update>)>>,
                Some(bs2) => Some(seq![(meta, bups)] + bs2),
            })
        }),
{
    let bb = spec_batch_bytes(rt, rs, bups);
    let b = bb + tail;
    lemma_records_bytes_len(bups, rt, rs);
    assert(bb.len() == 15 + 12 * bups.len());
    assert(b[0] == 1);
    assert(b.subrange(1, 9) =~= spec_be8(rt));
    crate::wire::lemma_be8_roundtrip(rt);
    assert(b.subrange(9, 13) =~= spec_be4(rs));
    crate::wire::lemma_be4_roundtrip(rs);
    assert(b.subrange(13, 15) =~= spec_be2(bups.len() as u16));
    crate::wire::lemma_be2_roundtrip(bups.len() as u16);
    let meta = BatchMetadata { ref_ts: rt, ref_seq: rs, count: bups.len() as u16 };
    assert(meta.count as int == bups.len());
    assert(b.len() >= 15 + 12 * (meta.count as int));
    lemma_parse_records_shift(b, 15, 0, bups.len() as int, rt, rs);
    assert(b.skip(15) =~= spec_records_bytes(bups, rt, rs) + tail);
    lemma_parse_records_of_written(bups, rt, rs, tail);
    assert(spec_parse_records(b, 15, meta.count as int, rt, rs) == Some(bups));
    assert(b.skip(15 + 12 * (meta.count as int)) =~= tail);
}

/// Parsing the writer's body for the updates from `s` on, followed by any
/// further bytes, yields the writer's batch decomposition followed by the
/// parse of those bytes.
#[verifier::rlimit(60)]
pub proof fn lemma_parse_batches_of_body(ups: Seq<Update>, s: int, rest: Seq<u8>)
    requires
        0 <= s <= ups.len(),
    ensures
        spec_parse_batches(spec_body_from(ups, s) + rest) == (match spec_parse_batches(rest) {
            None => None::<Seq<(BatchMetadata, Seq<Update>)>>,
            Some(bs) => Some(spec_batches_of(ups, s) + bs),
        }),
    decreases ups.len() - s,
{
    if s >= ups.len() {
        assert(spec_body_from(ups, s) + rest =~= rest);
        if spec_parse_batches(rest) is Some {
            assert(spec_batches_of(ups, s) + spec_parse_batches(rest)->0 =~= spec_parse_batches(
                rest,
            )->0);
        }
    } else {
        lemma_batch_end_props(ups, s, s + 1);
        let e = spec_batch_end(ups, s, s + 1);
        let bups = ups.subrange(s, e);
        let rt = ups[s].ts;
        let rs = ups[s].seq;
        assert(forall|k: int|
            0 <= k < bups.len() ==> rt <= bups[k].ts && bups[k].ts - rt <= 0xffff && rs
                <= bups[k].seq && bups[k].seq - rs <= 0xff) by {
            assert(forall|k: int| 0 <= k < bups.len() ==> bups[k] == ups[s + k]);
        }
        lemma_parse_batches_of_body(ups, e, rest);
        lemma_parse_one_batch(rt, rs, bups, spec_body_from(ups, e) + rest);
        assert(spec_body_from(ups, s) + rest =~= spec_batch_bytes(rt, rs, bups) + (spec_body_from(
            ups,
            e,
        ) + rest));
        let meta = BatchMetadata { ref_ts: rt, ref_seq: rs, count: bups.len() as u16 };
        match spec_parse_batches(rest) {
            None => {},
            Some(bs) => {
                assert(seq![(meta, bups)] + (spec_batches_of(ups, e) + bs) =~= spec_batches_of(
                    ups,
                    s,
                ) + bs);
            },
        }
    }
}

/// All the records of the writer's batch decomposition, in order, are
/// exactly the updates from `s` on.
pub proof fn lemma_concat_batches_of(ups: Seq<Update>, s: int)
    requires
        0 <= s <= ups.len(),
    ensures
        spec_concat_batches(spec_batches_of(ups, s)) == ups.skip(s),
    decreases ups.len() - s,
{
    if s >= ups.len() {
        assert(ups.skip(s) =~= Seq::<Update>::empty());
    } else {
        lemma_batch_end_props(ups, s, s + 1);
        let e = spec_batch_end(ups, s, s + 1);
        lemma_concat_batches_of(ups, e);
        let bs = spec_batches_of(ups, s);
        assert(bs.drop_first() =~= spec_batches_of(ups, e));
        assert(spec_concat_batches(bs) == ups.subrange(s, e) + ups.skip(e));
        assert(ups.subrange(s, e) + ups.skip(e) =~= ups.skip(s));
    }
}

/// `b` without its leading spaces.
pub open spec fn spec_trim_left(b: Seq<u8>) -> Seq<u8>
    decreases b.len(),
{
    if b.len() == 0 {
        b
    } else if b[0] == 32 {
        spec_trim_left(b.drop_first())
    } else {
        b
    }
}

/// `b` without its trailing spaces.
pub open spec fn spec_trim_right(b: Seq<u8>) -> Seq<u8>
    decreases b.len(),
{
    if b.len() == 0 {
        b
    } else if b.last() == 32 {
        spec_trim_right(b.drop_last())
    } else {
        b
    }
}

/// `b` without leading and trailing spaces: the caller-visible form of
/// the padded symbol field.
pub open spec fn spec_trim_spaces(b: Seq<u8>) -> Seq<u8> {
    spec_trim_right(spec_trim_left(b))
}

proof fn lemma_trim_right_padding(sym: Seq<u8>, k: nat)
    requires
        sym.len() == 0 || sym.last() != 32,
    ensures
        spec_trim_right(sym + Seq::new(k, |i: int| 32u8)) == sym,
    decreases k,
{
    let padded = sym + Seq::new(k, |i: int| 32u8);
    if k == 0 {
        assert(padded =~= sym);
        if sym.len() > 0 {
            assert(spec_trim_right(sym) == sym);
        }
    } else {
        assert(padded.last() == 32);
        assert(padded.drop_last() =~= sym + Seq::new((k - 1) as nat, |i: int| 32u8));
        lemma_trim_right_padding(sym, (k - 1) as nat);
    }
}

proof fn lemma_trim_left_all_spaces(k: nat)
    ensures
        spec_trim_left(Seq::new(k, |i: int| 32u8)) == Seq::<u8>::empty(),
    decreases k,
{
    let b = Seq::new(k, |i: int| 32u8);
    if k == 0 {
        assert(b =~= Seq::<u8>::empty());
    } else {
        assert(b[0] == 32);
        assert(b.drop_first() =~= Seq::new((k - 1) as nat, |i: int| 32u8));
        lemma_trim_left_all_spaces((k - 1) as nat);
    }
}

/// Trimming the padded symbol field recovers the symbol, as long as the
/// symbol itself neither starts nor ends with a space.
pub proof fn lemma_trim_padded_symbol(sym: Seq<u8>)
    requires
        sym.len() <= 20,
        sym.len() == 0 || (sym[0] != 32 && sym.last() != 32),
    ensures
        spec_trim_spaces(spec_padded_symbol(sym)) == sym,
{
    let padded = spec_padded_symbol(sym);
    if sym.len() == 0 {
        assert(padded =~= Seq::new(20, |i: int| 32u8));
        lemma_trim_left_all_spaces(20);
        assert(spec_trim_right(Seq::<u8>::empty()) =~= sym);
    } else {
        assert(padded[0] == sym[0]);
        assert(spec_trim_left(padded) == padded);
        lemma_trim_right_padding(sym, (20 - sym.len()) as nat);
    }
}

/// Encoding a non-empty update vector and reading the file back is the
/// identity: the body parses to exactly the input records, and the header
/// fields read back as the symbol (trimmed of its padding), the record
/// count, the first record's timestamp and the last record's timestamp.
pub proof fn lemma_encode_decode_roundtrip(sym: Seq<u8>, ups: Seq<Update>)
    requires
        sym.len() <= 20,
        sym.len() == 0 || (sym[0] != 32 && sym.last() != 32),
        0 < ups.len() <= u64::MAX,
    ensures
        ({
            let f = spec_file_bytes(sym, ups);
            &&& spec_magic_ok(f)
            &&& spec_parse_batches(spec_file_body(f)) == Some(spec_batches_of(ups, 0))
            &&& spec_concat_batches(spec_batches_of(ups, 0)) == ups
            &&& spec_trim_spaces(f.subrange(5, 25)) == sym
            &&& spec_u64_of(f.subrange(25, 33)) == ups.len()
            &&& spec_u64_of(f.subrange(33, 41)) == ups.last().ts
            &&& spec_batches_of(ups, 0).len() > 0
            &&& spec_batches_of(ups, 0)[0].1.len() > 0
            &&& spec_batches_of(ups, 0)[0].1[0] == ups[0]
            &&& spec_batches_of(ups, 0)[0].0.ref_ts == ups[0].ts
        }),
{
    let f = spec_file_bytes(sym, ups);
    let h = spec_header_bytes(sym, ups.len() as u64, ups.last().ts);
    assert(h.len() == 80);
    assert(f == h + spec_body_from(ups, 0));
    assert(f.subrange(0, 5) =~= spec_magic());
    assert(f.subrange(5, 25) =~= spec_padded_symbol(sym));
    lemma_trim_padded_symbol(sym);
    assert(f.subrange(25, 33) =~= spec_be8(ups.len() as u64));
    crate::wire::lemma_be8_roundtrip(ups.len() as u64);
    assert(f.subrange(33, 41) =~= spec_be8(ups.last().ts));
    crate::wire::lemma_be8_roundtrip(ups.last().ts);
    lemma_records_bytes_len(ups.subrange(0, spec_batch_end(ups, 0, 1)), ups[0].ts, ups[0].seq);
    assert(f.len() > 80);
    assert(spec_file_body(f) =~= spec_body_from(ups, 0) + Seq::<u8>::empty());
    assert(spec_parse_batches(Seq::<u8>::empty()) == Some(
        Seq::<(BatchMetadata, Seq<Update>)>::empty(),
    ));
    lemma_parse_batches_of_body(ups, 0, Seq::<u8>::empty());
    assert(spec_batches_of(ups, 0) + Seq::<(BatchMetadata, Seq<Update>)>::empty()
        =~= spec_batches_of(ups, 0));
    lemma_concat_batches_of(ups, 0);
    assert(ups.skip(0) =~= ups);
    lemma_batch_end_props(ups, 0, 1);
    assert(spec_batches_of(ups, 0)[0].1 == ups.subrange(0, spec_batch_end(ups, 0, 1)));
}

/// Relies on `core::str::from_utf8`: bytes below `0x80` are valid UTF-8
/// and decode to one character per byte, each with the byte's code point.
#[verifier::external_body]
fn ascii_bytes_to_string(b: &Vec<u8>) -> (r: String)
    requires
        forall|i: int| 0 <= i < b@.len() ==> b@[i] < 128,
    ensures
        r@.len() == b@.len(),
        forall|i: int| 0 <= i < b@.len() ==> r@[i] as u32 == b@[i] as u32,
{
    match core::str::from_utf8(b.as_slice()) {
        Ok(s) => s.to_string(),
        Err(_) => String::new(),
    }
}

/// Reads the timestamp of the first record in the body: the file's least
/// timestamp, since records are stored in order.
pub fn read_min_ts(buf: &[u8]) -> (r: Result<u64, CodecError>)
    ensures
        ({
            let p = spec_parse_batches(spec_file_body(buf@));
            (p is Some && p->0.len() > 0 && p->0[0].1.len() > 0) ==> r == Ok::<u64, CodecError>(
                p->0[0].1[0].ts,
            )
        }),
{
    let n = buf.len();
    if n <= MAIN_OFFSET {
        return Err(CodecError::Truncated);
    }
    assert(buf@.skip(MAIN_OFFSET as int) =~= spec_file_body(buf@));
    match read_one_batch(buf, MAIN_OFFSET) {
        Err(e) => Err(e),
        Ok((batch, _)) => {
            if batch.len() == 0 {
                Err(CodecError::Truncated)
            } else {
                Ok(batch[0].ts)
            }
        },
    }
}

/// Reads the header summary of a file image: the trimmed symbol, the
/// record count, the greatest timestamp, and the least timestamp (the
/// first record's; the greatest header timestamp when the file is empty).
pub fn read_meta_from_buf(buf: &[u8]) -> (r: Result<Metadata, CodecError>)
    ensures
        buf@.len() < 41 ==> r == Err::<Metadata, CodecError>(CodecError::Truncated),
        ({
            let t = spec_trim_spaces(buf@.subrange(5, 25));
            let nums = spec_u64_of(buf@.subrange(25, 33));
            let maxts = spec_u64_of(buf@.subrange(33, 41));
            let p = spec_parse_batches(spec_file_body(buf@));
            buf@.len() >= 41 ==> {
                &&& (r matches Ok(m) ==> m.symbol@.len() == t.len() && (forall|i: int|
                    0 <= i < t.len() ==> m.symbol@[i] as u32 == t[i] as u32) && m.nums == nums
                    && m.max_ts == maxts && (nums == 0 ==> m.min_ts == maxts))
                &&& ((exists|i: int| 0 <= i < t.len() && t[i] >= 128) ==> r is Err)
                &&& ((nums == 0 && forall|i: int| 0 <= i < t.len() ==> t[i] < 128) ==> r is Ok)
                &&& ((nums > 0 && (forall|i: int| 0 <= i < t.len() ==> t[i] < 128) && p is Some
                    && p->0.len() > 0 && p->0[0].1.len() > 0) ==> (r matches Ok(m) && m.min_ts
                    == p->0[0].1[0].ts))
            }
        }),
{
    let n = buf.len();
    if n < 41 {
        return Err(CodecError::Truncated);
    }
    let ghost field = buf@.subrange(5, 25);
    assert(field.skip(0) =~= field);

    let mut start: usize = 5;
    while start < 25 && buf[start] == 32
        invariant
            5 <= start <= 25,
            n == buf@.len(),
            n >= 41,
            field == buf@.subrange(5, 25),
            spec_trim_left(field) == spec_trim_left(buf@.subrange(5, 25).skip(start - 5)),
        decreases 25 - start,
    {
        proof {
            let rem = buf@.subrange(5, 25).skip(start - 5);
            assert(rem[0] == buf@[start as int]);
            assert(rem.drop_first() =~= buf@.subrange(5, 25).skip(start - 4));
        }
        start = start + 1;
    }
    proof {
        let rem = buf@.subrange(5, 25).skip(start - 5);
        if start < 25 {
            assert(rem[0] == buf@[start as int]);
        } else {
            assert(rem =~= Seq::<u8>::empty());
        }
        assert(spec_trim_left(field) == rem);
        assert(rem =~= buf@.subrange(start as int, 25));
    }

    let mut end: usize = 25;
    while end > start && buf[end - 1] == 32
        invariant
            start <= end <= 25,
            5 <= start <= 25,
            n == buf@.len(),
            n >= 41,
            spec_trim_left(field) == buf@.subrange(start as int, 25),
            field == buf@.subrange(5, 25),
            spec_trim_right(buf@.subrange(start as int, 25)) == spec_trim_right(
                buf@.subrange(start as int, end as int),
            ),
        decreases end,
    {
        proof {
            let rem = buf@.subrange(start as int, end as int);
            assert(rem.last() == buf@[end - 1]);
            assert(rem.drop_last() =~= buf@.subrange(start as int, end - 1));
        }
        end = end - 1;
    }
    proof {
        let rem = buf@.subrange(start as int, end as int);
        if end > start {
            assert(rem.last() == buf@[end - 1]);
        } else {
            assert(rem =~= Seq::<u8>::empty());
        }
        assert(spec_trim_spaces(field) == buf@.subrange(start as int, end as int));
    }

    let mut sym_bytes: Vec<u8> = Vec::new();
    let mut i: usize = start;
    while i < end
        invariant
            start <= i <= end <= 25,
            5 <= start,
            n == buf@.len(),
            n >= 41,
            spec_trim_spaces(buf@.subrange(5, 25)) == buf@.subrange(start as int, end as int),
            sym_bytes@ == buf@.subrange(start as int, i as int),
            forall|k: int| 0 <= k < sym_bytes@.len() ==> sym_bytes@[k] < 128,
        decreases end - i,
    {
        if buf[i] >= 128 {
            assert(buf@.subrange(start as int, end as int)[i - start] == buf@[i as int]);
            return Err(CodecError::BadSymbol);
        }
        sym_bytes.push(buf[i]);
        assert(sym_bytes@ =~= buf@.subrange(start as int, i + 1));
        i = i + 1;
    }
    assert(sym_bytes@ == spec_trim_spaces(buf@.subrange(5, 25)));
    let symbol = ascii_bytes_to_string(&sym_bytes);

    let nums = read_be8(buf, LEN_OFFSET);
    let max_ts = read_be8(buf, MAX_TS_OFFSET);
    if nums == 0 {
        return Ok(Metadata { symbol, nums, max_ts, min_ts: max_ts });
    }
    match read_min_ts(buf) {
        Err(e) => Err(e),
        Ok(min_ts) => Ok(Metadata { symbol, nums, max_ts, min_ts }),
    }
}

/// A record's timestamp lies in the inclusive window.
pub open spec fn in_window(u: Update, min_ts: u64, max_ts: u64) -> bool {
    min_ts <= u.ts && u.ts <= max_ts
}

/// What the range scan returns, decided batch by batch exactly as the
/// scan decides it. The scan probes the next batch header before
/// touching the current batch: with the reference timestamps `ct` (of
/// the current batch) and `nt` (of the next), it stops when every later
/// record is out of range (`max_ts <= ct`), materializes the current
/// batch when the window meets `[ct, nt)` (whole when the window covers
/// it, filtered otherwise), and skips it when the window lies beyond
/// `nt`. When the probe finds no next header the current batch is the
/// body's last: it is still decided — dropped when `max_ts <= ct`,
/// materialized filtered otherwise.
pub open spec fn spec_range_batches(
    bs: Seq<(BatchMetadata, Seq<Update>)>,
    min_ts: u64,
    max_ts: u64,
) -> Seq<Update>
    decreases bs.len(),
{
    if bs.len() == 0 {
        Seq::empty()
    } else if bs.len() == 1 {
        let ct = bs[0].0.ref_ts;
        if max_ts <= ct {
            Seq::empty()
        } else {
            bs[0].1.filter(|u: Update| in_window(u, min_ts, max_ts))
        }
    } else {
        let ct = bs[0].0.ref_ts;
        let nt = bs[1].0.ref_ts;
        if min_ts <= ct && max_ts <= ct {
            Seq::empty()
        } else if (min_ts <= ct && max_ts <= nt) || (min_ts < nt && max_ts >= nt) || (min_ts > ct
            && max_ts < nt) {
            let kept = if min_ts <= ct && max_ts >= nt {
                bs[0].1
            } else {
                bs[0].1.filter(|u: Update| in_window(u, min_ts, max_ts))
            };
            kept + spec_range_batches(bs.drop_first(), min_ts, max_ts)
        } else {
            spec_range_batches(bs.drop_first(), min_ts, max_ts)
        }
    }
}

fn push_in_window(out: &mut Vec<Update>, batch: &Vec<Update>, min_ts: u64, max_ts: u64)
    ensures
        final(out)@ == old(out)@ + batch@.filter(|u: Update| in_window(u, min_ts, max_ts)),
{
    let ghost mid = out@;
    let mut j: usize = 0;
    while j < batch.len()
        invariant
            j <= batch@.len(),
            out@ == mid + batch@.subrange(0, j as int).filter(
                |u: Update| in_window(u, min_ts, max_ts),
            ),
        decreases batch@.len() - j,
    {
        let ghost pre = batch@.subrange(0, j as int);
        let u = batch[j];
        if u.ts >= min_ts && u.ts <= max_ts {
            out.push(u);
        }
        proof {
            reveal(Seq::filter);
            let pred = |x: Update| in_window(x, min_ts, max_ts);
            let nxt = batch@.subrange(0, j + 1);
            assert(nxt.drop_last() =~= pre);
            assert(nxt.last() == batch@[j as int]);
            assert(nxt.filter(pred) == if pred(batch@[j as int]) {
                pre.filter(pred).push(batch@[j as int])
            } else {
                pre.filter(pred)
            });
            if pred(batch@[j as int]) {
                assert(out@ =~= mid + nxt.filter(pred));
            }
        }
        j = j + 1;
    }
    assert(batch@.subrange(0, batch@.len() as int) =~= batch@);
}

#[verifier::rlimit(100)]
fn range_from(buf: &[u8], pos: usize, min_ts: u64, max_ts: u64, out: &mut Vec<Update>) -> (r:
    Result<(), CodecError>)
    requires
        pos <= buf@.len(),
        min_ts <= max_ts,
    ensures
        ({
            let p = spec_parse_batches(buf@.skip(pos as int));
            p is Some ==> r is Ok && final(out)@ == old(out)@ + spec_range_batches(
                p->0,
                min_ts,
                max_ts,
            )
        }),
    decreases buf@.len() - pos,
{
    let n = buf.len();
    let ghost sfx = buf@.skip(pos as int);
    let ghost p = spec_parse_batches(sfx);
    if pos == n || buf[pos] != 1 {
        proof {
            if pos < n {
                assert(sfx[0] == buf@[pos as int]);
            }
            assert(out@ =~= out@ + spec_range_batches(Seq::empty(), min_ts, max_ts));
        }
        return Ok(());
    }
    assert(sfx[0] == buf@[pos as int]);
    if n - pos < 15 {
        assert(sfx.len() < 15);
        return Err(CodecError::Truncated);
    }
    let ct_meta = read_one_batch_meta(buf, pos + 1);
    proof {
        assert(sfx.subrange(1, 9) =~= buf@.subrange(pos + 1, pos + 9));
        assert(sfx.subrange(9, 13) =~= buf@.subrange(pos + 9, pos + 13));
        assert(sfx.subrange(13, 15) =~= buf@.subrange(pos + 13, pos + 15));
    }
    let cnt = ct_meta.count as usize;
    if n - pos - 15 < 12 * cnt {
        assert(sfx.len() < 15 + 12 * (ct_meta.count as int));
        return Err(CodecError::Truncated);
    }
    let pos2 = pos + 15 + 12 * cnt;
    let ghost sfx2 = buf@.skip(pos2 as int);
    proof {
        assert(sfx.skip(15 + 12 * (ct_meta.count as int)) =~= sfx2);
        if p is Some {
            assert(spec_parse_batches(sfx2) is Some);
            assert(p->0.len() >= 1);
            assert(p->0[0].0 == ct_meta);
            assert(p->0.drop_first() == spec_parse_batches(sfx2)->0);
        }
    }
    if pos2 == n || buf[pos2] != 1 {
        // the current batch is the body's last: decide for it without a
        // next reference
        proof {
            if p is Some {
                if pos2 < n {
                    assert(sfx2[0] == buf@[pos2 as int]);
                }
                assert(spec_parse_batches(sfx2) == Some(
                    Seq::<(BatchMetadata, Seq<Update>)>::empty(),
                ));
                assert(p->0.len() == 1);
            }
        }
        if max_ts <= ct_meta.ref_ts {
            proof {
                if p is Some {
                    assert(out@ =~= out@ + spec_range_batches(p->0, min_ts, max_ts));
                }
            }
            return Ok(());
        }
        let mut batch: Vec<Update> = Vec::new();
        proof {
            lemma_parse_records_shift(buf@, pos as int, 15, ct_meta.count as int, ct_meta.ref_ts,
                ct_meta.ref_seq);
        }
        match read_records(buf, pos + 15, ct_meta.count, ct_meta.ref_ts, ct_meta.ref_seq,
            &mut batch) {
            Err(_) => {
                return Err(CodecError::BadRecord);
            },
            Ok(_) => {},
        }
        proof {
            if p is Some {
                assert(batch@ == p->0[0].1);
            }
        }
        push_in_window(out, &batch, min_ts, max_ts);
        proof {
            if p is Some {
                assert(out@ =~= old(out)@ + spec_range_batches(p->0, min_ts, max_ts));
            }
        }
        return Ok(());
    }
    assert(sfx2[0] == buf@[pos2 as int]);
    if n - pos2 < 15 {
        assert(sfx2.len() < 15);
        return Err(CodecError::Truncated);
    }
    let nt_meta = read_one_batch_meta(buf, pos2 + 1);
    proof {
        assert(sfx2.subrange(1, 9) =~= buf@.subrange(pos2 + 1, pos2 + 9));
        if p is Some {
            assert(p->0.len() >= 2);
            assert(p->0[1] == p->0.drop_first()[0]);
            assert(p->0[1].0.ref_ts == nt_meta.ref_ts);
        }
    }
    let ct = ct_meta.ref_ts;
    let nt = nt_meta.ref_ts;
    if min_ts <= ct && max_ts <= ct {
        proof {
            if p is Some {
                assert(spec_range_batches(p->0, min_ts, max_ts) =~= Seq::<Update>::empty());
                assert(out@ =~= out@ + spec_range_batches(p->0, min_ts, max_ts));
            }
        }
        return Ok(());
    }
    if (min_ts <= ct && max_ts <= nt) || (min_ts < nt && max_ts >= nt) || (min_ts > ct && max_ts
        < nt) {
        let mut batch: Vec<Update> = Vec::new();
        proof {
            lemma_parse_records_shift(buf@, pos as int, 15, ct_meta.count as int, ct_meta.ref_ts,
                ct_meta.ref_seq);
        }
        match read_records(buf, pos + 15, ct_meta.count, ct_meta.ref_ts, ct_meta.ref_seq,
            &mut batch) {
            Err(_) => {
                return Err(CodecError::BadRecord);
            },
            Ok(_) => {},
        }
        proof {
            if p is Some {
                assert(batch@ == p->0[0].1);
            }
        }
        let ghost mid = out@;
        let ghost keep_all = min_ts <= ct && max_ts >= nt;
        if min_ts <= ct && max_ts >= nt {
            let mut b = batch;
            out.append(&mut b);
        } else {
            push_in_window(out, &batch, min_ts, max_ts);
        }
        let ghost after_kept = out@;
        let r = range_from(buf, pos2, min_ts, max_ts, out);
        proof {
            if p is Some {
                assert(r is Ok);
                let bs = p->0;
                let kept = if keep_all {
                    bs[0].1
                } else {
                    bs[0].1.filter(|u: Update| in_window(u, min_ts, max_ts))
                };
                assert(mid == old(out)@);
                assert(after_kept == mid + kept);
                assert(out@ == after_kept + spec_range_batches(bs.drop_first(), min_ts, max_ts));
                assert(out@ =~= old(out)@ + (kept + spec_range_batches(
                    bs.drop_first(),
                    min_ts,
                    max_ts,
                )));
            }
        }
        r
    } else {
        let r = range_from(buf, pos2, min_ts, max_ts, out);
        proof {
            if p is Some {
                assert(out@ == old(out)@ + spec_range_batches(p->0.drop_first(), min_ts, max_ts));
                assert(min_ts >= nt);
                assert(spec_range_batches(p->0, min_ts, max_ts) == spec_range_batches(
                    p->0.drop_first(),
                    min_ts,
                    max_ts,
                ));
            }
        }
        r
    }
}

/// The range scan: returns records whose timestamps lie in
/// `[min_ts, max_ts]`, walking batch headers and materializing only the
/// batches the window can touch. An inverted window returns nothing.
pub fn range(buf: &[u8], min_ts: u64, max_ts: u64) -> (r: Result<Vec<Update>, CodecError>)
    ensures
        min_ts > max_ts ==> (r matches Ok(v) && v@ == Seq::<Update>::empty()),
        ({
            let p = spec_parse_batches(spec_file_body(buf@));
            (min_ts <= max_ts && p is Some) ==> (r matches Ok(v) && v@ == spec_range_batches(
                p->0,
                min_ts,
                max_ts,
            ))
        }),
{
    let mut out: Vec<Update> = Vec::new();
    if min_ts > max_ts {
        return Ok(out);
    }
    let n = buf.len();
    if n <= MAIN_OFFSET {
        proof {
            let p = spec_parse_batches(spec_file_body(buf@));
            assert(p == Some(Seq::<(BatchMetadata, Seq<Update>)>::empty()));
        }
        return Ok(out);
    }
    assert(buf@.skip(MAIN_OFFSET as int) =~= spec_file_body(buf@));
    match range_from(buf, MAIN_OFFSET, min_ts, max_ts, &mut out) {
        Ok(_) => Ok(out),
        Err(e) => Err(e),
    }
}

fn extend_from(out: &mut Vec<u8>, buf: &[u8], from: usize, to: usize)
    requires
        from <= to <= buf@.len(),
    ensures
        final(out)@ == old(out)@ + buf@.subrange(from as int, to as int),
{
    let n = buf.len();
    let mut i: usize = from;
    while i < to
        invariant
            from <= i <= to <= n,
            n == buf@.len(),
            out@ == old(out)@ + buf@.subrange(from as int, i as int),
        decreases to - i,
    {
        out.push(buf[i]);
        assert(out@ =~= old(out)@ + buf@.subrange(from as int, i + 1));
        i = i + 1;
    }
    assert(out@ =~= old(out)@ + buf@.subrange(from as int, to as int));
}

/// A record is strictly later than the file's recorded greatest
/// timestamp, so appending it cannot interleave with existing data.
pub open spec fn later_than(old_max_ts: u64) -> spec_fn(Update) -> bool {
    |u: Update| u.ts > old_max_ts
}

/// Appends updates to an encoded file image. Records no later than the
/// file's recorded greatest timestamp are dropped; if none survive the
/// image is returned unchanged. Otherwise the header's count and
/// greatest timestamp are rewritten and the surviving records are
/// batched onto the end of the body.
pub fn append_buffer(buf: &[u8], ups: &Vec<Update>) -> (r: Result<Vec<u8>, CodecError>)
    ensures
        !spec_magic_ok(buf@) ==> r == Err::<Vec<u8>, CodecError>(CodecError::BadMagic),
        spec_magic_ok(buf@) && buf@.len() < 80 ==> r == Err::<Vec<u8>, CodecError>(
            CodecError::Truncated,
        ),
        ({
            let old_max = spec_u64_of(buf@.subrange(33, 41));
            let cur_len = spec_u64_of(buf@.subrange(25, 33));
            let filtered = ups@.filter(later_than(old_max));
            spec_magic_ok(buf@) && buf@.len() >= 80 ==> {
                &&& filtered.len() == 0 ==> (r matches Ok(v) && v@ == buf@)
                &&& (filtered.len() > 0 && cur_len + filtered.len() > u64::MAX) ==> r == Err::<
                    Vec<u8>,
                    CodecError,
                >(CodecError::Oversize)
                &&& (filtered.len() > 0 && cur_len + filtered.len() <= u64::MAX) ==> (r matches Ok(
                    v,
                ) && v@ == buf@.subrange(0, 25) + spec_be8((cur_len + filtered.len()) as u64)
                    + spec_be8(filtered.last().ts) + buf@.subrange(
                    41,
                    if cur_len == 0 {
                        80int
                    } else {
                        buf@.len() as int
                    },
                ) + spec_body_from(filtered, 0))
            }
        }),
{
    match read_magic_value(buf) {
        Err(_) => {
            return Err(CodecError::BadMagic);
        },
        Ok(false) => {
            return Err(CodecError::BadMagic);
        },
        Ok(true) => {},
    }
    let n = buf.len();
    if n < MAIN_OFFSET {
        return Err(CodecError::Truncated);
    }
    let old_max = read_be8(buf, MAX_TS_OFFSET);
    let cur_len = read_be8(buf, LEN_OFFSET);

    let ghost pred = later_than(old_max);
    let mut filtered: Vec<Update> = Vec::new();
    let mut i: usize = 0;
    while i < ups.len()
        invariant
            i <= ups@.len(),
            filtered@ == ups@.subrange(0, i as int).filter(later_than(old_max)),
        decreases ups@.len() - i,
    {
        let ghost pre = ups@.subrange(0, i as int);
        let u = ups[i];
        if u.ts > old_max {
            filtered.push(u);
        }
        proof {
            reveal(Seq::filter);
            let nxt = ups@.subrange(0, i + 1);
            assert(nxt.drop_last() =~= pre);
            assert(nxt.last() == ups@[i as int]);
        }
        i = i + 1;
    }
    assert(ups@.subrange(0, ups@.len() as int) =~= ups@);

    if filtered.len() == 0 {
        let mut out: Vec<u8> = Vec::new();
        extend_from(&mut out, buf, 0, n);
        assert(out@ =~= buf@);
        return Ok(out);
    }
    if filtered.len() as u64 > u64::MAX - cur_len {
        return Err(CodecError::Oversize);
    }
    let new_len = cur_len + filtered.len() as u64;
    let new_max = filtered[filtered.len() - 1].ts;

    let mut out: Vec<u8> = Vec::new();
    extend_from(&mut out, buf, 0, LEN_OFFSET);
    push_be8(&mut out, new_len);
    push_be8(&mut out, new_max);
    if cur_len == 0 {
        extend_from(&mut out, buf, 41, MAIN_OFFSET);
    } else {
        extend_from(&mut out, buf, 41, n);
    }
    let ghost head = out@;
    write_body_from(&filtered, 0, &mut out);
    proof {
        let fl = ups@.filter(later_than(old_max));
        assert(out@ =~= buf@.subrange(0, 25) + spec_be8((spec_u64_of(buf@.subrange(25, 33))
            + fl.len()) as u64) + spec_be8(fl.last().ts) + buf@.subrange(
            41,
            if spec_u64_of(buf@.subrange(25, 33)) == 0 {
                80int
            } else {
                buf@.len() as int
            },
        ) + spec_body_from(fl, 0));
    }
    Ok(out)
}

/// The file kinds the toolkit can identify; WSTF is the only one.
#[derive(Clone, Copy, Debug, PartialEq, Eq, Structural)]
pub enum FileType {
    RawWstf,
}

impl Default for FileType {
    fn default() -> (r: Self)
        ensures
            r == FileType::RawWstf,
    {
        FileType::RawWstf
    }
}

/// Pads a header-only buffer with zero bytes up to the body offset, then
/// writes the batched records there.
pub fn write_main(out: &mut Vec<u8>, ups: &Vec<Update>)
    requires
        old(out)@.len() <= 80,
    ensures
        final(out)@ == old(out)@ + Seq::new((80 - old(out)@.len()) as nat, |i: int| 0u8)
            + spec_body_from(ups@, 0),
{
    let ghost base = out@;
    let mut z = out.len();
    while z < MAIN_OFFSET
        invariant
            base.len() <= z <= 80,
            out@ == base + Seq::new((z - base.len()) as nat, |i: int| 0u8),
        decreases 80 - z,
    {
        out.push(0);
        assert(out@ =~= base + Seq::new((z + 1 - base.len()) as nat, |i: int| 0u8));
        z = z + 1;
    }
    write_body_from(ups, 0, out);
}

/// A parsed batch list is coherent the way the writer makes it: every
/// record comes no earlier than its batch's reference timestamp and no
/// later than the next batch's.
pub open spec fn batches_coherent(bs: Seq<(BatchMetadata, Seq<Update>)>) -> bool {
    forall|i: int, k: int|
        0 <= i < bs.len() && 0 <= k < bs[i].1.len() ==> bs[i].0.ref_ts <= (#[trigger] bs[i].1[k]).ts
            && (i + 1 < bs.len() ==> bs[i].1[k].ts <= bs[i + 1].0.ref_ts)
}

/// The writer's batch decomposition of a sorted update vector is
/// coherent.
pub proof fn lemma_batches_of_sorted_coherent(ups: Seq<Update>, s: int)
    requires
        sorted_updates(ups),
        0 <= s <= ups.len(),
    ensures
        batches_coherent(spec_batches_of(ups, s)),
        spec_batches_of(ups, s).len() > 0 ==> spec_batches_of(ups, s)[0].0.ref_ts == ups[s].ts,
    decreases ups.len() - s,
{
    if s < ups.len() {
        lemma_batch_end_props(ups, s, s + 1);
        let e = spec_batch_end(ups, s, s + 1);
        lemma_batches_of_sorted_coherent(ups, e);
        let bs = spec_batches_of(ups, s);
        let tail = spec_batches_of(ups, e);
        assert(bs[0].1 == ups.subrange(s, e));
        assert forall|i: int, k: int|
            0 <= i < bs.len() && 0 <= k < bs[i].1.len() implies bs[i].0.ref_ts <= (#[trigger] bs[i
            ].1[k]).ts && (i + 1 < bs.len() ==> bs[i].1[k].ts <= bs[i + 1].0.ref_ts) by {
            if i == 0 {
                assert(bs[0].1[k] == ups[s + k]);
                assert(update_le(ups[s], ups[s + k]));
                if bs.len() > 1 {
                    assert(bs[1] == tail[0]);
                    assert(tail[0].0.ref_ts == ups[e].ts);
                    assert(update_le(ups[s + k], ups[e]));
                }
            } else {
                assert(bs[i] == tail[i - 1]);
                assert(bs[i].1[k] == tail[i - 1].1[k]);
                if i + 1 < bs.len() {
                    assert(bs[i + 1] == tail[i]);
                }
            }
        }
    }
}

/// Every record the range scan returns lies in the inclusive window,
/// whenever the batch list is coherent — in particular for anything the
/// writer produced from a sorted vector.
pub proof fn lemma_range_within_window(
    bs: Seq<(BatchMetadata, Seq<Update>)>,
    min_ts: u64,
    max_ts: u64,
)
    requires
        min_ts <= max_ts,
        batches_coherent(bs),
    ensures
        forall|i: int|
            0 <= i < spec_range_batches(bs, min_ts, max_ts).len() ==> in_window(
                #[trigger] spec_range_batches(bs, min_ts, max_ts)[i],
                min_ts,
                max_ts,
            ),
    decreases bs.len(),
{
    broadcast use vstd::seq_lib::group_filter_ensures;

    if bs.len() > 1 {
        let ct = bs[0].0.ref_ts;
        let nt = bs[1].0.ref_ts;
        assert(batches_coherent(bs.drop_first())) by {
            let tail = bs.drop_first();
            assert forall|i: int, k: int|
                0 <= i < tail.len() && 0 <= k < tail[i].1.len() implies tail[i].0.ref_ts <= (
            #[trigger] tail[i].1[k]).ts && (i + 1 < tail.len() ==> tail[i].1[k].ts <= tail[i
                + 1].0.ref_ts) by {
                assert(tail[i] == bs[i + 1]);
                assert(tail[i].1[k] == bs[i + 1].1[k]);
                if i + 1 < tail.len() {
                    assert(tail[i + 1] == bs[i + 2]);
                }
            }
        }
        lemma_range_within_window(bs.drop_first(), min_ts, max_ts);
        let r = spec_range_batches(bs, min_ts, max_ts);
        let rest = spec_range_batches(bs.drop_first(), min_ts, max_ts);
        if min_ts <= ct && max_ts <= ct {
        } else if (min_ts <= ct && max_ts <= nt) || (min_ts < nt && max_ts >= nt) || (min_ts > ct
            && max_ts < nt) {
            let pred = |u: Update| in_window(u, min_ts, max_ts);
            let kept = if min_ts <= ct && max_ts >= nt {
                bs[0].1
            } else {
                bs[0].1.filter(pred)
            };
            assert forall|i: int| 0 <= i < r.len() implies in_window(
                #[trigger] r[i],
                min_ts,
                max_ts,
            ) by {
                if i < kept.len() {
                    assert(r[i] == kept[i]);
                    if min_ts <= ct && max_ts >= nt {
                        assert(bs[0].0.ref_ts <= bs[0].1[i].ts);
                        assert(bs[0].1[i].ts <= bs[1].0.ref_ts);
                    } else {
                        assert(in_window(bs[0].1.filter(pred)[i], min_ts, max_ts));
                    }
                } else {
                    assert(r[i] == rest[i - kept.len()]);
                }
            }
        }
    }
}

/// Every batch the writer emits respects the format's bounds: at least
/// one record, at most `0xffff`, and every record's deltas against the
/// batch reference fit their fields — the sequence delta staying under
/// the writer's deliberate `0xf` bound.
pub proof fn lemma_batch_invariants(ups: Seq<Update>, s: int)
    requires
        0 <= s <= ups.len(),
    ensures
        forall|i: int|
            0 <= i < spec_batches_of(ups, s).len() ==> {
                let b = #[trigger] spec_batches_of(ups, s)[i];
                &&& 1 <= b.1.len() <= 0xffff
                &&& b.0.count == b.1.len()
                &&& forall|k: int|
                    0 <= k < b.1.len() ==> b.0.ref_ts <= (#[trigger] b.1[k]).ts && b.1[k].ts
                        - b.0.ref_ts <= 0xffff && b.0.ref_seq <= b.1[k].seq && b.1[k].seq
                        - b.0.ref_seq < 0xf
            },
    decreases ups.len() - s,
{
    if s < ups.len() {
        lemma_batch_end_props(ups, s, s + 1);
        let e = spec_batch_end(ups, s, s + 1);
        lemma_batch_invariants(ups, e);
        let bs = spec_batches_of(ups, s);
        let tail = spec_batches_of(ups, e);
        assert forall|i: int| 0 <= i < bs.len() implies {
            let b = #[trigger] bs[i];
            &&& 1 <= b.1.len() <= 0xffff
            &&& b.0.count == b.1.len()
            &&& forall|k: int|
                0 <= k < b.1.len() ==> b.0.ref_ts <= (#[trigger] b.1[k]).ts && b.1[k].ts
                    - b.0.ref_ts <= 0xffff && b.0.ref_seq <= b.1[k].seq && b.1[k].seq
                    - b.0.ref_seq < 0xf
        } by {
            if i == 0 {
                assert(bs[0].1 == ups.subrange(s, e));
                assert forall|k: int| 0 <= k < bs[0].1.len() implies bs[0].0.ref_ts <= (
                #[trigger] bs[0].1[k]).ts && bs[0].1[k].ts - bs[0].0.ref_ts <= 0xffff
                    && bs[0].0.ref_seq <= bs[0].1[k].seq && bs[0].1[k].seq - bs[0].0.ref_seq
                    < 0xf by {
                    assert(bs[0].1[k] == ups[s + k]);
                    if k > 0 {
                        assert(fits_batch(ups[s + k], ups[s].ts, ups[s].seq));
                    }
                }
            } else {
                assert(bs[i] == tail[i - 1]);
            }
        }
    }
}

/// All the records of two batch lists laid end to end.
pub proof fn lemma_concat_batches_add(
    a: Seq<(BatchMetadata, Seq<Update>)>,
    b: Seq<(BatchMetadata, Seq<Update>)>,
)
    ensures
        spec_concat_batches(a + b) == spec_concat_batches(a) + spec_concat_batches(b),
    decreases a.len(),
{
    if a.len() == 0 {
        assert(a + b =~= b);
        assert(spec_concat_batches(a) + spec_concat_batches(b) =~= spec_concat_batches(b));
    } else {
        assert((a + b).drop_first() =~= a.drop_first() + b);
        assert((a + b)[0] == a[0]);
        lemma_concat_batches_add(a.drop_first(), b);
        assert(spec_concat_batches(a + b) =~= spec_concat_batches(a) + spec_concat_batches(b));
    }
}

/// Appending strictly later records to an encoded file and reading the
/// result back yields the original records followed by the appended
/// ones: the appended image's body parses to the two batch
/// decompositions laid end to end.
#[verifier::rlimit(60)]
pub proof fn lemma_append_roundtrip(sym: Seq<u8>, ups: Seq<Update>, later: Seq<Update>)
    requires
        sym.len() <= 20,
        0 < ups.len() <= u64::MAX,
        ups.len() + later.len() <= u64::MAX,
    ensures
        ({
            let f = spec_file_bytes(sym, ups);
            let out = f.subrange(0, 25) + spec_be8((ups.len() + later.len()) as u64) + spec_be8(
                if later.len() > 0 {
                    later.last().ts
                } else {
                    ups.last().ts
                },
            ) + f.subrange(41, f.len() as int) + spec_body_from(later, 0);
            &&& spec_parse_batches(spec_file_body(out)) == Some(
                spec_batches_of(ups, 0) + spec_batches_of(later, 0),
            )
            &&& spec_concat_batches(spec_batches_of(ups, 0) + spec_batches_of(later, 0)) == ups
                + later
        }),
{
    let f = spec_file_bytes(sym, ups);
    let h = spec_header_bytes(sym, ups.len() as u64, ups.last().ts);
    assert(h.len() == 80);
    assert(f == h + spec_body_from(ups, 0));
    let out = f.subrange(0, 25) + spec_be8((ups.len() + later.len()) as u64) + spec_be8(
        if later.len() > 0 {
            later.last().ts
        } else {
            ups.last().ts
        },
    ) + f.subrange(41, f.len() as int) + spec_body_from(later, 0);
    assert(out.len() == f.len() + spec_body_from(later, 0).len());
    lemma_parse_batches_of_body(later, 0, Seq::<u8>::empty());
    assert(spec_body_from(later, 0) + Seq::<u8>::empty() =~= spec_body_from(later, 0));
    assert(spec_batches_of(later, 0) + Seq::<(BatchMetadata, Seq<Update>)>::empty()
        =~= spec_batches_of(later, 0));
    assert(spec_parse_batches(spec_body_from(later, 0)) == Some(spec_batches_of(later, 0)));
    assert(spec_file_body(out) =~= spec_body_from(ups, 0) + spec_body_from(later, 0));
    lemma_parse_batches_of_body(ups, 0, spec_body_from(later, 0));
    lemma_concat_batches_add(spec_batches_of(ups, 0), spec_batches_of(later, 0));
    lemma_concat_batches_of(ups, 0);
    lemma_concat_batches_of(later, 0);
    assert(ups.skip(0) =~= ups);
    assert(later.skip(0) =~= later);
}

/// The file belongs in a ranged folder scan: it carries the symbol and
/// its timestamp span overlaps the window.
pub open spec fn file_selected(m: Metadata, symbol: Seq<char>, min_ts: u64, max_ts: u64) -> bool {
    m.symbol@ == symbol && min_ts <= m.max_ts && max_ts >= m.min_ts
}

fn insert_by_min_ts(r: &mut Vec<usize>, metas: &Vec<Metadata>, idx: usize)
    requires
        idx < metas@.len(),
        forall|k: int| 0 <= k < old(r)@.len() ==> (#[trigger] old(r)@[k]) < metas@.len(),
        forall|k1: int, k2: int|
            0 <= k1 < k2 < old(r)@.len() ==> metas@[old(r)@[k1] as int].min_ts
                <= metas@[old(r)@[k2] as int].min_ts,
        !old(r)@.contains(idx),
        forall|k1: int, k2: int| 0 <= k1 < k2 < old(r)@.len() ==> old(r)@[k1] != old(r)@[k2],
    ensures
        final(r)@.len() == old(r)@.len() + 1,
        forall|k: int| 0 <= k < final(r)@.len() ==> (#[trigger] final(r)@[k]) < metas@.len(),
        forall|k1: int, k2: int|
            0 <= k1 < k2 < final(r)@.len() ==> metas@[final(r)@[k1] as int].min_ts
                <= metas@[final(r)@[k2] as int].min_ts,
        final(r)@.contains(idx),
        forall|x: usize| old(r)@.contains(x) ==> final(r)@.contains(x),
        forall|x: usize| final(r)@.contains(x) ==> old(r)@.contains(x) || x == idx,
        forall|k1: int, k2: int| 0 <= k1 < k2 < final(r)@.len() ==> final(r)@[k1] != final(r)@[k2],
{
    let key = metas[idx].min_ts;
    let mut k: usize = 0;
    while k < r.len() && metas[r[k]].min_ts <= key
        invariant
            k <= r@.len(),
            r@ == old(r)@,
            key == metas@[idx as int].min_ts,
            idx < metas@.len(),
            forall|j: int| 0 <= j < r@.len() ==> (#[trigger] r@[j]) < metas@.len(),
            forall|j: int| 0 <= j < k ==> metas@[r@[j] as int].min_ts <= key,
        decreases r@.len() - k,
    {
        k = k + 1;
    }
    assert(k < r@.len() ==> metas@[r@[k as int] as int].min_ts > key);
    r.insert(k, idx);
    proof {
        let newv = r@;
        let oldv = old(r)@;
        assert(forall|j: int| 0 <= j < k ==> newv[j] == oldv[j]);
        assert(newv[k as int] == idx);
        assert(forall|j: int| k < j < newv.len() ==> newv[j] == oldv[j - 1]);
        assert forall|k1: int, k2: int| 0 <= k1 < k2 < newv.len() implies metas@[newv[k1] as int].min_ts
            <= metas@[newv[k2] as int].min_ts by {
            if k1 < k {
                assert(metas@[oldv[k1] as int].min_ts <= key);
            }
            if k2 > k {
                assert(newv[k2] == oldv[k2 - 1]);
                if k1 < k {
                    assert(metas@[oldv[k1] as int].min_ts <= metas@[oldv[k2 - 1] as int].min_ts
                        || metas@[oldv[k1] as int].min_ts <= metas@[oldv[k2 - 1] as int].min_ts);
                }
            }
        }
        assert(forall|x: usize| oldv.contains(x) ==> newv.contains(x)) by {
            assert(forall|j: int|
                0 <= j < oldv.len() ==> newv[if j < k {
                    j
                } else {
                    j + 1
                }] == oldv[j]);
        }
    }
}

/// The indices of the files a ranged folder scan must read, in the order
/// it must read them: the files carrying the symbol whose spans overlap
/// the window, ordered by least timestamp.
pub fn select_files_in_range(
    metas: &Vec<Metadata>,
    symbol: &String,
    min_ts: u64,
    max_ts: u64,
) -> (r: Vec<usize>)
    ensures
        forall|k: int| 0 <= k < r@.len() ==> (#[trigger] r@[k]) < metas@.len(),
        forall|k: int|
            0 <= k < r@.len() ==> file_selected(metas@[r@[k] as int], symbol@, min_ts, max_ts),
        forall|i: int|
            0 <= i < metas@.len() && file_selected(#[trigger] metas@[i], symbol@, min_ts, max_ts)
                ==> r@.contains(i as usize),
        forall|k1: int, k2: int| 0 <= k1 < k2 < r@.len() ==> r@[k1] != r@[k2],
        forall|k1: int, k2: int|
            0 <= k1 < k2 < r@.len() ==> metas@[r@[k1] as int].min_ts
                <= metas@[r@[k2] as int].min_ts,
{
    let mut r: Vec<usize> = Vec::new();
    let mut i: usize = 0;
    while i < metas.len()
        invariant
            i <= metas@.len(),
            forall|k: int| 0 <= k < r@.len() ==> (#[trigger] r@[k]) < metas@.len(),
            forall|k: int|
                0 <= k < r@.len() ==> file_selected(metas@[r@[k] as int], symbol@, min_ts, max_ts),
            forall|k: int| 0 <= k < r@.len() ==> r@[k] < i,
            forall|j: int|
                0 <= j < i && file_selected(#[trigger] metas@[j], symbol@, min_ts, max_ts)
                    ==> r@.contains(j as usize),
            forall|k1: int, k2: int| 0 <= k1 < k2 < r@.len() ==> r@[k1] != r@[k2],
            forall|k1: int, k2: int|
                0 <= k1 < k2 < r@.len() ==> metas@[r@[k1] as int].min_ts
                    <= metas@[r@[k2] as int].min_ts,
        decreases metas@.len() - i,
    {
        let keep = metas[i].symbol.eq(symbol) && crate::utils::within_range(min_ts, max_ts,
            metas[i].min_ts, metas[i].max_ts);
        let ghost oldr = r@;
        if keep {
            assert(!r@.contains(i)) by {
                if r@.contains(i) {
                    let q = choose|q: int| 0 <= q < r@.len() && r@[q] == i;
                    assert(r@[q] < i);
                }
            }
            insert_by_min_ts(&mut r, metas, i);
        }
        proof {
            if keep {
                assert(file_selected(metas@[i as int], symbol@, min_ts, max_ts));
            }
            assert forall|k: int| 0 <= k < r@.len() implies file_selected(
                metas@[r@[k] as int],
                symbol@,
                min_ts,
                max_ts,
            ) by {
                assert(r@.contains(r@[k]));
                if oldr.contains(r@[k]) {
                    let q = choose|q: int| 0 <= q < oldr.len() && oldr[q] == r@[k];
                    assert(file_selected(metas@[oldr[q] as int], symbol@, min_ts, max_ts));
                } else {
                    assert(r@[k] == i);
                }
            }
            assert forall|j: int|
                0 <= j < i + 1 && file_selected(#[trigger] metas@[j], symbol@, min_ts, max_ts)
                    implies r@.contains(j as usize) by {
                if j < i {
                    assert(oldr.contains(j as usize));
                } else {
                    assert(keep);
                }
            }
            assert forall|k: int| 0 <= k < r@.len() implies r@[k] < i + 1 by {
                assert(r@.contains(r@[k]));
                if oldr.contains(r@[k]) {
                    let q = choose|q: int| 0 <= q < oldr.len() && oldr[q] == r@[k];
                    assert(oldr[q] < i);
                }
            }
        }
        i = i + 1;
    }
    r
}

/// Every batch in the list holds at least one record, as the writer
/// guarantees.
pub open spec fn batches_nonempty(bs: Seq<(BatchMetadata, Seq<Update>)>) -> bool {
    forall|i: int| 0 <= i < bs.len() ==> (#[trigger] bs[i]).1.len() > 0
}

proof fn lemma_coherent_drop_first(bs: Seq<(BatchMetadata, Seq<Update>)>)
    requires
        batches_coherent(bs),
        bs.len() > 0,
    ensures
        batches_coherent(bs.drop_first()),
{
    let tail = bs.drop_first();
    assert forall|i: int, k: int|
        0 <= i < tail.len() && 0 <= k < tail[i].1.len() implies tail[i].0.ref_ts <= (
    #[trigger] tail[i].1[k]).ts && (i + 1 < tail.len() ==> tail[i].1[k].ts <= tail[i
        + 1].0.ref_ts) by {
        assert(tail[i] == bs[i + 1]);
        assert(tail[i].1[k] == bs[i + 1].1[k]);
        if i + 1 < tail.len() {
            assert(tail[i + 1] == bs[i + 2]);
        }
    }
}

proof fn lemma_refs_monotone(bs: Seq<(BatchMetadata, Seq<Update>)>, i: int, j: int)
    requires
        batches_coherent(bs),
        batches_nonempty(bs),
        0 <= i <= j < bs.len(),
    ensures
        bs[i].0.ref_ts <= bs[j].0.ref_ts,
    decreases j - i,
{
    if i < j {
        assert(bs[i].0.ref_ts <= bs[i].1[0].ts <= bs[i + 1].0.ref_ts);
        lemma_refs_monotone(bs, i + 1, j);
    }
}

proof fn lemma_filter_keeps_all(s: Seq<Update>, pred: spec_fn(Update) -> bool)
    requires
        forall|i: int| 0 <= i < s.len() ==> pred(#[trigger] s[i]),
    ensures
        s.filter(pred) == s,
    decreases s.len(),
{
    reveal(Seq::filter);
    if s.len() > 0 {
        assert(forall|i: int| 0 <= i < s.drop_last().len() ==> pred(#[trigger] s.drop_last()[i]));
        lemma_filter_keeps_all(s.drop_last(), pred);
        assert(pred(s.last()));
        assert(s.filter(pred) =~= s);
    }
}

proof fn lemma_filter_drops_all(s: Seq<Update>, pred: spec_fn(Update) -> bool)
    requires
        forall|i: int| 0 <= i < s.len() ==> !pred(#[trigger] s[i]),
    ensures
        s.filter(pred) == Seq::<Update>::empty(),
    decreases s.len(),
{
    reveal(Seq::filter);
    if s.len() > 0 {
        assert(forall|i: int| 0 <= i < s.drop_last().len() ==> !pred(#[trigger] s.drop_last()[i]));
        lemma_filter_drops_all(s.drop_last(), pred);
        assert(!pred(s.last()));
    }
}

proof fn lemma_concat_all_late(bs: Seq<(BatchMetadata, Seq<Update>)>, t: u64)
    requires
        batches_coherent(bs),
        batches_nonempty(bs),
        forall|i: int| 0 <= i < bs.len() ==> (#[trigger] bs[i]).0.ref_ts > t,
    ensures
        forall|j: int| 0 <= j < spec_concat_batches(bs).len() ==> (#[trigger] spec_concat_batches(
            bs,
        )[j]).ts > t,
    decreases bs.len(),
{
    if bs.len() > 0 {
        lemma_coherent_drop_first(bs);
        let tail = bs.drop_first();
        assert(forall|i: int| 0 <= i < tail.len() ==> (#[trigger] tail[i]).0.ref_ts > t);
        lemma_concat_all_late(tail, t);
        let c = spec_concat_batches(bs);
        assert forall|j: int| 0 <= j < c.len() implies (#[trigger] c[j]).ts > t by {
            if j < bs[0].1.len() {
                assert(c[j] == bs[0].1[j]);
                assert(bs[0].0.ref_ts <= bs[0].1[j].ts);
            } else {
                assert(c[j] == spec_concat_batches(tail)[j - bs[0].1.len()]);
            }
        }
    }
}

/// On coherent, non-empty batches the scan is exact: as long as neither
/// window bound coincides with a batch reference (the scan decides at
/// references, so a coinciding bound can drop boundary records), the
/// scan returns precisely the records whose timestamps lie in the
/// window, in file order.
pub proof fn lemma_range_exact(bs: Seq<(BatchMetadata, Seq<Update>)>, min_ts: u64, max_ts: u64)
    requires
        min_ts <= max_ts,
        batches_coherent(bs),
        batches_nonempty(bs),
        forall|i: int| 1 <= i < bs.len() ==> (#[trigger] bs[i]).0.ref_ts != min_ts,
        forall|i: int| 0 <= i < bs.len() ==> (#[trigger] bs[i]).0.ref_ts != max_ts,
    ensures
        spec_range_batches(bs, min_ts, max_ts) == spec_concat_batches(bs).filter(
            |u: Update| in_window(u, min_ts, max_ts),
        ),
    decreases bs.len(),
{
    broadcast use vstd::seq_lib::group_filter_ensures;

    let pred = |u: Update| in_window(u, min_ts, max_ts);
    let c = spec_concat_batches(bs);
    if bs.len() == 0 {
        assert(c =~= Seq::<Update>::empty());
        assert(spec_range_batches(bs, min_ts, max_ts) =~= c.filter(pred)) by {
            lemma_filter_drops_all(c, pred);
        }
    } else if bs.len() == 1 {
        assert(spec_concat_batches(bs.drop_first()) == Seq::<Update>::empty());
        assert(c =~= bs[0].1);
        if max_ts <= bs[0].0.ref_ts {
            assert(bs[0].0.ref_ts > max_ts);
            assert(forall|k: int| 0 <= k < bs[0].1.len() ==> !pred(#[trigger] bs[0].1[k]));
            lemma_filter_drops_all(bs[0].1, pred);
        }
        assert(spec_range_batches(bs, min_ts, max_ts) =~= c.filter(pred));
    } else {
        let ct = bs[0].0.ref_ts;
        let nt = bs[1].0.ref_ts;
        let tail = bs.drop_first();
        lemma_coherent_drop_first(bs);
        assert(batches_nonempty(tail)) by {
            assert(forall|i: int| 0 <= i < tail.len() ==> (#[trigger] tail[i]) == bs[i + 1]);
        }
        assert(c == bs[0].1 + spec_concat_batches(tail));
        Seq::filter_distributes_over_add(bs[0].1, spec_concat_batches(tail), pred);
        if min_ts <= ct && max_ts <= ct {
            assert(ct > max_ts);
            assert(forall|i: int| 0 <= i < bs.len() ==> (#[trigger] bs[i]).0.ref_ts > max_ts) by {
                assert forall|i: int| 0 <= i < bs.len() implies (#[trigger] bs[i]).0.ref_ts
                    > max_ts by {
                    lemma_refs_monotone(bs, 0, i);
                }
            }
            lemma_concat_all_late(bs, max_ts);
            assert(forall|j: int| 0 <= j < c.len() ==> !pred(#[trigger] c[j]));
            lemma_filter_drops_all(c, pred);
        } else {
            // the stopping batch lies further on: its reference is
            // strictly above the window, so it is not batch 0
            assert(forall|i: int| 1 <= i < tail.len() ==> (#[trigger] tail[i]).0.ref_ts != min_ts)
                by {
                assert(forall|i: int| 0 <= i < tail.len() ==> (#[trigger] tail[i]) == bs[i + 1]);
            }
            assert(forall|i: int| 0 <= i < tail.len() ==> (#[trigger] tail[i]).0.ref_ts != max_ts)
                by {
                assert(forall|i: int| 0 <= i < tail.len() ==> (#[trigger] tail[i]) == bs[i + 1]);
            }
            lemma_range_exact(tail, min_ts, max_ts);
            if (min_ts <= ct && max_ts <= nt) || (min_ts < nt && max_ts >= nt) || (min_ts > ct
                && max_ts < nt) {
                let kept = if min_ts <= ct && max_ts >= nt {
                    bs[0].1
                } else {
                    bs[0].1.filter(pred)
                };
                if min_ts <= ct && max_ts >= nt {
                    assert(forall|k: int| 0 <= k < bs[0].1.len() ==> pred(#[trigger] bs[0].1[k]));
                    lemma_filter_keeps_all(bs[0].1, pred);
                }
                assert(kept == bs[0].1.filter(pred));
            } else {
                assert(min_ts >= nt);
                assert(nt != min_ts);
                assert(forall|k: int| 0 <= k < bs[0].1.len() ==> !pred(#[trigger] bs[0].1[k]));
                lemma_filter_drops_all(bs[0].1, pred);
                assert(Seq::<Update>::empty() + spec_concat_batches(tail).filter(pred)
                    =~= spec_concat_batches(tail).filter(pred));
            }
        }
    }
}

/// A body that parses in full is its own parseable prefix.
pub proof fn lemma_parse_prefix_of_parsed(b: Seq<u8>)
    requires
        spec_parse_batches(b) is Some,
    ensures
        spec_parse_prefix(b) == spec_parse_batches(b)->0,
    decreases b.len(),
{
    if b.len() == 0 || b[0] != 1 {
        assert(spec_parse_prefix(b) =~= spec_parse_batches(b)->0);
    } else {
        let meta = BatchMetadata {
            ref_ts: spec_u64_of(b.subrange(1, 9)),
            ref_seq: spec_u32_of(b.subrange(9, 13)),
            count: spec_u16_of(b.subrange(13, 15)),
        };
        let cnt = meta.count as int;
        lemma_parse_prefix_of_parsed(b.skip(15 + 12 * cnt));
    }
}

/// A body that parses in full also parses under any batch bound, to the
/// first `n` of its batches.
pub proof fn lemma_parse_n_of_parsed(b: Seq<u8>, n: int)
    requires
        spec_parse_batches(b) is Some,
    ensures
        spec_parse_n_batches(b, n) == Some(
            spec_parse_batches(b)->0.take(
                if n <= 0 {
                    0int
                } else if n <= spec_parse_batches(b)->0.len() {
                    n
                } else {
                    spec_parse_batches(b)->0.len() as int
                },
            ),
        ),
    decreases b.len(),
{
    let bs = spec_parse_batches(b)->0;
    let k = if n <= 0 {
        0int
    } else if n <= bs.len() {
        n
    } else {
        bs.len() as int
    };
    if n <= 0 || b.len() == 0 || b[0] != 1 {
        assert(bs.take(k) =~= Seq::<(BatchMetadata, Seq<Update>)>::empty());
    } else {
        let meta = BatchMetadata {
            ref_ts: spec_u64_of(b.subrange(1, 9)),
            ref_seq: spec_u32_of(b.subrange(9, 13)),
            count: spec_u16_of(b.subrange(13, 15)),
        };
        let cnt = meta.count as int;
        let rest = spec_parse_batches(b.skip(15 + 12 * cnt))->0;
        lemma_parse_n_of_parsed(b.skip(15 + 12 * cnt), n - 1);
        let k2 = if n - 1 <= 0 {
            0int
        } else if n - 1 <= rest.len() {
            n - 1
        } else {
            rest.len() as int
        };
        assert(bs == seq![(meta, spec_parse_records(b, 15, cnt, meta.ref_ts, meta.ref_seq)->0)]
            + rest);
        assert(bs.take(k) =~= seq![bs[0]] + rest.take(k2));
    }
}

} // verus!
