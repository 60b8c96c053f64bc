//! The update record: one order-book or trade event, and its two byte
//! encodings.
//!
//! A record carries a millisecond timestamp, a per-symbol sequence number,
//! two flags (trade vs. book, bid vs. ask) and two 32-bit IEEE-754 values,
//! price and size. The codec never does arithmetic on price or size, so the
//! library holds them as their bit patterns; converting to and from `f32`
//! is the caller's business.
//!
//! The intra-batch delta form is 12 bytes: `dts:u16 dseq:u8 flags:u8
//! price:u32 size:u32`, all big-endian, with `dts` and `dseq` relative to
//! the enclosing batch's reference timestamp and sequence number. The raw
//! standalone form is 21 bytes: `ts:u64 seq:u32 flags:u8 price:u32
//! size:u32`.

use vstd::prelude::*;

use crate::wire::{
    push_be2, push_be4, push_be8, read_be2, read_be4, read_be8, spec_be2, spec_be4, spec_be8,
    spec_u16_of, spec_u32_of, spec_u64_of,
};

verus! {

/// Flag bit marking a bid-side record.
pub const FLAG_IS_BID: u8 = 0b0000_0001;

/// Flag bit marking a trade record.
pub const FLAG_IS_TRADE: u8 = 0b0000_0010;

/// One order-book or trade event.
///
/// `price_bits` and `size_bits` are the big-endian bit patterns of the
/// record's 32-bit float price and size.
#[derive(Clone, Copy, Debug, PartialEq, Eq, Structural, Hash)]
pub struct Update {
    pub ts: u64,
    pub seq: u32,
    pub is_trade: bool,
    pub is_bid: bool,
    pub price_bits: u32,
    pub size_bits: u32,
}

/// `a` comes no later than `b` in the file's total order: by timestamp,
/// ties broken by sequence number.
pub open spec fn update_le(a: Update, b: Update) -> bool {
    a.ts < b.ts || (a.ts == b.ts && a.seq <= b.seq)
}

/// The sequence is sorted by `(ts, seq)`.
pub open spec fn sorted_updates(ups: Seq<Update>) -> bool {
    forall|i: int, j: int| 0 <= i <= j < ups.len() ==> update_le(ups[i], ups[j])
}

/// The record's flag byte: bit 0 is `is_bid`, bit 1 is `is_trade`.
pub open spec fn spec_flags_byte(u: Update) -> u8 {
    ((if u.is_bid {
        FLAG_IS_BID
    } else {
        0
    }) | (if u.is_trade {
        FLAG_IS_TRADE
    } else {
        0
    })) as u8
}

/// A set of flag bits, as stored in a record's flag byte.
#[derive(Clone, Copy, Debug, PartialEq, Eq, Structural)]
pub struct Flags {
    pub bits: u8,
}

impl Flags {
    /// Accepts a flag byte; a byte with any bit outside the two known
    /// flags set is rejected.
    pub fn from_bits(bits: u8) -> (r: Option<Flags>)
        ensures
            r is Some <==> bits & !(FLAG_IS_BID | FLAG_IS_TRADE) == 0,
            r is Some ==> r->0.bits == bits,
    {
        if bits & !(FLAG_IS_BID | FLAG_IS_TRADE) == 0 {
            Some(Flags { bits })
        } else {
            None
        }
    }

    /// True exactly when a single known flag bit is set; callers mask a
    /// specific flag first.
    pub fn to_bool(&self) -> (r: bool)
        ensures
            r == (self.bits == FLAG_IS_BID || self.bits == FLAG_IS_TRADE),
    {
        self.bits == FLAG_IS_BID || self.bits == FLAG_IS_TRADE
    }
}

/// The 12-byte intra-batch image of `u` relative to `(ref_ts, ref_seq)`.
pub open spec fn spec_delta_bytes(u: Update, ref_ts: u64, ref_seq: u32) -> Seq<u8>
    recommends
        ref_ts <= u.ts,
        u.ts - ref_ts <= 0xffff,
        ref_seq <= u.seq,
        u.seq - ref_seq <= 0xff,
{
    spec_be2((u.ts - ref_ts) as u16) + seq![(u.seq - ref_seq) as u8, spec_flags_byte(u)]
        + spec_be4(u.price_bits) + spec_be4(u.size_bits)
}

/// The record denoted by 12 intra-batch bytes, or `None` when the flag
/// byte holds unknown bits or the reconstructed timestamp or sequence
/// number would not fit its field.
pub open spec fn spec_parse_delta(b: Seq<u8>, ref_ts: u64, ref_seq: u32) -> Option<Update>
    recommends
        b.len() == 12,
{
    let dts = spec_u16_of(b.subrange(0, 2));
    let dseq = b[2];
    let flags = b[3];
    if flags & !(FLAG_IS_BID | FLAG_IS_TRADE) != 0 {
        None
    } else if ref_ts + dts > u64::MAX || ref_seq + dseq > u32::MAX {
        None
    } else {
        Some(
            Update {
                ts: (ref_ts + dts) as u64,
                seq: (ref_seq + dseq) as u32,
                is_trade: flags & FLAG_IS_TRADE == FLAG_IS_TRADE,
                is_bid: flags & FLAG_IS_BID == FLAG_IS_BID,
                price_bits: spec_u32_of(b.subrange(4, 8)),
                size_bits: spec_u32_of(b.subrange(8, 12)),
            },
        )
    }
}

/// The 21-byte standalone image of `u`.
pub open spec fn spec_raw_bytes(u: Update) -> Seq<u8> {
    spec_be8(u.ts) + spec_be4(u.seq) + seq![spec_flags_byte(u)] + spec_be4(u.price_bits)
        + spec_be4(u.size_bits)
}

/// The record denoted by 21 standalone bytes, or `None` when the flag
/// byte holds unknown bits.
pub open spec fn spec_parse_raw(b: Seq<u8>) -> Option<Update>
    recommends
        b.len() == 21,
{
    let flags = b[12];
    if flags & !(FLAG_IS_BID | FLAG_IS_TRADE) != 0 {
        None
    } else {
        Some(
            Update {
                ts: spec_u64_of(b.subrange(0, 8)),
                seq: spec_u32_of(b.subrange(8, 12)),
                is_trade: flags & FLAG_IS_TRADE == FLAG_IS_TRADE,
                is_bid: flags & FLAG_IS_BID == FLAG_IS_BID,
                price_bits: spec_u32_of(b.subrange(13, 17)),
                size_bits: spec_u32_of(b.subrange(17, 21)),
            },
        )
    }
}

impl Update {
    /// The record's flag byte.
    pub fn flags_byte(&self) -> (r: u8)
        ensures
            r == spec_flags_byte(*self),
    {
        (if self.is_bid {
            FLAG_IS_BID
        } else {
            0
        }) | (if self.is_trade {
            FLAG_IS_TRADE
        } else {
            0
        })
    }

    /// Appends the 12-byte intra-batch image of the record. The caller
    /// supplies the enclosing batch's reference timestamp and sequence
    /// number; both deltas must fit their fields.
    pub fn serialize_to_buffer(&self, buf: &mut Vec<u8>, ref_ts: u64, ref_seq: u32)
        requires
            ref_ts <= self.ts,
            self.ts - ref_ts <= 0xffff,
            ref_seq <= self.seq,
            self.seq - ref_seq <= 0xff,
        ensures
            final(buf)@ == old(buf)@ + spec_delta_bytes(*self, ref_ts, ref_seq),
    {
        push_be2(buf, (self.ts - ref_ts) as u16);
        buf.push((self.seq - ref_seq) as u8);
        buf.push(self.flags_byte());
        push_be4(buf, self.price_bits);
        push_be4(buf, self.size_bits);
        assert(buf@ =~= old(buf)@ + spec_delta_bytes(*self, ref_ts, ref_seq));
    }

    /// Appends the 21-byte standalone image of the record.
    pub fn serialize_raw_to_buffer(&self, buf: &mut Vec<u8>)
        ensures
            final(buf)@ == old(buf)@ + spec_raw_bytes(*self),
    {
        push_be8(buf, self.ts);
        push_be4(buf, self.seq);
        buf.push(self.flags_byte());
        push_be4(buf, self.price_bits);
        push_be4(buf, self.size_bits);
        assert(buf@ =~= old(buf)@ + spec_raw_bytes(*self));
    }

    /// Reads one 12-byte intra-batch record at `pos`.
    pub fn read_delta(buf: &[u8], pos: usize, ref_ts: u64, ref_seq: u32) -> (r: Option<Update>)
        requires
            pos + 12 <= buf@.len(),
        ensures
            r == spec_parse_delta(buf@.subrange(pos as int, pos + 12), ref_ts, ref_seq),
    {
        let n = buf.len();
        let ghost b = buf@.subrange(pos as int, pos + 12);
        let dts = read_be2(buf, pos);
        let dseq = buf[pos + 2];
        let flags = buf[pos + 3];
        assert(b.subrange(0, 2) =~= buf@.subrange(pos as int, pos + 2));
        assert(b[2] == dseq && b[3] == flags);
        if flags & !(FLAG_IS_BID | FLAG_IS_TRADE) != 0 {
            return None;
        }
        if dts as u64 > u64::MAX - ref_ts {
            return None;
        }
        if dseq as u32 > u32::MAX - ref_seq {
            return None;
        }
        let price_bits = read_be4(buf, pos + 4);
        let size_bits = read_be4(buf, pos + 8);
        assert(b.subrange(4, 8) =~= buf@.subrange(pos + 4, pos + 8));
        assert(b.subrange(8, 12) =~= buf@.subrange(pos + 8, pos + 12));
        Some(
            Update {
                ts: ref_ts + dts as u64,
                seq: ref_seq + dseq as u32,
                is_trade: flags & FLAG_IS_TRADE == FLAG_IS_TRADE,
                is_bid: flags & FLAG_IS_BID == FLAG_IS_BID,
                price_bits,
                size_bits,
            },
        )
    }

    /// Reads one 21-byte standalone record from the start of `buf`, as
    /// shipped in the raw-insert envelope.
    pub fn from_raw(buf: &[u8]) -> (r: Option<Update>)
        ensures
            buf@.len() >= 21 ==> r == spec_parse_raw(buf@.subrange(0, 21)),
            buf@.len() < 21 ==> r is None,
    {
        let r = Update::read_raw_at(buf, 0);
        proof {
            if buf@.len() >= 21 {
                assert(buf@.subrange(0, 21) =~= buf@.subrange(0int, 21int));
            }
        }
        r
    }

    /// Reads one 21-byte standalone record at `pos`.
    pub fn read_raw_at(buf: &[u8], pos: usize) -> (r: Option<Update>)
        requires
            pos <= buf@.len(),
        ensures
            buf@.len() - pos >= 21 ==> r == spec_parse_raw(buf@.subrange(pos as int, pos + 21)),
            buf@.len() - pos < 21 ==> r is None,
    {
        let n = buf.len();
        if n - pos < 21 {
            return None;
        }
        let ghost b = buf@.subrange(pos as int, pos + 21);
        let flags = buf[pos + 12];
        assert(b[12] == flags);
        if flags & !(FLAG_IS_BID | FLAG_IS_TRADE) != 0 {
            return None;
        }
        let ts = read_be8(buf, pos);
        let seq = read_be4(buf, pos + 8);
        let price_bits = read_be4(buf, pos + 13);
        let size_bits = read_be4(buf, pos + 17);
        assert(b.subrange(0, 8) =~= buf@.subrange(pos as int, pos + 8));
        assert(b.subrange(8, 12) =~= buf@.subrange(pos + 8, pos + 12));
        assert(b.subrange(13, 17) =~= buf@.subrange(pos + 13, pos + 17));
        assert(b.subrange(17, 21) =~= buf@.subrange(pos + 17, pos + 21));
        Some(
            Update {
                ts,
                seq,
                is_trade: flags & FLAG_IS_TRADE == FLAG_IS_TRADE,
                is_bid: flags & FLAG_IS_BID == FLAG_IS_BID,
                price_bits,
                size_bits,
            },
        )
    }
}

/// The flag byte of a record holds no unknown bits, and each flag bit
/// reflects the corresponding field.
pub proof fn lemma_flags_byte(u: Update)
    ensures
        spec_flags_byte(u) & !(FLAG_IS_BID | FLAG_IS_TRADE) == 0,
        (spec_flags_byte(u) & FLAG_IS_TRADE == FLAG_IS_TRADE) == u.is_trade,
        (spec_flags_byte(u) & FLAG_IS_BID == FLAG_IS_BID) == u.is_bid,
{
    let f0: u8 = if u.is_bid {
        FLAG_IS_BID
    } else {
        0
    };
    let f1: u8 = if u.is_trade {
        FLAG_IS_TRADE
    } else {
        0
    };
    let f = spec_flags_byte(u);
    assert(f & !(1u8 | 2u8) == 0 && ((f & 2u8 == 2u8) <==> f1 == 2) && ((f & 1u8 == 1u8) <==> f0
        == 1)) by (bit_vector)
        requires
            f == (f0 | f1) && (f0 == 0 || f0 == 1) && (f1 == 0 || f1 == 2),
    ;
}

/// Writing a record in the intra-batch form and reading it back yields the
/// record, whenever the deltas fit their fields.
pub proof fn lemma_delta_roundtrip(u: Update, ref_ts: u64, ref_seq: u32)
    requires
        ref_ts <= u.ts,
        u.ts - ref_ts <= 0xffff,
        ref_seq <= u.seq,
        u.seq - ref_seq <= 0xff,
    ensures
        spec_parse_delta(spec_delta_bytes(u, ref_ts, ref_seq), ref_ts, ref_seq) == Some(u),
{
    let b = spec_delta_bytes(u, ref_ts, ref_seq);
    let dts = (u.ts - ref_ts) as u16;
    let dseq = (u.seq - ref_seq) as u8;
    assert(b.subrange(0, 2) =~= spec_be2(dts));
    crate::wire::lemma_be2_roundtrip(dts);
    assert(b[2] == dseq);
    assert(b[3] == spec_flags_byte(u));
    lemma_flags_byte(u);
    assert(b.subrange(4, 8) =~= spec_be4(u.price_bits));
    assert(b.subrange(8, 12) =~= spec_be4(u.size_bits));
    crate::wire::lemma_be4_roundtrip(u.price_bits);
    crate::wire::lemma_be4_roundtrip(u.size_bits);
}

/// Writing a record in the raw standalone form and reading it back yields
/// the record.
pub proof fn lemma_raw_roundtrip(u: Update)
    ensures
        spec_parse_raw(spec_raw_bytes(u)) == Some(u),
{
    let b = spec_raw_bytes(u);
    assert(b.subrange(0, 8) =~= spec_be8(u.ts));
    crate::wire::lemma_be8_roundtrip(u.ts);
    assert(b.subrange(8, 12) =~= spec_be4(u.seq));
    crate::wire::lemma_be4_roundtrip(u.seq);
    assert(b[12] == spec_flags_byte(u));
    lemma_flags_byte(u);
    assert(b.subrange(13, 17) =~= spec_be4(u.price_bits));
    assert(b.subrange(17, 21) =~= spec_be4(u.size_bits));
    crate::wire::lemma_be4_roundtrip(u.price_bits);
    crate::wire::lemma_be4_roundtrip(u.size_bits);
}

} // verus!
