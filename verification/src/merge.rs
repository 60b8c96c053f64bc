//! Merging two decoded files into one continuous stream.
//!
//! The caller decodes both files and orders them so that `first` is the
//! file whose records lead. Records of `first` strictly before its
//! greatest timestamp are kept as they are; records of either file at
//! exactly that timestamp overlap, so they are deduplicated and ordered;
//! records of `second` strictly after it follow. The two files must
//! touch: a gap between them is refused.

use vstd::prelude::*;

use crate::update::{sorted_updates, update_le, Update};

verus! {

/// The record lies in the leading file's own window: at or after the
/// file's least timestamp, strictly before its greatest.
pub open spec fn in_lead_window(start_min_ts: u64, start_max_ts: u64) -> spec_fn(Update) -> bool {
    |u: Update| start_min_ts <= u.ts && u.ts < start_max_ts
}

/// The record sits exactly on the boundary timestamp.
pub open spec fn at_boundary(start_max_ts: u64) -> spec_fn(Update) -> bool {
    |u: Update| u.ts == start_max_ts
}

/// The record lies strictly after the boundary timestamp.
pub open spec fn after_boundary(start_max_ts: u64) -> spec_fn(Update) -> bool {
    |u: Update| u.ts > start_max_ts
}

fn push_filtered(out: &mut Vec<Update>, src: &Vec<Update>, min_ts: u64, below: u64, pred_kind: u8)
    requires
        pred_kind < 3,
    ensures
        pred_kind == 0 ==> final(out)@ == old(out)@ + src@.filter(in_lead_window(min_ts, below)),
        pred_kind == 1 ==> final(out)@ == old(out)@ + src@.filter(at_boundary(below)),
        pred_kind == 2 ==> final(out)@ == old(out)@ + src@.filter(after_boundary(below)),
{
    let ghost pred = if pred_kind == 0 {
        in_lead_window(min_ts, below)
    } else if pred_kind == 1 {
        at_boundary(below)
    } else {
        after_boundary(below)
    };
    let mut i: usize = 0;
    while i < src.len()
        invariant
            i <= src@.len(),
            pred_kind < 3,
            pred == (if pred_kind == 0 {
                in_lead_window(min_ts, below)
            } else if pred_kind == 1 {
                at_boundary(below)
            } else {
                after_boundary(below)
            }),
            out@ == old(out)@ + src@.subrange(0, i as int).filter(pred),
        decreases src@.len() - i,
    {
        let ghost pre = src@.subrange(0, i as int);
        let u = src[i];
        let keep = if pred_kind == 0 {
            min_ts <= u.ts && u.ts < below
        } else if pred_kind == 1 {
            u.ts == below
        } else {
            u.ts > below
        };
        if keep {
            out.push(u);
        }
        proof {
            reveal(Seq::filter);
            let nxt = src@.subrange(0, i + 1);
            assert(nxt.drop_last() =~= pre);
            assert(nxt.last() == src@[i as int]);
            if pred(src@[i as int]) {
                assert(out@ =~= old(out)@ + nxt.filter(pred));
            }
        }
        i = i + 1;
    }
    assert(src@.subrange(0, src@.len() as int) =~= src@);
}

fn vec_contains_update(v: &Vec<Update>, u: Update) -> (r: bool)
    ensures
        r == v@.contains(u),
{
    let mut i: usize = 0;
    while i < v.len()
        invariant
            i <= v@.len(),
            forall|k: int| 0 <= k < i ==> v@[k] != u,
        decreases v@.len() - i,
    {
        if v[i] == u {
            return true;
        }
        i = i + 1;
    }
    false
}

fn insert_sorted(out: &mut Vec<Update>, u: Update)
    requires
        sorted_updates(old(out)@),
    ensures
        sorted_updates(final(out)@),
        final(out)@.len() == old(out)@.len() + 1,
        final(out)@.contains(u),
        forall|x: Update| old(out)@.contains(x) ==> final(out)@.contains(x),
        forall|x: Update| final(out)@.contains(x) ==> old(out)@.contains(x) || x == u,
        (forall|i: int, j: int| 0 <= i < j < old(out)@.len() ==> old(out)@[i] != old(out)@[j])
            && !old(out)@.contains(u) ==> (forall|i: int, j: int|
            0 <= i < j < final(out)@.len() ==> final(out)@[i] != final(out)@[j]),
{
    let mut k: usize = 0;
    while k < out.len() && (out[k].ts < u.ts || (out[k].ts == u.ts && out[k].seq <= u.seq))
        invariant
            k <= out@.len(),
            out@ == old(out)@,
            forall|j: int| 0 <= j < k ==> update_le(out@[j], u),
        decreases out@.len() - k,
    {
        k = k + 1;
    }
    assert(k < out@.len() ==> update_le(u, out@[k as int]));
    out.insert(k, u);
    proof {
        let newv = out@;
        let oldv = old(out)@;
        assert(forall|j: int| 0 <= j < k ==> newv[j] == oldv[j]);
        assert(newv[k as int] == u);
        assert(forall|j: int| k < j < newv.len() ==> newv[j] == oldv[j - 1]);
        assert forall|i: int, j: int| 0 <= i <= j < newv.len() implies update_le(
            newv[i],
            newv[j],
        ) by {
            if i < k {
                assert(newv[i] == oldv[i]);
                assert(update_le(oldv[i], u));
            } else if i > k {
                assert(newv[i] == oldv[i - 1]);
            }
            if j < k {
                assert(newv[j] == oldv[j]);
            } else if j > k {
                assert(newv[j] == oldv[j - 1]);
            }
            assert(k < oldv.len() ==> update_le(u, oldv[k as int]));
            if i < k && j >= k && j > i {
                assert(update_le(oldv[i], u));
            }
            if k < oldv.len() && j > k {
                assert(update_le(oldv[k as int], oldv[j - 1]));
            }
            if i < j && i > k {
                assert(update_le(oldv[i - 1], oldv[j - 1]));
            }
            if i < j && i < k && j < k {
                assert(update_le(oldv[i], oldv[j]));
            }
        }
        assert(sorted_updates(newv));
        assert(forall|x: Update| oldv.contains(x) ==> newv.contains(x)) by {
            assert(forall|j: int|
                0 <= j < oldv.len() ==> newv[if j < k {
                    j
                } else {
                    j + 1
                }] == oldv[j]);
        }
    }
}

/// Joins two decoded, sorted files around the leading file's greatest
/// timestamp `start_max_ts`: the leading records before it, then the
/// records of both files at it with duplicates dropped and the rest in
/// timestamp order, then the trailing records after it. Files that do
/// not touch (`start_max_ts` before `end_min_ts`) are refused.
pub fn combine_updates(
    first: &Vec<Update>,
    second: &Vec<Update>,
    start_min_ts: u64,
    start_max_ts: u64,
    end_min_ts: u64,
) -> (r: Result<Vec<Update>, ()>)
    ensures
        r is Err <==> start_max_ts < end_min_ts,
        r matches Ok(v) ==> ({
            let lead = first@.filter(in_lead_window(start_min_ts, start_max_ts));
            let tail = second@.filter(after_boundary(start_max_ts));
            let overlap = first@.filter(at_boundary(start_max_ts)) + second@.filter(
                at_boundary(start_max_ts),
            );
            &&& v@.len() >= lead.len() + tail.len()
            &&& v@.subrange(0, lead.len() as int) == lead
            &&& v@.subrange(v@.len() - tail.len(), v@.len() as int) == tail
            &&& {
                let mid = v@.subrange(lead.len() as int, v@.len() - tail.len());
                &&& sorted_updates(mid)
                &&& (forall|i: int| 0 <= i < mid.len() ==> overlap.contains(#[trigger] mid[i]))
                &&& (forall|i: int| 0 <= i < overlap.len() ==> mid.contains(#[trigger] overlap[i]))
                &&& (forall|i: int, j: int| 0 <= i < j < mid.len() ==> mid[i] != mid[j])
            }
        }),
{
    if start_max_ts < end_min_ts {
        return Err(());
    }
    let ghost overlap = first@.filter(at_boundary(start_max_ts)) + second@.filter(
        at_boundary(start_max_ts),
    );

    let mut ov: Vec<Update> = Vec::new();
    push_filtered(&mut ov, first, 0, start_max_ts, 1);
    push_filtered(&mut ov, second, 0, start_max_ts, 1);
    assert(ov@ == overlap);

    let mut mid: Vec<Update> = Vec::new();
    let mut i: usize = 0;
    while i < ov.len()
        invariant
            i <= ov@.len(),
            ov@ == overlap,
            sorted_updates(mid@),
            forall|p: int, q: int| 0 <= p < q < mid@.len() ==> mid@[p] != mid@[q],
            forall|p: int| 0 <= p < mid@.len() ==> overlap.contains(#[trigger] mid@[p]),
            forall|p: int| 0 <= p < i ==> mid@.contains(#[trigger] ov@[p]),
        decreases ov@.len() - i,
    {
        let u = ov[i];
        let ghost oldm = mid@;
        let had = vec_contains_update(&mid, u);
        if !had {
            insert_sorted(&mut mid, u);
        }
        proof {
            assert(overlap.contains(ov@[i as int])) by {
                assert(overlap[i as int] == ov@[i as int]);
            }
            assert forall|p: int| 0 <= p < mid@.len() implies overlap.contains(
                #[trigger] mid@[p],
            ) by {
                assert(mid@.contains(mid@[p]));
                if oldm.contains(mid@[p]) {
                    let q = choose|q: int| 0 <= q < oldm.len() && oldm[q] == mid@[p];
                    assert(overlap.contains(oldm[q]));
                } else {
                    assert(mid@[p] == u);
                }
            }
            assert forall|p: int| 0 <= p < i + 1 implies mid@.contains(#[trigger] ov@[p]) by {
                if p < i {
                    assert(oldm.contains(ov@[p]));
                } else {
                    if had {
                        assert(mid@.contains(u));
                    }
                }
            }
        }
        i = i + 1;
    }

    let mut out: Vec<Update> = Vec::new();
    push_filtered(&mut out, first, start_min_ts, start_max_ts, 0);
    let ghost lead = first@.filter(in_lead_window(start_min_ts, start_max_ts));
    let mut j: usize = 0;
    let ghost mid_snap = mid@;
    while j < mid.len()
        invariant
            j <= mid@.len(),
            mid@ == mid_snap,
            out@ == lead + mid@.subrange(0, j as int),
            lead == first@.filter(in_lead_window(start_min_ts, start_max_ts)),
        decreases mid@.len() - j,
    {
        out.push(mid[j]);
        assert(out@ =~= lead + mid@.subrange(0, j + 1));
        j = j + 1;
    }
    assert(mid@.subrange(0, mid@.len() as int) =~= mid@);
    push_filtered(&mut out, second, 0, start_max_ts, 2);
    proof {
        let tail = second@.filter(after_boundary(start_max_ts));
        assert(out@.subrange(0, lead.len() as int) =~= lead);
        assert(out@.subrange(out@.len() - tail.len(), out@.len() as int) =~= tail);
        assert(out@.subrange(lead.len() as int, out@.len() - tail.len()) =~= mid_snap);
    }
    Ok(out)
}

} // verus!
