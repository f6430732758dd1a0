//! Laws of the synchronization engine.
//!
//! These proofs state, over the same spec functions the executable contracts
//! use, what the engine guarantees end to end: an up-to-date file causes no
//! fetch and no byte change; reordering moves exactly the planned bytes and,
//! when every target chunk is found locally, reproduces the target; feeding
//! every chunk of a buffer into an empty output reproduces the buffer.
//! Statements about chunk content assume content addressing: spans whose
//! hashes agree hold the same bytes.  A truncated-digest collision — two
//! different spans with one hash — falls outside them.

use vstd::prelude::*;

use crate::chunker::ScannedChunk;
use crate::clone::{
    actions_in_bounds, lemma_slot_end_le_total, lemma_slot_offset_nonneg, lemma_slots_disjoint,
    lemma_wf_from_meta, resize_seq, same_slot_meta, slot_takes, spec_feed_data, spec_missing,
    spec_reorder, spec_slot_action, spec_slots_after_feed, spec_target_total, splice, slots_wf,
    SlotAction, TargetSlot,
};
use crate::index::{idx_contains, idx_find, idx_wf, scan_index_rel, IndexEntryV};

verus! {

/// Splicing replaces exactly the written range.
proof fn lemma_splice_index(s: Seq<u8>, at: int, b: Seq<u8>, p: int)
    requires
        0 <= at,
        at + b.len() <= s.len(),
        0 <= p < s.len(),
    ensures
        splice(s, at, b).len() == s.len(),
        splice(s, at, b)[p] == if at <= p < at + b.len() {
            b[p - at]
        } else {
            s[p]
        },
{
}

/// The bytes a splice wrote.
proof fn lemma_splice_inside(s: Seq<u8>, at: int, b: Seq<u8>)
    requires
        0 <= at,
        at + b.len() <= s.len(),
    ensures
        splice(s, at, b).len() == s.len(),
        splice(s, at, b).subrange(at, at + b.len() as int) == b,
{
    assert forall|p: int| 0 <= p < b.len() implies splice(s, at, b).subrange(
        at,
        at + b.len() as int,
    )[p] == b[p] by {
        lemma_splice_index(s, at, b, at + p);
    }
    assert(splice(s, at, b).subrange(at, at + b.len() as int) =~= b);
}

/// A splice leaves a disjoint range untouched.
proof fn lemma_splice_outside(s: Seq<u8>, at: int, b: Seq<u8>, lo: int, hi: int)
    requires
        0 <= at,
        at + b.len() <= s.len(),
        0 <= lo <= hi <= s.len(),
        hi <= at || at + b.len() <= lo,
    ensures
        splice(s, at, b).subrange(lo, hi) == s.subrange(lo, hi),
{
    assert forall|p: int| 0 <= p < hi - lo implies splice(s, at, b).subrange(lo, hi)[p]
        == s.subrange(lo, hi)[p] by {
        lemma_splice_index(s, at, b, lo + p);
    }
    assert(splice(s, at, b).subrange(lo, hi) =~= s.subrange(lo, hi));
}

/// A byte of a resized sequence.
proof fn lemma_resize_index(s: Seq<u8>, n: int, p: int)
    requires
        0 <= p < n,
    ensures
        resize_seq(s, n).len() == n,
        resize_seq(s, n)[p] == if p < s.len() {
            s[p]
        } else {
            0u8
        },
{
}

/// Feeding never changes the length of the destination.
proof fn lemma_feed_len(
    data: Seq<u8>,
    slots: Seq<TargetSlot>,
    h: Seq<u8>,
    chunk: Seq<u8>,
    hl: int,
    upto: int,
)
    requires
        slots_wf(slots, hl),
        data.len() == spec_target_total(slots),
        0 <= upto <= slots.len(),
    ensures
        spec_feed_data(data, slots, h, chunk, upto).len() == data.len(),
    decreases upto,
{
    if upto > 0 {
        lemma_feed_len(data, slots, h, chunk, hl, upto - 1);
        if slot_takes(slots[upto - 1], h, chunk.len() as int) {
            lemma_slot_end_le_total(slots, hl, upto - 1);
        }
    }
}

/// A slot that takes the fed chunk ends up holding exactly its bytes.
proof fn lemma_feed_slot_written(
    data: Seq<u8>,
    slots: Seq<TargetSlot>,
    h: Seq<u8>,
    chunk: Seq<u8>,
    hl: int,
    i: int,
    upto: int,
)
    requires
        slots_wf(slots, hl),
        data.len() == spec_target_total(slots),
        0 <= i < upto <= slots.len(),
        slot_takes(slots[i], h, chunk.len() as int),
    ensures
        spec_feed_data(data, slots, h, chunk, upto).subrange(
            slots[i].offset as int,
            slots[i].offset + slots[i].size,
        ) == chunk,
    decreases upto,
{
    let prev = spec_feed_data(data, slots, h, chunk, upto - 1);
    lemma_feed_len(data, slots, h, chunk, hl, upto - 1);
    lemma_slot_end_le_total(slots, hl, i);
    lemma_slot_end_le_total(slots, hl, upto - 1);
    if upto - 1 == i {
        lemma_splice_inside(prev, slots[i].offset as int, chunk);
    } else {
        lemma_feed_slot_written(data, slots, h, chunk, hl, i, upto - 1);
        if slot_takes(slots[upto - 1], h, chunk.len() as int) {
            lemma_slots_disjoint(slots, hl, i, upto - 1);
            lemma_splice_outside(
                prev,
                slots[upto - 1].offset as int,
                chunk,
                slots[i].offset as int,
                slots[i].offset + slots[i].size,
            );
        }
    }
}

/// A slot that does not take the fed chunk keeps its bytes.
proof fn lemma_feed_slot_untouched(
    data: Seq<u8>,
    slots: Seq<TargetSlot>,
    h: Seq<u8>,
    chunk: Seq<u8>,
    hl: int,
    i: int,
    upto: int,
)
    requires
        slots_wf(slots, hl),
        data.len() == spec_target_total(slots),
        0 <= i < slots.len(),
        0 <= upto <= slots.len(),
        !slot_takes(slots[i], h, chunk.len() as int),
    ensures
        spec_feed_data(data, slots, h, chunk, upto).subrange(
            slots[i].offset as int,
            slots[i].offset + slots[i].size,
        ) == data.subrange(slots[i].offset as int, slots[i].offset + slots[i].size),
    decreases upto,
{
    lemma_slot_end_le_total(slots, hl, i);
    if upto > 0 {
        let prev = spec_feed_data(data, slots, h, chunk, upto - 1);
        lemma_feed_len(data, slots, h, chunk, hl, upto - 1);
        lemma_feed_slot_untouched(data, slots, h, chunk, hl, i, upto - 1);
        if slot_takes(slots[upto - 1], h, chunk.len() as int) {
            lemma_slot_end_le_total(slots, hl, upto - 1);
            if i < upto - 1 {
                lemma_slots_disjoint(slots, hl, i, upto - 1);
            } else {
                lemma_slots_disjoint(slots, hl, upto - 1, i);
            }
            lemma_splice_outside(
                prev,
                slots[upto - 1].offset as int,
                chunk,
                slots[i].offset as int,
                slots[i].offset + slots[i].size,
            );
        }
    }
}

/// Reordering always yields the target length.
proof fn lemma_reorder_len(
    data: Seq<u8>,
    slots: Seq<TargetSlot>,
    actions: Seq<SlotAction>,
    hl: int,
    upto: int,
)
    requires
        slots_wf(slots, hl),
        actions.len() == slots.len(),
        actions_in_bounds(actions, slots, data.len() as int),
        0 <= upto <= slots.len(),
    ensures
        spec_reorder(data, slots, actions, upto).len() == spec_target_total(slots),
    decreases upto,
{
    if upto > 0 {
        lemma_reorder_len(data, slots, actions, hl, upto - 1);
        match actions[upto - 1] {
            SlotAction::ReuseFrom(o) => {
                lemma_slot_end_le_total(slots, hl, upto - 1);
            },
            _ => {},
        }
    } else {
        if slots.len() > 0 {
            lemma_slot_offset_nonneg(slots, hl, slots.len() - 1);
        }
    }
}

/// A reused slot ends up holding exactly the local bytes its decision names;
/// an untouched slot holds what the resize left there.  This is the in-place
/// permutation law: staging makes every move read pre-reorder bytes, so even
/// a cycle of displacements lands exactly.
pub proof fn lemma_reorder_slot(
    data: Seq<u8>,
    slots: Seq<TargetSlot>,
    actions: Seq<SlotAction>,
    hl: int,
    i: int,
    upto: int,
)
    requires
        slots_wf(slots, hl),
        actions.len() == slots.len(),
        actions_in_bounds(actions, slots, data.len() as int),
        0 <= i < slots.len(),
        0 <= upto <= slots.len(),
    ensures
        i < upto ==> match actions[i] {
            SlotAction::ReuseFrom(o) => spec_reorder(data, slots, actions, upto).subrange(
                slots[i].offset as int,
                slots[i].offset + slots[i].size,
            ) == data.subrange(o as int, o + slots[i].size),
            _ => spec_reorder(data, slots, actions, upto).subrange(
                slots[i].offset as int,
                slots[i].offset + slots[i].size,
            ) == resize_seq(data, spec_target_total(slots)).subrange(
                slots[i].offset as int,
                slots[i].offset + slots[i].size,
            ),
        },
        i >= upto ==> spec_reorder(data, slots, actions, upto).subrange(
            slots[i].offset as int,
            slots[i].offset + slots[i].size,
        ) == resize_seq(data, spec_target_total(slots)).subrange(
            slots[i].offset as int,
            slots[i].offset + slots[i].size,
        ),
    decreases upto,
{
    lemma_slot_end_le_total(slots, hl, i);
    if upto > 0 {
        let prev = spec_reorder(data, slots, actions, upto - 1);
        lemma_reorder_len(data, slots, actions, hl, upto - 1);
        lemma_reorder_slot(data, slots, actions, hl, i, upto - 1);
        match actions[upto - 1] {
            SlotAction::ReuseFrom(o) => {
                lemma_slot_end_le_total(slots, hl, upto - 1);
                if upto - 1 == i {
                    lemma_splice_inside(prev, slots[i].offset as int, data.subrange(
                        o as int,
                        o + slots[i].size,
                    ));
                } else {
                    if i < upto - 1 {
                        lemma_slots_disjoint(slots, hl, i, upto - 1);
                    } else {
                        lemma_slots_disjoint(slots, hl, upto - 1, i);
                    }
                    lemma_splice_outside(
                        prev,
                        slots[upto - 1].offset as int,
                        data.subrange(o as int, o + slots[upto - 1].size),
                        slots[i].offset as int,
                        slots[i].offset + slots[i].size,
                    );
                }
            },
            _ => {},
        }
    }
}

/// Every byte position of the target lies in exactly one slot; this names
/// the covering one.
pub proof fn lemma_position_in_slot(slots: Seq<TargetSlot>, hl: int, p: int) -> (j: int)
    requires
        slots_wf(slots, hl),
        0 <= p < spec_target_total(slots),
    ensures
        0 <= j < slots.len(),
        slots[j].offset <= p < slots[j].offset + slots[j].size,
    decreases slots.len(),
{
    let last = slots.len() - 1;
    lemma_slot_offset_nonneg(slots, hl, last);
    if p >= slots[last].offset {
        last
    } else {
        let prefix = slots.drop_last();
        assert forall|k: int| 0 <= k < prefix.len() implies prefix[k] == slots[k] by {}
        assert(spec_target_total(prefix) == slots[last].offset);
        assert(slots_wf(prefix, hl)) by {
            lemma_slot_end_le_total(slots, hl, last);
        }
        let j = lemma_position_in_slot(prefix, hl, p);
        j
    }
}

/// Reordering with no reuse decision only resizes.
proof fn lemma_reorder_no_moves(
    data: Seq<u8>,
    slots: Seq<TargetSlot>,
    actions: Seq<SlotAction>,
    upto: int,
)
    requires
        0 <= upto <= actions.len(),
        forall|i: int| 0 <= i < upto ==> !((#[trigger] actions[i]) is ReuseFrom),
    ensures
        spec_reorder(data, slots, actions, upto) == resize_seq(data, spec_target_total(slots)),
    decreases upto,
{
    if upto > 0 {
        lemma_reorder_no_moves(data, slots, actions, upto - 1);
    }
}

/// A layout with nothing owed has an empty download set.
pub proof fn lemma_no_pending_no_missing(slots: Seq<TargetSlot>, upto: int)
    requires
        0 <= upto <= slots.len(),
        forall|i: int| 0 <= i < slots.len() ==> !(#[trigger] slots[i]).pending,
    ensures
        spec_missing(slots, upto) == Seq::<int>::empty(),
    decreases upto,
{
    if upto > 0 {
        lemma_no_pending_no_missing(slots, upto - 1);
    }
}

/// Idempotence: when the destination already matches the target — the scan
/// of its bytes yields, slot for slot, the target's hashes — the diff finds
/// every slot already in place, reordering leaves every byte unchanged, and
/// the download set is empty: an up-to-date file costs no fetch and no
/// write.  Spans sharing a hash must agree on their size, which content
/// addressing grants.
pub proof fn lemma_idempotent_file_sync(
    data: Seq<u8>,
    scan: Seq<ScannedChunk>,
    idx: Seq<IndexEntryV>,
    slots: Seq<TargetSlot>,
    actions: Seq<SlotAction>,
    hl: int,
)
    requires
        idx_wf(idx),
        scan_index_rel(scan, idx),
        slots_wf(slots, hl),
        actions.len() == slots.len(),
        forall|i: int|
            0 <= i < actions.len() ==> #[trigger] actions[i] == spec_slot_action(
                slots[i].hash@,
                slots[i].size as int,
                slots[i].offset as int,
                idx,
                data.len() as int,
            ),
        slots.len() == scan.len(),
        forall|i: int|
            0 <= i < slots.len() ==> {
                &&& (#[trigger] slots[i]).offset == scan[i].offset
                &&& slots[i].size == scan[i].size
                &&& slots[i].hash@ == scan[i].hash@
            },
        data.len() == spec_target_total(slots),
        forall|i: int, j: int|
            0 <= i < scan.len() && 0 <= j < scan.len() && (#[trigger] scan[i]).hash@
                == (#[trigger] scan[j]).hash@ ==> scan[i].size == scan[j].size,
    ensures
        forall|i: int| 0 <= i < actions.len() ==> #[trigger] actions[i] == SlotAction::AlreadyInPlace,
        spec_reorder(data, slots, actions, actions.len() as int) == data,
{
    assert forall|i: int|
        0 <= i < actions.len() implies #[trigger] actions[i] == SlotAction::AlreadyInPlace by {
        assert(idx_contains(idx, scan[i].hash@));
        let f = idx_find(idx, slots[i].hash@);
        assert(0 <= f < idx.len() && idx[f].hash == slots[i].hash@);
        let t = choose|t: int|
            0 <= t < scan.len() && scan[t].hash@ == idx[f].hash && scan[t].size as int
                == idx[f].size;
        assert(scan[t].hash@ == scan[i].hash@);
        assert(scan[t].size == scan[i].size);
        assert(idx[f].size == slots[i].size);
        assert(idx[idx_find(idx, scan[i].hash@)].offsets.contains(scan[i].offset as int));
        lemma_slot_end_le_total(slots, hl, i);
    }
    lemma_reorder_no_moves(data, slots, actions, actions.len() as int);
    assert(resize_seq(data, spec_target_total(slots)) =~= data);
}

/// Dedup pays off: a slot whose hash the local index knows — at the slot's
/// size, with its recorded first copy inside the local bytes — is never
/// downloaded, wherever in the target it sits.
pub proof fn lemma_known_content_not_downloaded(
    h: Seq<u8>,
    size: int,
    offset: int,
    idx: Seq<IndexEntryV>,
    old_len: int,
)
    requires
        idx_wf(idx),
        idx_contains(idx, h),
        idx[idx_find(idx, h)].size == size,
        0 <= idx[idx_find(idx, h)].offsets[0],
        idx[idx_find(idx, h)].offsets[0] + size <= old_len,
    ensures
        spec_slot_action(h, size, offset, idx, old_len) != SlotAction::Download,
{
}

/// All zero bytes.
pub open spec fn zero_bytes(n: int) -> Seq<u8>
    recommends
        n >= 0,
{
    Seq::new(n as nat, |i: int| 0u8)
}

/// The destination and layout after the first `k` chunks were fed, in
/// order, each to every slot owed under its hash.
pub open spec fn spec_feed_rounds(
    data: Seq<u8>,
    slots: Seq<TargetSlot>,
    chunks: Seq<(Seq<u8>, Seq<u8>)>,
    k: int,
) -> (Seq<u8>, Seq<TargetSlot>)
    decreases k,
{
    if k <= 0 {
        (data, slots)
    } else {
        let prev = spec_feed_rounds(data, slots, chunks, k - 1);
        (
            spec_feed_data(prev.0, prev.1, chunks[k - 1].0, chunks[k - 1].1, prev.1.len() as int),
            spec_slots_after_feed(prev.1, chunks[k - 1].0, chunks[k - 1].1.len() as int),
        )
    }
}

/// The bytes of `b` that slot `s` covers.
pub open spec fn slot_span(b: Seq<u8>, s: TargetSlot) -> Seq<u8> {
    b.subrange(s.offset as int, s.offset + s.size)
}

/// Whether slot `i`'s hash is among the first `k` fed chunks.
pub open spec fn hash_fed(
    slots: Seq<TargetSlot>,
    chunks: Seq<(Seq<u8>, Seq<u8>)>,
    i: int,
    k: int,
) -> bool {
    exists|r: int| 0 <= r < k && (#[trigger] chunks[r]).0 == slots[i].hash@
}

/// The hypotheses of the round-trip law: a well-formed all-owed layout
/// covering `b`, one chunk per slot carrying the slot's hash and `b`'s bytes
/// for that slot, and content addressing (slots sharing a hash cover
/// identical bytes).
pub open spec fn round_trip_pre(
    b: Seq<u8>,
    slots: Seq<TargetSlot>,
    chunks: Seq<(Seq<u8>, Seq<u8>)>,
    hl: int,
) -> bool {
    &&& slots_wf(slots, hl)
    &&& spec_target_total(slots) == b.len()
    &&& forall|i: int| 0 <= i < slots.len() ==> (#[trigger] slots[i]).pending
    &&& chunks.len() == slots.len()
    &&& forall|i: int|
        0 <= i < chunks.len() ==> (#[trigger] chunks[i]).0 == slots[i].hash@ && chunks[i].1
            == slot_span(b, slots[i])
    &&& forall|i: int, j: int|
        0 <= i < slots.len() && 0 <= j < slots.len() && (#[trigger] slots[i]).hash@
            == (#[trigger] slots[j]).hash@ ==> slot_span(b, slots[i]) == slot_span(b, slots[j])
}

/// The layout after `k` feed rounds: the same slots, each still owed
/// exactly when its hash has not been fed yet.
#[verifier::rlimit(100)]
proof fn lemma_rounds_slots(
    b: Seq<u8>,
    slots: Seq<TargetSlot>,
    chunks: Seq<(Seq<u8>, Seq<u8>)>,
    hl: int,
    k: int,
)
    requires
        round_trip_pre(b, slots, chunks, hl),
        0 <= k <= chunks.len(),
    ensures
        spec_feed_rounds(zero_bytes(b.len() as int), slots, chunks, k).1.len() == slots.len(),
        forall|i: int|
            0 <= i < slots.len() ==> #[trigger] spec_feed_rounds(
                zero_bytes(b.len() as int),
                slots,
                chunks,
                k,
            ).1[i] == (TargetSlot {
                offset: slots[i].offset,
                size: slots[i].size,
                hash: slots[i].hash,
                pending: !hash_fed(slots, chunks, i, k),
            }),
    decreases k,
{
    let zeros = zero_bytes(b.len() as int);
    if k == 0 {
        assert forall|i: int| 0 <= i < slots.len() implies #[trigger] spec_feed_rounds(
            zeros,
            slots,
            chunks,
            0,
        ).1[i] == (TargetSlot {
            offset: slots[i].offset,
            size: slots[i].size,
            hash: slots[i].hash,
            pending: !hash_fed(slots, chunks, i, 0),
        }) by {
            assert(!hash_fed(slots, chunks, i, 0));
        }
    } else {
        lemma_rounds_slots(b, slots, chunks, hl, k - 1);
        let slp = spec_feed_rounds(zeros, slots, chunks, k - 1).1;
        let sl = spec_feed_rounds(zeros, slots, chunks, k).1;
        let h = chunks[k - 1].0;
        let clen = chunks[k - 1].1.len() as int;
        assert(h == slots[k - 1].hash@);
        assert(chunks[k - 1].1 == slot_span(b, slots[k - 1]));
        lemma_slot_end_le_total(slots, hl, k - 1);
        assert(clen == slots[k - 1].size);
        assert(sl == spec_slots_after_feed(slp, h, clen));
        assert forall|i: int| 0 <= i < slots.len() implies #[trigger] sl[i] == (TargetSlot {
            offset: slots[i].offset,
            size: slots[i].size,
            hash: slots[i].hash,
            pending: !hash_fed(slots, chunks, i, k),
        }) by {
            assert(sl[i].pending == (slp[i].pending && !slot_takes(slp[i], h, clen)));
            lemma_slot_end_le_total(slots, hl, i);
            if slp[i].pending {
                if slots[i].hash@ == h {
                    assert(slot_span(b, slots[i]) == slot_span(b, slots[k - 1]));
                    assert(slots[i].size == slots[k - 1].size);
                    assert(slot_takes(slp[i], h, clen));
                    assert(chunks[k - 1].0 == slots[i].hash@);
                    assert(hash_fed(slots, chunks, i, k));
                } else {
                    assert(!slot_takes(slp[i], h, clen));
                    assert(!hash_fed(slots, chunks, i, k - 1));
                    assert forall|r: int|
                        0 <= r < k && (#[trigger] chunks[r]).0 == slots[i].hash@ implies false by {
                        assert(r == k - 1);
                    }
                    assert(!hash_fed(slots, chunks, i, k));
                }
            } else {
                let r0 = choose|r: int|
                    0 <= r < k - 1 && (#[trigger] chunks[r]).0 == slots[i].hash@;
                assert(0 <= r0 < k && chunks[r0].0 == slots[i].hash@);
                assert(hash_fed(slots, chunks, i, k));
            }
        }
    }
}

/// The destination after `k` feed rounds: unchanged length, and every slot
/// whose hash was fed holds the buffer's bytes.
#[verifier::rlimit(100)]
proof fn lemma_rounds_data(
    b: Seq<u8>,
    slots: Seq<TargetSlot>,
    chunks: Seq<(Seq<u8>, Seq<u8>)>,
    hl: int,
    k: int,
)
    requires
        round_trip_pre(b, slots, chunks, hl),
        0 <= k <= chunks.len(),
    ensures
        spec_feed_rounds(zero_bytes(b.len() as int), slots, chunks, k).0.len() == b.len(),
        forall|i: int|
            0 <= i < slots.len() && hash_fed(slots, chunks, i, k) ==> #[trigger] spec_feed_rounds(
                zero_bytes(b.len() as int),
                slots,
                chunks,
                k,
            ).0.subrange(slots[i].offset as int, slots[i].offset + slots[i].size) == slot_span(
                b,
                slots[i],
            ),
    decreases k,
{
    let zeros = zero_bytes(b.len() as int);
    if k > 0 {
        lemma_rounds_data(b, slots, chunks, hl, k - 1);
        lemma_rounds_slots(b, slots, chunks, hl, k - 1);
        let dp = spec_feed_rounds(zeros, slots, chunks, k - 1).0;
        let slp = spec_feed_rounds(zeros, slots, chunks, k - 1).1;
        let d = spec_feed_rounds(zeros, slots, chunks, k).0;
        let h = chunks[k - 1].0;
        let c = chunks[k - 1].1;
        let clen = c.len() as int;
        assert(same_slot_meta(slots, slp));
        lemma_wf_from_meta(slots, slp, hl);
        assert(h == slots[k - 1].hash@);
        assert(c == slot_span(b, slots[k - 1]));
        lemma_slot_end_le_total(slots, hl, k - 1);
        assert(clen == slots[k - 1].size);
        assert(d == spec_feed_data(dp, slp, h, c, slp.len() as int));
        lemma_feed_len(dp, slp, h, c, hl, slp.len() as int);
        assert forall|i: int|
            0 <= i < slots.len() && hash_fed(slots, chunks, i, k) implies #[trigger] spec_feed_rounds(
            zeros,
            slots,
            chunks,
            k,
        ).0.subrange(slots[i].offset as int, slots[i].offset + slots[i].size) == slot_span(
            b,
            slots[i],
        ) by {
            lemma_slot_end_le_total(slots, hl, i);
            assert(slp[i].offset == slots[i].offset && slp[i].size == slots[i].size
                && slp[i].hash@ == slots[i].hash@);
            if slot_takes(slp[i], h, clen) {
                lemma_feed_slot_written(dp, slp, h, c, hl, i, slp.len() as int);
                assert(slots[i].hash@ == slots[k - 1].hash@);
                assert(slot_span(b, slots[i]) == slot_span(b, slots[k - 1]));
                assert(d.subrange(slp[i].offset as int, slp[i].offset + slp[i].size) == c);
            } else {
                lemma_feed_slot_untouched(dp, slp, h, c, hl, i, slp.len() as int);
                // the slot's hash was fed in an earlier round: either its
                // hash differs from this round's, or it was already written
                if slots[i].hash@ == h {
                    // not taking while sharing the hash means no longer owed
                    assert(slot_span(b, slots[i]) == slot_span(b, slots[k - 1]));
                    assert(slots[i].size == slots[k - 1].size);
                    assert(!slp[i].pending);
                    assert(hash_fed(slots, chunks, i, k - 1));
                } else {
                    assert forall|r: int|
                        0 <= r < k && (#[trigger] chunks[r]).0 == slots[i].hash@ implies 0 <= r < k
                        - 1 by {
                        if r == k - 1 {
                            assert(chunks[k - 1].0 == slots[i].hash@);
                            assert(false);
                        }
                    }
                    assert(hash_fed(slots, chunks, i, k - 1));
                }
                assert(dp.subrange(slots[i].offset as int, slots[i].offset + slots[i].size)
                    == slot_span(b, slots[i]));
            }
        }
    }
}

/// Round trip: chunking a buffer and feeding every resulting chunk into an
/// output that starts from an empty (zeroed) destination with the buffer's
/// layout as target reproduces the buffer exactly.
#[verifier::rlimit(100)]
pub proof fn lemma_round_trip(
    b: Seq<u8>,
    slots: Seq<TargetSlot>,
    chunks: Seq<(Seq<u8>, Seq<u8>)>,
    hl: int,
)
    requires
        round_trip_pre(b, slots, chunks, hl),
    ensures
        spec_feed_rounds(zero_bytes(b.len() as int), slots, chunks, chunks.len() as int).0 == b,
{
    let n = chunks.len() as int;
    lemma_rounds_data(b, slots, chunks, hl, n);
    let d = spec_feed_rounds(zero_bytes(b.len() as int), slots, chunks, n).0;
    assert forall|p: int| 0 <= p < b.len() implies d[p] == b[p] by {
        let j = lemma_position_in_slot(slots, hl, p);
        let off = slots[j].offset as int;
        let end = slots[j].offset + slots[j].size;
        lemma_slot_end_le_total(slots, hl, j);
        assert(chunks[j].0 == slots[j].hash@);
        assert(hash_fed(slots, chunks, j, n));
        assert(d.subrange(off, end) == slot_span(b, slots[j]));
        assert(d.subrange(off, end)[p - off] == d[p]);
        assert(slot_span(b, slots[j])[p - off] == b[p]);
    }
    assert(d =~= b);
}

/// The hypotheses of the reorder-reaches-target law: the diff chain over a
/// scan-built index, and content addressing across the two byte strings (a
/// scanned span and a target slot sharing a hash hold the same bytes).
pub open spec fn reorder_target_pre(
    local: Seq<u8>,
    target: Seq<u8>,
    scan: Seq<ScannedChunk>,
    idx: Seq<IndexEntryV>,
    slots: Seq<TargetSlot>,
    actions: Seq<SlotAction>,
    hl: int,
) -> bool {
    &&& idx_wf(idx)
    &&& scan_index_rel(scan, idx)
    &&& slots_wf(slots, hl)
    &&& actions.len() == slots.len()
    &&& forall|i: int|
        0 <= i < actions.len() ==> #[trigger] actions[i] == spec_slot_action(
            slots[i].hash@,
            slots[i].size as int,
            slots[i].offset as int,
            idx,
            local.len() as int,
        )
    &&& target.len() == spec_target_total(slots)
    &&& forall|t: int|
        0 <= t < scan.len() ==> (#[trigger] scan[t]).offset + scan[t].size <= local.len()
    &&& forall|t: int, i: int|
        0 <= t < scan.len() && 0 <= i < slots.len() && (#[trigger] scan[t]).hash@
            == (#[trigger] slots[i]).hash@ ==> local.subrange(
            scan[t].offset as int,
            scan[t].offset + scan[t].size,
        ) == slot_span(target, slots[i])
}

/// One slot of a reorder whose diff found its content locally ends up with
/// the target's bytes.
#[verifier::rlimit(100)]
proof fn lemma_slot_reaches_target(
    local: Seq<u8>,
    target: Seq<u8>,
    scan: Seq<ScannedChunk>,
    idx: Seq<IndexEntryV>,
    slots: Seq<TargetSlot>,
    actions: Seq<SlotAction>,
    hl: int,
    i: int,
)
    requires
        reorder_target_pre(local, target, scan, idx, slots, actions, hl),
        actions_in_bounds(actions, slots, local.len() as int),
        0 <= i < slots.len(),
        !(actions[i] is Download),
    ensures
        spec_reorder(local, slots, actions, actions.len() as int).subrange(
            slots[i].offset as int,
            slots[i].offset + slots[i].size,
        ) == slot_span(target, slots[i]),
{
    let n = actions.len() as int;
    let result = spec_reorder(local, slots, actions, n);
    let off = slots[i].offset as int;
    let end = slots[i].offset + slots[i].size;
    lemma_slot_end_le_total(slots, hl, i);
    lemma_reorder_slot(local, slots, actions, hl, i, n);
    assert(actions[i] == spec_slot_action(
        slots[i].hash@,
        slots[i].size as int,
        slots[i].offset as int,
        idx,
        local.len() as int,
    ));
    assert(idx_contains(idx, slots[i].hash@));
    let f = idx_find(idx, slots[i].hash@);
    assert(0 <= f < idx.len() && idx[f].hash == slots[i].hash@);
    match actions[i] {
        SlotAction::AlreadyInPlace => {
            assert(idx[f].offsets.contains(slots[i].offset as int));
            let k = choose|k: int|
                0 <= k < idx[f].offsets.len() && idx[f].offsets[k] == slots[i].offset as int;
            assert(exists|t: int|
                0 <= t < scan.len() && scan[t].offset as int == #[trigger] idx[f].offsets[k]
                    && scan[t].hash@ == idx[f].hash);
            let t = choose|t: int|
                0 <= t < scan.len() && scan[t].offset as int == idx[f].offsets[k] && scan[t].hash@
                    == idx[f].hash;
            assert(local.subrange(scan[t].offset as int, scan[t].offset + scan[t].size)
                == slot_span(target, slots[i]));
            assert(scan[t].size == slots[i].size);
            assert(end <= local.len());
            assert(result.subrange(off, end) == resize_seq(
                local,
                spec_target_total(slots),
            ).subrange(off, end));
            assert forall|p: int| 0 <= p < end - off implies resize_seq(
                local,
                spec_target_total(slots),
            ).subrange(off, end)[p] == local.subrange(off, end)[p] by {
                lemma_resize_index(local, spec_target_total(slots), off + p);
            }
            assert(resize_seq(local, spec_target_total(slots)).subrange(off, end) =~= local.subrange(
                off,
                end,
            ));
            assert(local.subrange(off, end) == local.subrange(
                scan[t].offset as int,
                scan[t].offset + scan[t].size,
            ));
        },
        SlotAction::ReuseFrom(o) => {
            assert(o as int == idx[f].offsets[0] && idx[f].size == slots[i].size);
            assert(idx[f].offsets.len() >= 1);
            assert(exists|t: int|
                0 <= t < scan.len() && scan[t].offset as int == #[trigger] idx[f].offsets[0]
                    && scan[t].hash@ == idx[f].hash);
            let t = choose|t: int|
                0 <= t < scan.len() && scan[t].offset as int == idx[f].offsets[0] && scan[t].hash@
                    == idx[f].hash;
            assert(local.subrange(scan[t].offset as int, scan[t].offset + scan[t].size)
                == slot_span(target, slots[i]));
            assert(scan[t].size == slots[i].size);
            assert(result.subrange(off, end) == local.subrange(o as int, o + slots[i].size));
        },
        SlotAction::Download => {
            assert(false);
        },
    }
}

/// Cycle-safe reorder: when the diff finds every target slot's content
/// somewhere in the local bytes — however the chunks are permuted, cycles
/// included — reordering in place produces exactly the target bytes, with
/// nothing downloaded.
#[verifier::rlimit(100)]
pub proof fn lemma_reorder_reaches_target(
    local: Seq<u8>,
    target: Seq<u8>,
    scan: Seq<ScannedChunk>,
    idx: Seq<IndexEntryV>,
    slots: Seq<TargetSlot>,
    actions: Seq<SlotAction>,
    hl: int,
)
    requires
        reorder_target_pre(local, target, scan, idx, slots, actions, hl),
        forall|i: int| 0 <= i < actions.len() ==> !((#[trigger] actions[i]) is Download),
    ensures
        spec_reorder(local, slots, actions, actions.len() as int) == target,
{
    let n = actions.len() as int;
    assert(actions_in_bounds(actions, slots, local.len() as int)) by {
        assert forall|i: int|
            0 <= i < actions.len() implies match #[trigger] actions[i] {
            SlotAction::ReuseFrom(o) => o + slots[i].size <= local.len(),
            _ => true,
        } by {}
    }
    let result = spec_reorder(local, slots, actions, n);
    lemma_reorder_len(local, slots, actions, hl, n);
    assert forall|p: int| 0 <= p < target.len() implies result[p] == target[p] by {
        let j = lemma_position_in_slot(slots, hl, p);
        let off = slots[j].offset as int;
        let end = slots[j].offset + slots[j].size;
        lemma_slot_end_le_total(slots, hl, j);
        lemma_slot_reaches_target(local, target, scan, idx, slots, actions, hl, j);
        assert(result.subrange(off, end) == slot_span(target, slots[j]));
        assert(result.subrange(off, end)[p - off] == result[p]);
        assert(slot_span(target, slots[j])[p - off] == target[p]);
    }
    assert(result =~= target);
}

} // verus!
