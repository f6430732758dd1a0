//! Clone output: the destination file of one sync operation.
//!
//! The output owns the destination's bytes and its target layout (one slot
//! per source chunk descriptor, in source order).  Existing content is first
//! reordered in place to match the target layout — displaced bytes go
//! through a staging copy, so no chunk that is still needed is destroyed
//! before it is read — and verified chunks are then written to every slot
//! recorded for their hash.  A partially updated output is a resumable
//! state, not corruption: a later scan repairs it.

use vstd::prelude::*;

use crate::archive::{descs_total_size, header_wf, ArchiveHeader};
use crate::errors::SyncError;
use crate::hash::{bytes_eq, chunk_hash, copy_bytes, trunc_hash};
use crate::index::{idx_contains, idx_find, ChunkIndex, IndexEntryV};

verus! {

/// One slot of the target layout: where a chunk with the given hash must end
/// up, and whether its content is still owed.
pub struct TargetSlot {
    pub offset: usize,
    pub size: usize,
    pub hash: Vec<u8>,
    pub pending: bool,
}

/// Total length of the layout described by `slots`.
pub open spec fn spec_target_total(slots: Seq<TargetSlot>) -> int {
    if slots.len() == 0 {
        0
    } else {
        slots.last().offset + slots.last().size
    }
}

/// Layout well-formedness: slots are nonempty, consecutive from offset 0,
/// and carry hashes of length `hl`.
pub open spec fn slots_wf(slots: Seq<TargetSlot>, hl: int) -> bool {
    &&& forall|i: int| 0 <= i < slots.len() ==> (#[trigger] slots[i]).size >= 1
    &&& forall|i: int| 0 <= i < slots.len() ==> (#[trigger] slots[i]).hash@.len() == hl
    &&& slots.len() > 0 ==> slots[0].offset == 0
    &&& forall|i: int|
        1 <= i < slots.len() ==> (#[trigger] slots[i]).offset == slots[i - 1].offset + slots[i
            - 1].size
    &&& spec_target_total(slots) <= usize::MAX
}

/// Every slot lies within the layout's total length.
pub proof fn lemma_slot_end_le_total(slots: Seq<TargetSlot>, hl: int, i: int)
    requires
        slots_wf(slots, hl),
        0 <= i < slots.len(),
    ensures
        slots[i].offset + slots[i].size <= spec_target_total(slots),
        slots[i].offset >= 0,
    decreases slots.len() - i,
{
    if i == slots.len() - 1 {
        lemma_slot_offset_nonneg(slots, hl, i);
    } else {
        lemma_slot_end_le_total(slots, hl, i + 1);
        lemma_slot_offset_nonneg(slots, hl, i);
    }
}

/// Slot offsets are nonnegative.
pub proof fn lemma_slot_offset_nonneg(slots: Seq<TargetSlot>, hl: int, i: int)
    requires
        slots_wf(slots, hl),
        0 <= i < slots.len(),
    ensures
        slots[i].offset >= 0,
    decreases i,
{
    if i > 0 {
        lemma_slot_offset_nonneg(slots, hl, i - 1);
    }
}

/// Distinct slots occupy disjoint byte ranges, in layout order.
pub proof fn lemma_slots_disjoint(slots: Seq<TargetSlot>, hl: int, i: int, j: int)
    requires
        slots_wf(slots, hl),
        0 <= i < j < slots.len(),
    ensures
        slots[i].offset + slots[i].size <= slots[j].offset,
    decreases j - i,
{
    if j > i + 1 {
        lemma_slots_disjoint(slots, hl, i, j - 1);
    }
}

/// `s` with `b` written at position `at` (in bounds).
pub open spec fn splice(s: Seq<u8>, at: int, b: Seq<u8>) -> Seq<u8>
    recommends
        0 <= at,
        at + b.len() <= s.len(),
{
    s.take(at) + b + s.skip(at + b.len())
}

/// `s` brought to length `n`: truncated, or extended with zero bytes.
pub open spec fn resize_seq(s: Seq<u8>, n: int) -> Seq<u8>
    recommends
        n >= 0,
{
    if n <= s.len() {
        s.take(n)
    } else {
        s + Seq::new((n - s.len()) as nat, |i: int| 0u8)
    }
}

/// What the diff decides for one target slot.
#[derive(Clone, Copy, Debug, PartialEq, Eq, Structural)]
pub enum SlotAction {
    /// The destination already holds matching content at the slot's offset;
    /// nothing moves, nothing is fetched.
    AlreadyInPlace,
    /// Matching content exists locally at the given (first recorded) offset
    /// and is copied into the slot; content is identical by hash, so any
    /// recorded candidate would do.
    ReuseFrom(usize),
    /// No matching local content: the chunk must be downloaded.
    Download,
}

/// The decision for one slot — identified by its hash, size and offset —
/// given the local index and the length of the destination's current bytes.
pub open spec fn spec_slot_action(
    h: Seq<u8>,
    size: int,
    offset: int,
    idx: Seq<IndexEntryV>,
    old_len: int,
) -> SlotAction {
    if idx_contains(idx, h) {
        let e = idx[idx_find(idx, h)];
        if e.size == size {
            if e.offsets.contains(offset) && offset + size <= old_len {
                SlotAction::AlreadyInPlace
            } else if 0 <= e.offsets[0] && e.offsets[0] + e.size <= old_len {
                SlotAction::ReuseFrom(e.offsets[0] as usize)
            } else {
                SlotAction::Download
            }
        } else {
            SlotAction::Download
        }
    } else {
        SlotAction::Download
    }
}

/// Destination file of one sync operation: its current bytes and the target
/// layout they must reach.  Exclusively owned by that operation.
pub struct CloneOutput {
    pub data: Vec<u8>,
    pub slots: Vec<TargetSlot>,
    pub hash_length: usize,
}

impl CloneOutput {
    /// Structural invariant of the output.
    pub open spec fn wf(&self) -> bool {
        slots_wf(self.slots@, self.hash_length as int)
    }

    /// Whether the destination bytes have reached the target length.
    pub open spec fn sized(&self) -> bool {
        self.data@.len() == spec_target_total(self.slots@)
    }

    /// Take ownership of the destination's current bytes and lay out the
    /// target described by a validated header, every slot still owed.
    pub fn from_bytes(existing: Vec<u8>, header: &ArchiveHeader) -> (r: CloneOutput)
        requires
            header_wf(header),
        ensures
            r.wf(),
            r.data@ == existing@,
            r.hash_length == header.hash_length,
            r.slots@.len() == header.descriptors@.len(),
            forall|i: int|
                0 <= i < r.slots@.len() ==> {
                    &&& (#[trigger] r.slots@[i]).hash@ == header.descriptors@[i].hash@
                    &&& r.slots@[i].size == header.descriptors@[i].size
                    &&& r.slots@[i].offset == descs_total_size(header.descriptors@.take(i))
                    &&& r.slots@[i].pending
                },
            spec_target_total(r.slots@) == header.source_size,
    {
        let n = header.descriptors.len();
        let mut slots: Vec<TargetSlot> = Vec::new();
        let mut off: usize = 0;
        let mut i: usize = 0;
        proof {
            assert(header.descriptors@.take(0) =~= Seq::<crate::archive::SourceChunkDesc>::empty());
        }
        while i < n
            invariant
                header_wf(header),
                n == header.descriptors@.len(),
                i <= n,
                slots@.len() == i,
                off == descs_total_size(header.descriptors@.take(i as int)),
                forall|k: int|
                    0 <= k < i ==> {
                        &&& (#[trigger] slots@[k]).hash@ == header.descriptors@[k].hash@
                        &&& slots@[k].size == header.descriptors@[k].size
                        &&& slots@[k].offset == descs_total_size(header.descriptors@.take(k))
                        &&& slots@[k].pending
                    },
            decreases n - i,
        {
            let d = &header.descriptors[i];
            proof {
                lemma_desc_prefix_le(header.descriptors@, i + 1);
                assert(header.descriptors@.take(i + 1).drop_last() =~= header.descriptors@.take(
                    i as int,
                ));
                assert(descs_total_size(header.descriptors@.take(i + 1)) == off + d.size);
                assert(off + d.size <= header.source_size);
            }
            let mut h: Vec<u8> = Vec::new();
            h.extend_from_slice(d.hash.as_slice());
            proof {
                assert(h@ =~= d.hash@);
            }
            slots.push(TargetSlot { offset: off, size: d.size, hash: h, pending: true });
            off = off + d.size;
            i = i + 1;
        }
        proof {
            assert(header.descriptors@.take(n as int) =~= header.descriptors@);
            lemma_layout_from_descs(slots@, header.descriptors@, header.hash_length as int);
        }
        CloneOutput { data: existing, slots, hash_length: header.hash_length }
    }
}

/// A slot list mirroring a well-formed descriptor table — one slot per
/// descriptor, placed at the running total of the sizes before it — is a
/// well-formed layout whose total is the table's.
proof fn lemma_layout_from_descs(
    slots: Seq<TargetSlot>,
    descs: Seq<crate::archive::SourceChunkDesc>,
    hl: int,
)
    requires
        slots.len() == descs.len(),
        forall|k: int| 0 <= k < descs.len() ==> (#[trigger] descs[k]).size >= 1,
        forall|k: int| 0 <= k < descs.len() ==> (#[trigger] descs[k]).hash@.len() == hl,
        descs_total_size(descs) <= usize::MAX,
        forall|k: int|
            0 <= k < slots.len() ==> {
                &&& (#[trigger] slots[k]).hash@ == descs[k].hash@
                &&& slots[k].size == descs[k].size
                &&& slots[k].offset == descs_total_size(descs.take(k))
            },
    ensures
        slots_wf(slots, hl),
        spec_target_total(slots) == descs_total_size(descs),
{
    assert forall|k: int|
        1 <= k < slots.len() implies (#[trigger] slots[k]).offset == slots[k - 1].offset + slots[k
        - 1].size by {
        assert(descs.take(k).drop_last() =~= descs.take(k - 1));
    }
    if slots.len() > 0 {
        assert(descs.take(0) =~= Seq::<crate::archive::SourceChunkDesc>::empty());
        let last = slots.len() - 1;
        assert(descs.take(last + 1) =~= descs);
        assert(descs.take(last + 1).drop_last() =~= descs.take(last));
        assert(spec_target_total(slots) == descs_total_size(descs));
    }
}

/// The decompressed size of a prefix of the descriptor table never exceeds
/// the whole table's.
pub proof fn lemma_desc_prefix_le(descs: Seq<crate::archive::SourceChunkDesc>, i: int)
    requires
        0 <= i <= descs.len(),
        forall|k: int| 0 <= k < descs.len() ==> (#[trigger] descs[k]).size >= 1,
    ensures
        descs_total_size(descs.take(i)) <= descs_total_size(descs),
        descs_total_size(descs.take(i)) >= 0,
    decreases descs.len() - i,
{
    if i == descs.len() {
        assert(descs.take(i) =~= descs);
        lemma_desc_prefix_nonneg(descs, i);
    } else {
        lemma_desc_prefix_le(descs, i + 1);
        assert(descs.take(i + 1).drop_last() =~= descs.take(i));
        lemma_desc_prefix_nonneg(descs, i);
    }
}

/// Prefix sizes are nonnegative.
proof fn lemma_desc_prefix_nonneg(descs: Seq<crate::archive::SourceChunkDesc>, i: int)
    requires
        0 <= i <= descs.len(),
        forall|k: int| 0 <= k < descs.len() ==> (#[trigger] descs[k]).size >= 1,
    ensures
        descs_total_size(descs.take(i)) >= 0,
    decreases i,
{
    if i > 0 {
        lemma_desc_prefix_nonneg(descs, i - 1);
        assert(descs.take(i).drop_last() =~= descs.take(i - 1));
    } else {
        assert(descs.take(0) =~= Seq::<crate::archive::SourceChunkDesc>::empty());
    }
}

/// Decide, for every target slot, whether its content is already in place,
/// can be reused from elsewhere in the current bytes, or must be downloaded.
/// Ties among recorded offsets are broken by the first one: content is
/// identical by hash, so any candidate is correct.
pub fn diff(slots: &Vec<TargetSlot>, index: &ChunkIndex, old_len: usize) -> (r: Vec<SlotAction>)
    requires
        index.wf(),
    ensures
        r@.len() == slots@.len(),
        forall|i: int|
            0 <= i < r@.len() ==> #[trigger] r@[i] == spec_slot_action(
                slots@[i].hash@,
                slots@[i].size as int,
                slots@[i].offset as int,
                index@,
                old_len as int,
            ),
{
    let n = slots.len();
    let mut r: Vec<SlotAction> = Vec::new();
    let mut i: usize = 0;
    while i < n
        invariant
            n == slots@.len(),
            i <= n,
            index.wf(),
            r@.len() == i,
            forall|k: int|
                0 <= k < i ==> #[trigger] r@[k] == spec_slot_action(
                    slots@[k].hash@,
                    slots@[k].size as int,
                    slots@[k].offset as int,
                    index@,
                    old_len as int,
                ),
        decreases n - i,
    {
        let slot = &slots[i];
        let action = match index.lookup(&slot.hash) {
            Option::None => SlotAction::Download,
            Option::Some((size, first)) => {
                if size != slot.size {
                    SlotAction::Download
                } else if index.records_at(&slot.hash, slot.offset) && slot.offset as u128
                    + slot.size as u128 <= old_len as u128 {
                    SlotAction::AlreadyInPlace
                } else if first as u128 + size as u128 <= old_len as u128 {
                    SlotAction::ReuseFrom(first)
                } else {
                    SlotAction::Download
                }
            },
        };
        proof {
            assert(action == spec_slot_action(
                slots@[i as int].hash@,
                slots@[i as int].size as int,
                slots@[i as int].offset as int,
                index@,
                old_len as int,
            ));
        }
        r.push(action);
        i = i + 1;
    }
    r
}

/// Write `bytes` into `data` at position `at`.
fn write_at(data: &mut Vec<u8>, at: usize, bytes: &[u8])
    requires
        at + bytes@.len() <= old(data)@.len(),
    ensures
        final(data)@ == splice(old(data)@, at as int, bytes@),
{
    let n = bytes.len();
    let dlen = data.len();
    let mut k: usize = 0;
    while k < n
        invariant
            n == bytes@.len(),
            k <= n,
            at + n <= dlen,
            dlen == data@.len(),
            data@.len() == old(data)@.len(),
            forall|p: int| 0 <= p < at ==> #[trigger] data@[p] == old(data)@[p],
            forall|p: int| at <= p < at + k ==> #[trigger] data@[p] == bytes@[p - at],
            forall|p: int| at + k <= p < data@.len() ==> #[trigger] data@[p] == old(data)@[p],
        decreases n - k,
    {
        let b = bytes[k];
        data[at + k] = b;
        k = k + 1;
    }
    proof {
        assert(data@ =~= splice(old(data)@, at as int, bytes@));
    }
}

/// The destination bytes after the first `upto` reorder decisions have been
/// applied to `old_data`, starting from a resize to the target length.
pub open spec fn spec_reorder(
    old_data: Seq<u8>,
    slots: Seq<TargetSlot>,
    actions: Seq<SlotAction>,
    upto: int,
) -> Seq<u8>
    decreases upto,
{
    if upto <= 0 {
        resize_seq(old_data, spec_target_total(slots))
    } else {
        let prev = spec_reorder(old_data, slots, actions, upto - 1);
        match actions[upto - 1] {
            SlotAction::ReuseFrom(o) => splice(
                prev,
                slots[upto - 1].offset as int,
                old_data.subrange(o as int, o + slots[upto - 1].size),
            ),
            _ => prev,
        }
    }
}

/// Whether a slot is still owed content after its reorder decision was
/// applied.
pub open spec fn spec_pending_after_reorder(slot: TargetSlot, action: SlotAction) -> bool {
    match action {
        SlotAction::Download => slot.pending,
        _ => false,
    }
}

/// Whether a slot takes a fed chunk: it is still owed content, carries the
/// chunk's hash and has exactly the chunk's size.
pub open spec fn slot_takes(slot: TargetSlot, h: Seq<u8>, clen: int) -> bool {
    slot.pending && slot.hash@ == h && slot.size == clen
}

/// The slots after the reorder decisions were applied: same layout, with
/// the `pending` marks of in-place and reused slots cleared.
pub open spec fn spec_slots_after_reorder(slots: Seq<TargetSlot>, actions: Seq<SlotAction>) -> Seq<TargetSlot> {
    Seq::new(
        slots.len(),
        |i: int|
            TargetSlot {
                offset: slots[i].offset,
                size: slots[i].size,
                hash: slots[i].hash,
                pending: spec_pending_after_reorder(slots[i], actions[i]),
            },
    )
}

/// The slots after a chunk with hash `h` and size `clen` was fed: same
/// layout, with the marks of the slots that took it cleared.
pub open spec fn spec_slots_after_feed(slots: Seq<TargetSlot>, h: Seq<u8>, clen: int) -> Seq<TargetSlot> {
    Seq::new(
        slots.len(),
        |i: int|
            TargetSlot {
                offset: slots[i].offset,
                size: slots[i].size,
                hash: slots[i].hash,
                pending: slots[i].pending && !slot_takes(slots[i], h, clen),
            },
    )
}

/// Whether every reuse decision reads a source range that lies within the
/// destination's current bytes.
pub open spec fn actions_in_bounds(actions: Seq<SlotAction>, slots: Seq<TargetSlot>, old_len: int) -> bool {
    forall|i: int|
        0 <= i < actions.len() ==> match #[trigger] actions[i] {
            SlotAction::ReuseFrom(o) => o + slots[i].size <= old_len,
            _ => true,
        }
}

/// Two layouts describing the same slots (only the `pending` marks may
/// differ).
pub open spec fn same_slot_meta(a: Seq<TargetSlot>, b: Seq<TargetSlot>) -> bool {
    &&& a.len() == b.len()
    &&& forall|i: int|
        0 <= i < a.len() ==> {
            &&& (#[trigger] a[i]).offset == b[i].offset
            &&& a[i].size == b[i].size
            &&& a[i].hash@ == b[i].hash@
        }
}

/// Layout well-formedness carries over to a layout with the same slots.
pub proof fn lemma_wf_from_meta(a: Seq<TargetSlot>, b: Seq<TargetSlot>, hl: int)
    requires
        slots_wf(a, hl),
        same_slot_meta(a, b),
    ensures
        slots_wf(b, hl),
        spec_target_total(a) == spec_target_total(b),
{
    assert forall|i: int| 0 <= i < b.len() implies (#[trigger] b[i]).size >= 1 by {
        assert(a[i].size >= 1);
    }
    assert forall|i: int| 0 <= i < b.len() implies (#[trigger] b[i]).hash@.len() == hl by {
        assert(a[i].hash@.len() == hl);
    }
    assert forall|i: int|
        1 <= i < b.len() implies (#[trigger] b[i]).offset == b[i - 1].offset + b[i - 1].size by {
        assert(a[i].offset == a[i - 1].offset + a[i - 1].size);
    }
    if b.len() > 0 {
        assert(a[0].offset == 0);
        assert(a[b.len() - 1].offset == b[b.len() - 1].offset);
    }
}

/// The reorder result depends only on the slots' places and sizes, not on
/// their `pending` marks.
pub proof fn lemma_reorder_same_meta(
    data: Seq<u8>,
    a: Seq<TargetSlot>,
    b: Seq<TargetSlot>,
    actions: Seq<SlotAction>,
    upto: int,
)
    requires
        same_slot_meta(a, b),
        upto <= a.len(),
    ensures
        spec_reorder(data, a, actions, upto) == spec_reorder(data, b, actions, upto),
        spec_target_total(a) == spec_target_total(b),
    decreases upto,
{
    if a.len() > 0 {
        assert(a[a.len() - 1].offset == b[a.len() - 1].offset);
        assert(a[a.len() - 1].size == b[a.len() - 1].size);
    }
    if upto > 0 {
        lemma_reorder_same_meta(data, a, b, actions, upto - 1);
        assert(a[upto - 1].offset == b[upto - 1].offset);
        assert(a[upto - 1].size == b[upto - 1].size);
    }
}

impl CloneOutput {
    /// Turn the destination's current bytes into the target layout: resize
    /// to the target length and copy every reusable chunk into its slot.
    /// Displaced bytes are read from a staging copy taken before any write,
    /// so move cycles cannot destroy content that is still needed.  Slots
    /// found in place or filled from local content are no longer owed.
    pub fn reorder_in_place(&mut self, actions: &Vec<SlotAction>)
        requires
            old(self).wf(),
            actions@.len() == old(self).slots@.len(),
            actions_in_bounds(actions@, old(self).slots@, old(self).data@.len() as int),
        ensures
            final(self).wf(),
            final(self).sized(),
            final(self).hash_length == old(self).hash_length,
            same_slot_meta(old(self).slots@, final(self).slots@),
            forall|i: int|
                0 <= i < final(self).slots@.len() ==> (#[trigger] final(self).slots@[i]).pending
                    == spec_pending_after_reorder(old(self).slots@[i], actions@[i]),
            final(self).slots@ == spec_slots_after_reorder(old(self).slots@, actions@),
            final(self).data@ == spec_reorder(
                old(self).data@,
                old(self).slots@,
                actions@,
                actions@.len() as int,
            ),
    {
        let ghost old_data = self.data@;
        let ghost old_slots = self.slots@;
        let n = self.slots.len();
        let total: usize = if n == 0 {
            0
        } else {
            let last = &self.slots[n - 1];
            last.offset + last.size
        };
        proof {
            assert(total == spec_target_total(old_slots));
        }
        // staging copy: every displaced byte is read from here, never from
        // the partially overwritten destination
        let staged = copy_bytes(&self.data);
        let staged_len = staged.len();
        self.data.resize(total, 0u8);
        proof {
            if total <= old_data.len() {
                assert(self.data@ =~= resize_seq(old_data, total as int));
            } else {
                assert forall|p: int| old_data.len() <= p < total implies self.data@[p] == 0u8 by {
                    assert(vstd::pervasive::cloned::<u8>(0u8, self.data@[p]));
                }
                assert(self.data@ =~= resize_seq(old_data, total as int));
            }
        }
        let mut i: usize = 0;
        while i < n
            invariant
                n == self.slots@.len(),
                i <= n,
                actions@.len() == n,
                staged@ == old_data,
                staged_len == staged@.len(),
                old_slots == old(self).slots@,
                old_data == old(self).data@,
                self.hash_length == old(self).hash_length,
                slots_wf(old_slots, self.hash_length as int),
                same_slot_meta(old_slots, self.slots@),
                total == spec_target_total(old_slots),
                self.data@.len() == total,
                actions_in_bounds(actions@, old_slots, old_data.len() as int),
                forall|k: int|
                    0 <= k < i ==> #[trigger] self.slots@[k] == (TargetSlot {
                        offset: old_slots[k].offset,
                        size: old_slots[k].size,
                        hash: old_slots[k].hash,
                        pending: spec_pending_after_reorder(old_slots[k], actions@[k]),
                    }),
                forall|k: int| i <= k < n ==> #[trigger] self.slots@[k] == old_slots[k],
                self.data@ == spec_reorder(old_data, old_slots, actions@, i as int),
            decreases n - i,
        {
            proof {
                lemma_wf_from_meta(old_slots, self.slots@, self.hash_length as int);
                lemma_slot_end_le_total(old_slots, self.hash_length as int, i as int);
            }
            let action = actions[i];
            match action {
                SlotAction::ReuseFrom(o) => {
                    let offset = self.slots[i].offset;
                    let size = self.slots[i].size;
                    proof {
                        assert(o + size <= staged_len);
                    }
                    write_at(&mut self.data, offset, &staged[o..o + size]);
                    let slot = &mut self.slots[i];
                    slot.pending = false;
                    proof {
                        assert(staged@.subrange(o as int, (o + size) as int) == old_data.subrange(
                            o as int,
                            o + old_slots[i as int].size,
                        ));
                        assert(self.data@ == spec_reorder(old_data, old_slots, actions@, i + 1));
                        assert(same_slot_meta(old_slots, self.slots@));
                    }
                },
                SlotAction::AlreadyInPlace => {
                    let slot = &mut self.slots[i];
                    slot.pending = false;
                    proof {
                        assert(self.data@ == spec_reorder(old_data, old_slots, actions@, i + 1));
                        assert(same_slot_meta(old_slots, self.slots@));
                    }
                },
                SlotAction::Download => {
                    proof {
                        assert(self.data@ == spec_reorder(old_data, old_slots, actions@, i + 1));
                    }
                },
            }
            i = i + 1;
        }
        proof {
            lemma_wf_from_meta(old_slots, self.slots@, self.hash_length as int);
            assert(self.slots@ =~= spec_slots_after_reorder(old_slots, actions@));
        }
    }
}

/// The destination bytes after a chunk was fed to the first `upto` slots.
pub open spec fn spec_feed_data(
    data: Seq<u8>,
    slots: Seq<TargetSlot>,
    h: Seq<u8>,
    chunk: Seq<u8>,
    upto: int,
) -> Seq<u8>
    decreases upto,
{
    if upto <= 0 {
        data
    } else {
        let prev = spec_feed_data(data, slots, h, chunk, upto - 1);
        if slot_takes(slots[upto - 1], h, chunk.len() as int) {
            splice(prev, slots[upto - 1].offset as int, chunk)
        } else {
            prev
        }
    }
}

/// How many of the first `upto` slots take a chunk with hash `h` and size
/// `clen`.
pub open spec fn spec_feed_count(slots: Seq<TargetSlot>, h: Seq<u8>, clen: int, upto: int) -> int
    decreases upto,
{
    if upto <= 0 {
        0
    } else {
        spec_feed_count(slots, h, clen, upto - 1) + if slot_takes(slots[upto - 1], h, clen) {
            1int
        } else {
            0int
        }
    }
}

impl CloneOutput {
    /// Write a chunk's bytes to every slot still owed content under its
    /// hash, and report how many bytes were actually written — zero when
    /// every destination already held correct content, so progress counters
    /// are not inflated.
    #[verifier::rlimit(40)]
    pub fn feed(&mut self, hash: &Vec<u8>, chunk: &Vec<u8>) -> (written: usize)
        requires
            old(self).wf(),
            old(self).sized(),
        ensures
            final(self).wf(),
            final(self).sized(),
            final(self).hash_length == old(self).hash_length,
            same_slot_meta(old(self).slots@, final(self).slots@),
            forall|i: int|
                0 <= i < final(self).slots@.len() ==> (#[trigger] final(self).slots@[i]).pending
                    == (old(self).slots@[i].pending && !slot_takes(
                    old(self).slots@[i],
                    hash@,
                    chunk@.len() as int,
                )),
            final(self).slots@ == spec_slots_after_feed(
                old(self).slots@,
                hash@,
                chunk@.len() as int,
            ),
            final(self).data@ == spec_feed_data(
                old(self).data@,
                old(self).slots@,
                hash@,
                chunk@,
                old(self).slots@.len() as int,
            ),
            written == spec_feed_count(
                old(self).slots@,
                hash@,
                chunk@.len() as int,
                old(self).slots@.len() as int,
            ) * chunk@.len(),
    {
        let ghost old_data = self.data@;
        let ghost old_slots = self.slots@;
        let ghost clen = chunk@.len() as int;
        let n = self.slots.len();
        let mut written: usize = 0;
        let mut i: usize = 0;
        while i < n
            invariant
                n == self.slots@.len(),
                i <= n,
                old_slots == old(self).slots@,
                old_data == old(self).data@,
                self.hash_length == old(self).hash_length,
                clen == chunk@.len() as int,
                slots_wf(old_slots, self.hash_length as int),
                same_slot_meta(old_slots, self.slots@),
                old_data.len() == spec_target_total(old_slots),
                self.data@.len() == old_data.len(),
                forall|k: int|
                    0 <= k < i ==> #[trigger] self.slots@[k] == (TargetSlot {
                        offset: old_slots[k].offset,
                        size: old_slots[k].size,
                        hash: old_slots[k].hash,
                        pending: old_slots[k].pending && !slot_takes(old_slots[k], hash@, clen),
                    }),
                forall|k: int| i <= k < n ==> #[trigger] self.slots@[k] == old_slots[k],
                self.data@ == spec_feed_data(old_data, old_slots, hash@, chunk@, i as int),
                written == spec_feed_count(old_slots, hash@, clen, i as int) * clen,
                i == 0 ==> written == 0,
                i >= 1 ==> written <= old_slots[i - 1].offset + old_slots[i - 1].size,
            decreases n - i,
        {
            proof {
                lemma_wf_from_meta(old_slots, self.slots@, self.hash_length as int);
                lemma_slot_end_le_total(old_slots, self.hash_length as int, i as int);
            }
            let ghost count_pre = spec_feed_count(old_slots, hash@, clen, i as int);
            let takes = self.slots[i].pending && self.slots[i].size == chunk.len() && bytes_eq(
                &self.slots[i].hash,
                hash,
            );
            proof {
                assert(takes == slot_takes(old_slots[i as int], hash@, clen));
            }
            if takes {
                let offset = self.slots[i].offset;
                write_at(&mut self.data, offset, chunk.as_slice());
                let slot = &mut self.slots[i];
                slot.pending = false;
                written = written + chunk.len();
                proof {
                    assert(self.data@ == spec_feed_data(old_data, old_slots, hash@, chunk@, i + 1));
                    assert(same_slot_meta(old_slots, self.slots@));
                    assert((count_pre + 1) * clen == count_pre * clen + clen) by (nonlinear_arith);
                }
            } else {
                let slot = &self.slots[i];
                proof {
                    assert(self.data@ == spec_feed_data(old_data, old_slots, hash@, chunk@, i + 1));
                    if i >= 1 {
                        assert(old_slots[i as int].offset == old_slots[i - 1].offset + old_slots[i
                            - 1].size);
                    }
                }
            }
            i = i + 1;
        }
        proof {
            lemma_wf_from_meta(old_slots, self.slots@, self.hash_length as int);
            assert(self.slots@ =~= spec_slots_after_feed(old_slots, hash@, clen));
        }
        written
    }

    /// Accept one fetched, decompressed chunk destined for the slots that
    /// carry `expected_hash`.  The chunk's hash is recomputed first: on a
    /// mismatch the chunk is rejected with an integrity error and nothing is
    /// written.
    pub fn accept_chunk(&mut self, expected_hash: &Vec<u8>, chunk: &Vec<u8>) -> (r: Result<
        usize,
        SyncError,
    >)
        requires
            old(self).wf(),
            old(self).sized(),
        ensures
            final(self).wf(),
            final(self).sized(),
            final(self).hash_length == old(self).hash_length,
            same_slot_meta(old(self).slots@, final(self).slots@),
            r matches Err(e) ==> {
                &&& e == SyncError::Integrity
                &&& trunc_hash(chunk@, old(self).hash_length as int) != expected_hash@
                &&& final(self).data@ == old(self).data@
                &&& final(self).slots@ == old(self).slots@
            },
            r matches Ok(written) ==> {
                &&& trunc_hash(chunk@, old(self).hash_length as int) == expected_hash@
                &&& final(self).data@ == spec_feed_data(
                    old(self).data@,
                    old(self).slots@,
                    expected_hash@,
                    chunk@,
                    old(self).slots@.len() as int,
                )
                &&& forall|i: int|
                    0 <= i < final(self).slots@.len()
                        ==> (#[trigger] final(self).slots@[i]).pending
                        == (old(self).slots@[i].pending && !slot_takes(
                        old(self).slots@[i],
                        expected_hash@,
                        chunk@.len() as int,
                    ))
                &&& written == spec_feed_count(
                    old(self).slots@,
                    expected_hash@,
                    chunk@.len() as int,
                    old(self).slots@.len() as int,
                ) * chunk@.len()
            },
            (r matches Err(e)) <==> trunc_hash(chunk@, old(self).hash_length as int)
                != expected_hash@,
    {
        let computed = chunk_hash(chunk.as_slice(), self.hash_length);
        if !bytes_eq(&computed, expected_hash) {
            return Err(SyncError::Integrity);
        }
        Ok(self.feed(expected_hash, chunk))
    }

    /// The download set: the first slot of every distinct hash that is still
    /// owed content.  Fetching one chunk per returned slot completes the
    /// output.
    pub fn missing_chunks(&self) -> (r: Vec<usize>)
        ensures
            r@.map_values(|u: usize| u as int) == spec_missing(self.slots@, self.slots@.len() as int),
    {
        let n = self.slots.len();
        let mut r: Vec<usize> = Vec::new();
        let mut i: usize = 0;
        proof {
            assert(r@.map_values(|u: usize| u as int) =~= spec_missing(self.slots@, 0));
        }
        while i < n
            invariant
                n == self.slots@.len(),
                i <= n,
                r@.map_values(|u: usize| u as int) == spec_missing(self.slots@, i as int),
            decreases n - i,
        {
            if self.slots[i].pending {
                let mut seen = false;
                let mut k: usize = 0;
                while k < i
                    invariant
                        i < n,
                        n == self.slots@.len(),
                        k <= i,
                        seen == (exists|t: int|
                            0 <= t < k && (#[trigger] self.slots@[t]).pending && self.slots@[t].hash@
                                == self.slots@[i as int].hash@),
                    decreases i - k,
                {
                    if self.slots[k].pending && bytes_eq(&self.slots[k].hash, &self.slots[i].hash) {
                        seen = true;
                    }
                    k = k + 1;
                }
                if !seen {
                    r.push(i);
                    proof {
                        assert(r@.map_values(|u: usize| u as int) =~= spec_missing(
                            self.slots@,
                            i + 1,
                        ));
                    }
                } else {
                    proof {
                        assert(r@.map_values(|u: usize| u as int) =~= spec_missing(
                            self.slots@,
                            i + 1,
                        ));
                    }
                }
            } else {
                proof {
                    assert(r@.map_values(|u: usize| u as int) =~= spec_missing(self.slots@, i + 1));
                }
            }
            i = i + 1;
        }
        r
    }
}

/// The slots a download must cover: among the first `upto` slots, each slot
/// that is still owed content and whose hash no earlier owed slot carries.
pub open spec fn spec_missing(slots: Seq<TargetSlot>, upto: int) -> Seq<int>
    decreases upto,
{
    if upto <= 0 {
        Seq::empty()
    } else {
        let prev = spec_missing(slots, upto - 1);
        if slots[upto - 1].pending && !(exists|k: int|
            0 <= k < upto - 1 && (#[trigger] slots[k]).pending && slots[k].hash@ == slots[upto
                - 1].hash@) {
            prev.push(upto - 1)
        } else {
            prev
        }
    }
}

} // verus!
