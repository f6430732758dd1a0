//! Per-file synchronization pipeline.
//!
//! One file's sync walks fixed phases: fetch the header, scan local bytes,
//! diff against the target, reorder in place, fetch what is missing, verify
//! and write.  The phase step is explicit so a driver can check a
//! cooperative shutdown signal at each boundary; fetch completion order does
//! not matter, since every write is keyed by chunk identity, never by
//! arrival order.

use vstd::prelude::*;

use crate::archive::{header_wf, ArchiveHeader};
use crate::chunker::{scan_chunks, scan_matches, ChunkerConfig, ScannedChunk};
use crate::clone::{
    diff, lemma_reorder_same_meta, spec_missing, spec_reorder, spec_slot_action, spec_target_total,
    CloneOutput, SlotAction,
};
use crate::index::{build_index, idx_wf, scan_index_rel, ChunkIndex, IndexEntryV};

verus! {

/// Where a file's sync stands.
#[derive(Clone, Copy, Debug, PartialEq, Eq, Structural)]
pub enum SyncPhase {
    Init,
    FetchHeader,
    ScanLocal,
    Diff,
    Reorder,
    Fetch,
    Verify,
    Done,
    Failed,
    /// Cooperative shutdown; the file is resumable, not failed.
    Stopped,
}

/// What the driver reports at a phase boundary.
#[derive(Clone, Copy, Debug, PartialEq, Eq, Structural)]
pub enum PhaseEvent {
    /// The phase's work completed.
    Advanced,
    /// The phase's work failed; the file is left resumable.
    Failed,
    /// Cooperative shutdown was requested.
    Cancelled,
}

/// The phase that follows `p` on `e`.
pub open spec fn spec_next_phase(p: SyncPhase, e: PhaseEvent) -> SyncPhase {
    match e {
        PhaseEvent::Advanced => match p {
            SyncPhase::Init => SyncPhase::FetchHeader,
            SyncPhase::FetchHeader => SyncPhase::ScanLocal,
            SyncPhase::ScanLocal => SyncPhase::Diff,
            SyncPhase::Diff => SyncPhase::Reorder,
            SyncPhase::Reorder => SyncPhase::Fetch,
            SyncPhase::Fetch => SyncPhase::Verify,
            SyncPhase::Verify => SyncPhase::Done,
            SyncPhase::Done => SyncPhase::Done,
            SyncPhase::Failed => SyncPhase::Failed,
            SyncPhase::Stopped => SyncPhase::Stopped,
        },
        PhaseEvent::Failed => SyncPhase::Failed,
        PhaseEvent::Cancelled => SyncPhase::Stopped,
    }
}

/// Advance the per-file state machine one step.
pub fn next_phase(p: SyncPhase, e: PhaseEvent) -> (r: SyncPhase)
    ensures
        r == spec_next_phase(p, e),
{
    match e {
        PhaseEvent::Advanced => match p {
            SyncPhase::Init => SyncPhase::FetchHeader,
            SyncPhase::FetchHeader => SyncPhase::ScanLocal,
            SyncPhase::ScanLocal => SyncPhase::Diff,
            SyncPhase::Diff => SyncPhase::Reorder,
            SyncPhase::Reorder => SyncPhase::Fetch,
            SyncPhase::Fetch => SyncPhase::Verify,
            SyncPhase::Verify => SyncPhase::Done,
            SyncPhase::Done => SyncPhase::Done,
            SyncPhase::Failed => SyncPhase::Failed,
            SyncPhase::Stopped => SyncPhase::Stopped,
        },
        PhaseEvent::Failed => SyncPhase::Failed,
        PhaseEvent::Cancelled => SyncPhase::Stopped,
    }
}

/// What scanning, diffing and reordering left for the fetch phase.
pub struct SyncPlan {
    /// The destination, reordered to the target layout.
    pub output: CloneOutput,
    /// The per-slot decisions the diff made.
    pub actions: Vec<SlotAction>,
    /// Slot indices whose chunks must be fetched: one per distinct missing
    /// hash.
    pub downloads: Vec<usize>,
}

/// Scan the destination's current bytes, diff them against the target layout
/// of a validated header, and reorder them in place.  With a fixed-size
/// chunker the scan runs here; a content-defined scan is an external
/// concern, and without one no local content is reused.
pub fn prepare_file_sync(existing: Vec<u8>, header: &ArchiveHeader) -> (r: SyncPlan)
    requires
        header_wf(header),
    ensures
        r.output.wf(),
        r.output.sized(),
        r.output.hash_length == header.hash_length,
        r.output.slots@.len() == header.descriptors@.len(),
        forall|i: int|
            0 <= i < r.output.slots@.len() ==> {
                &&& (#[trigger] r.output.slots@[i]).hash@ == header.descriptors@[i].hash@
                &&& r.output.slots@[i].size == header.descriptors@[i].size
            },
        spec_target_total(r.output.slots@) == header.source_size,
        r.actions@.len() == r.output.slots@.len(),
        forall|i: int|
            0 <= i < r.output.slots@.len() ==> (#[trigger] r.output.slots@[i]).pending
                == (r.actions@[i] is Download),
        r.output.data@ == spec_reorder(
            existing@,
            r.output.slots@,
            r.actions@,
            r.actions@.len() as int,
        ),
        r.downloads@.map_values(|u: usize| u as int) == spec_missing(
            r.output.slots@,
            r.output.slots@.len() as int,
        ),
        header.chunker matches ChunkerConfig::FixedSize(cs) ==> exists|
            scan: Seq<ScannedChunk>,
            idx: Seq<IndexEntryV>,
        | {
            &&& scan_matches(scan, existing@, cs as int, header.hash_length as int)
            &&& idx_wf(idx)
            &&& scan_index_rel(scan, idx)
            &&& forall|i: int|
                0 <= i < r.actions@.len() ==> #[trigger] r.actions@[i] == spec_slot_action(
                    r.output.slots@[i].hash@,
                    r.output.slots@[i].size as int,
                    r.output.slots@[i].offset as int,
                    idx,
                    existing@.len() as int,
                )
        },
        header.chunker is ContentDefined ==> forall|i: int|
            0 <= i < r.actions@.len() ==> #[trigger] r.actions@[i] == SlotAction::Download,
{
    let ghost old_bytes = existing@;
    let old_len = existing.len();
    let ghost mut scan_witness: Seq<ScannedChunk> = Seq::empty();
    let index: ChunkIndex;
    match header.chunker {
        ChunkerConfig::FixedSize(cs) => {
            let scan = scan_chunks(existing.as_slice(), cs, header.hash_length);
            proof {
                scan_witness = scan@;
            }
            index = build_index(&scan);
        },
        ChunkerConfig::ContentDefined => {
            index = ChunkIndex::new_empty();
        },
    }
    let mut output = CloneOutput::from_bytes(existing, header);
    let actions = diff(&output.slots, &index, old_len);
    proof {
        assert forall|i: int|
            0 <= i < actions@.len() implies match #[trigger] actions@[i] {
            SlotAction::ReuseFrom(o) => o + output.slots@[i].size <= output.data@.len(),
            _ => true,
        } by {
            assert(actions@[i] == spec_slot_action(
                output.slots@[i].hash@,
                output.slots@[i].size as int,
                output.slots@[i].offset as int,
                index@,
                old_len as int,
            ));
        }
    }
    let ghost slots_before = output.slots@;
    output.reorder_in_place(&actions);
    let downloads = output.missing_chunks();
    proof {
        lemma_reorder_same_meta(
            old_bytes,
            slots_before,
            output.slots@,
            actions@,
            actions@.len() as int,
        );
        assert forall|i: int|
            0 <= i < actions@.len() implies #[trigger] actions@[i] == spec_slot_action(
            output.slots@[i].hash@,
            output.slots@[i].size as int,
            output.slots@[i].offset as int,
            index@,
            old_bytes.len() as int,
        ) by {
            assert(output.slots@[i].hash@ == slots_before[i].hash@);
            assert(output.slots@[i].size == slots_before[i].size);
            assert(output.slots@[i].offset == slots_before[i].offset);
        }
        match header.chunker {
            ChunkerConfig::FixedSize(cs) => {
                let chosen_scan = scan_witness;
                let chosen_idx = index@;
                assert(scan_matches(chosen_scan, old_bytes, cs as int, header.hash_length as int));
                assert(idx_wf(chosen_idx));
                assert(scan_index_rel(chosen_scan, chosen_idx));
            },
            ChunkerConfig::ContentDefined => {
                assert(index@ == Seq::<IndexEntryV>::empty());
            },
        }
    }
    SyncPlan { output, actions, downloads }
}

} // verus!
