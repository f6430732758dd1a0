//! Progress bookkeeping.
//!
//! The engine reports its work through a plain counter-and-stage state: a
//! current amount, a maximum, and the stage the run is in.  A front-end owns
//! one such state per run, shares it behind whatever synchronization it
//! likes, and polls it; nothing of the engine depends on how it is
//! rendered.

use vstd::prelude::*;

verus! {

/// The coarse stages a run moves through.
#[derive(Clone, Copy, Debug, PartialEq, Eq, Structural)]
pub enum ProgressStage {
    Idle,
    Start,
    FetchingMetadata,
    UpdatingUpdater,
    CheckingFiles,
    DownloadingUpdates,
    Play,
}

/// The stage numbered `value`; unknown numbers fall back to `Idle`.
pub open spec fn spec_stage_from(value: usize) -> ProgressStage {
    if value == 1 {
        ProgressStage::Start
    } else if value == 2 {
        ProgressStage::FetchingMetadata
    } else if value == 3 {
        ProgressStage::UpdatingUpdater
    } else if value == 4 {
        ProgressStage::CheckingFiles
    } else if value == 5 {
        ProgressStage::DownloadingUpdates
    } else if value == 6 {
        ProgressStage::Play
    } else {
        ProgressStage::Idle
    }
}

impl From<usize> for ProgressStage {
    fn from(value: usize) -> (r: ProgressStage) {
        if value == 1 {
            ProgressStage::Start
        } else if value == 2 {
            ProgressStage::FetchingMetadata
        } else if value == 3 {
            ProgressStage::UpdatingUpdater
        } else if value == 4 {
            ProgressStage::CheckingFiles
        } else if value == 5 {
            ProgressStage::DownloadingUpdates
        } else if value == 6 {
            ProgressStage::Play
        } else {
            ProgressStage::Idle
        }
    }
}

impl vstd::std_specs::convert::FromSpecImpl<usize> for ProgressStage {
    open spec fn obeys_from_spec() -> bool {
        true
    }

    open spec fn from_spec(value: usize) -> ProgressStage {
        spec_stage_from(value)
    }
}

/// Progress of one run: a current amount, its maximum, and the stage.
pub struct ProgressState {
    current_progress: u64,
    max_progress: u64,
    stage: ProgressStage,
}

impl ProgressState {
    /// The current amount.
    pub closed spec fn spec_current(&self) -> u64 {
        self.current_progress
    }

    /// The maximum amount.
    pub closed spec fn spec_max(&self) -> u64 {
        self.max_progress
    }

    /// The stage.
    pub closed spec fn spec_stage(&self) -> ProgressStage {
        self.stage
    }

    pub fn max_progress(&self) -> (r: u64)
        ensures
            r == self.spec_max(),
    {
        self.max_progress
    }

    pub fn current_progress(&self) -> (r: u64)
        ensures
            r == self.spec_current(),
    {
        self.current_progress
    }

    pub fn set_max_progress(&mut self, val: u64)
        ensures
            final(self).spec_max() == val,
            final(self).spec_current() == old(self).spec_current(),
            final(self).spec_stage() == old(self).spec_stage(),
    {
        self.max_progress = val;
    }

    pub fn set_current_progress(&mut self, val: u64)
        ensures
            final(self).spec_current() == val,
            final(self).spec_max() == old(self).spec_max(),
            final(self).spec_stage() == old(self).spec_stage(),
    {
        self.current_progress = val;
    }

    /// Advance the current amount by `val`, stopping at the counter's top
    /// instead of wrapping.
    pub fn increment_progress(&mut self, val: u64)
        ensures
            final(self).spec_current() == if old(self).spec_current() + val <= u64::MAX {
                old(self).spec_current() + val
            } else {
                u64::MAX as int
            },
            final(self).spec_max() == old(self).spec_max(),
            final(self).spec_stage() == old(self).spec_stage(),
    {
        if self.current_progress <= u64::MAX - val {
            self.current_progress = self.current_progress + val;
        } else {
            self.current_progress = u64::MAX;
        }
    }

    pub fn set_stage(&mut self, val: ProgressStage)
        ensures
            final(self).spec_stage() == val,
            final(self).spec_current() == old(self).spec_current(),
            final(self).spec_max() == old(self).spec_max(),
    {
        self.stage = val;
    }

    pub fn current_stage(&self) -> (r: ProgressStage)
        ensures
            r == self.spec_stage(),
    {
        self.stage
    }
}

impl Default for ProgressState {
    /// A fresh run's progress: nothing counted yet, stage `Start`.
    fn default() -> (r: ProgressState)
        ensures
            r.spec_current() == 0,
            r.spec_max() == 0,
            r.spec_stage() == ProgressStage::Start,
    {
        ProgressState { current_progress: 0, max_progress: 0, stage: ProgressStage::Start }
    }
}

/// Progress sink a front-end implements to observe a clone operation.
pub trait Updater {
    fn set_max_progress(&mut self, total: usize);

    fn increment_progress(&mut self, amount: usize);
}

impl Updater for ProgressState {
    fn set_max_progress(&mut self, total: usize) {
        ProgressState::set_max_progress(self, total as u64);
    }

    fn increment_progress(&mut self, amount: usize) {
        ProgressState::increment_progress(self, amount as u64);
    }
}

} // verus!
