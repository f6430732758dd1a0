//! Self-update rename dance.
//!
//! A running executable cannot be replaced or deleted on common platforms.
//! The new binary is therefore downloaded to a staging path first; then any
//! stale backup of an earlier interrupted run is deleted, the live binary is
//! renamed to the backup name, and the staged binary is renamed into the
//! live path.  The plan below fixes that order, and the proof shows that at
//! most one intermediate state leaves the live path without a binary.  The
//! process-level work — performing the renames, spawning the new binary,
//! exiting — stays with the caller, as does filtering the restart arguments
//! so a forced recheck flag cannot loop forever.

use vstd::prelude::*;
use vstd::string::StrSliceExecFns;

verus! {

/// What the three paths of the dance currently hold, each as an abstract
/// binary identity: the live executable path, its backup path, and the
/// staging path the new binary was downloaded to.
#[derive(Clone, Copy, Debug, PartialEq, Eq, Structural)]
pub struct SelfUpdateFs {
    pub live: Option<u64>,
    pub backup: Option<u64>,
    pub staged: Option<u64>,
}

/// One filesystem step of the dance.
#[derive(Clone, Copy, Debug, PartialEq, Eq, Structural)]
pub enum SelfUpdateStep {
    /// Delete the stale backup left by an earlier interrupted run.
    DeleteBackup,
    /// Rename the live binary to the backup name.
    RenameLiveToBackup,
    /// Rename the staged new binary into the live path.
    RenameStagedToLive,
}

/// The filesystem state after one step.
pub open spec fn spec_apply_step(fs: SelfUpdateFs, step: SelfUpdateStep) -> SelfUpdateFs {
    match step {
        SelfUpdateStep::DeleteBackup => SelfUpdateFs { backup: Option::None, ..fs },
        SelfUpdateStep::RenameLiveToBackup => if fs.live is Some {
            SelfUpdateFs { live: Option::None, backup: fs.live, ..fs }
        } else {
            fs
        },
        SelfUpdateStep::RenameStagedToLive => if fs.staged is Some {
            SelfUpdateFs { live: fs.staged, staged: Option::None, ..fs }
        } else {
            fs
        },
    }
}

/// The state after the first `upto` steps of a plan.
pub open spec fn spec_apply_plan(fs: SelfUpdateFs, steps: Seq<SelfUpdateStep>, upto: int) -> SelfUpdateFs
    decreases upto,
{
    if upto <= 0 {
        fs
    } else {
        spec_apply_step(spec_apply_plan(fs, steps, upto - 1), steps[upto - 1])
    }
}

/// How many of the states reached after each of the first `upto` steps have
/// no binary at the live path.
pub open spec fn spec_live_gaps(fs: SelfUpdateFs, steps: Seq<SelfUpdateStep>, upto: int) -> int
    decreases upto,
{
    if upto <= 0 {
        0
    } else {
        spec_live_gaps(fs, steps, upto - 1) + if spec_apply_plan(fs, steps, upto).live is None {
            1int
        } else {
            0int
        }
    }
}

/// The plan for a given starting state: delete a stale backup if one exists,
/// move the live binary aside if one exists, then install the staged binary.
pub open spec fn spec_plan(fs: SelfUpdateFs) -> Seq<SelfUpdateStep> {
    (if fs.backup is Some {
        seq![SelfUpdateStep::DeleteBackup]
    } else {
        Seq::empty()
    }) + (if fs.live is Some {
        seq![SelfUpdateStep::RenameLiveToBackup]
    } else {
        Seq::empty()
    }) + seq![SelfUpdateStep::RenameStagedToLive]
}

/// Lay out the filesystem steps that replace the live binary with the
/// staged one.
pub fn plan_self_update(fs: &SelfUpdateFs) -> (r: Vec<SelfUpdateStep>)
    requires
        fs.staged is Some,
    ensures
        r@ == spec_plan(*fs),
{
    let mut r: Vec<SelfUpdateStep> = Vec::new();
    if fs.backup.is_some() {
        r.push(SelfUpdateStep::DeleteBackup);
    }
    if fs.live.is_some() {
        r.push(SelfUpdateStep::RenameLiveToBackup);
    }
    r.push(SelfUpdateStep::RenameStagedToLive);
    proof {
        assert(r@ =~= spec_plan(*fs));
    }
    r
}

/// Self-update safety: running the plan deletes any stale backup, moves the
/// live binary to the backup path, installs the staged binary at the live
/// path — and at most one intermediate state has no binary at the live
/// path, so the window in which the live path is empty is minimal.
pub proof fn lemma_self_update_safety(fs: SelfUpdateFs)
    requires
        fs.staged is Some,
    ensures
        spec_apply_plan(fs, spec_plan(fs), spec_plan(fs).len() as int).live == fs.staged,
        spec_apply_plan(fs, spec_plan(fs), spec_plan(fs).len() as int).staged is None,
        fs.live is Some ==> spec_apply_plan(fs, spec_plan(fs), spec_plan(fs).len() as int).backup
            == fs.live,
        spec_live_gaps(fs, spec_plan(fs), spec_plan(fs).len() as int) <= 1,
{
    let steps = spec_plan(fs);
    let s0 = spec_apply_plan(fs, steps, 0);
    let s1 = spec_apply_plan(fs, steps, 1);
    let s2 = spec_apply_plan(fs, steps, 2);
    let s3 = spec_apply_plan(fs, steps, 3);
    assert(s0 == fs);
    assert(spec_live_gaps(fs, steps, 0) == 0);
    if fs.backup is Some {
        if fs.live is Some {
            assert(steps.len() == 3);
            assert(steps[0] == SelfUpdateStep::DeleteBackup);
            assert(steps[1] == SelfUpdateStep::RenameLiveToBackup);
            assert(steps[2] == SelfUpdateStep::RenameStagedToLive);
            assert(s1 == spec_apply_step(s0, steps[0]));
            assert(s2 == spec_apply_step(s1, steps[1]));
            assert(s3 == spec_apply_step(s2, steps[2]));
            assert(spec_live_gaps(fs, steps, 3) == spec_live_gaps(fs, steps, 2) + if s3.live
                is None { 1int } else { 0int });
            assert(spec_live_gaps(fs, steps, 2) == spec_live_gaps(fs, steps, 1) + if s2.live
                is None { 1int } else { 0int });
            assert(spec_live_gaps(fs, steps, 1) == if s1.live is None { 1int } else { 0int });
        } else {
            assert(steps.len() == 2);
            assert(steps[0] == SelfUpdateStep::DeleteBackup);
            assert(steps[1] == SelfUpdateStep::RenameStagedToLive);
            assert(s1 == spec_apply_step(s0, steps[0]));
            assert(s2 == spec_apply_step(s1, steps[1]));
            assert(spec_live_gaps(fs, steps, 2) == spec_live_gaps(fs, steps, 1) + if s2.live
                is None { 1int } else { 0int });
            assert(spec_live_gaps(fs, steps, 1) == if s1.live is None { 1int } else { 0int });
        }
    } else {
        if fs.live is Some {
            assert(steps.len() == 2);
            assert(steps[0] == SelfUpdateStep::RenameLiveToBackup);
            assert(steps[1] == SelfUpdateStep::RenameStagedToLive);
            assert(s1 == spec_apply_step(s0, steps[0]));
            assert(s2 == spec_apply_step(s1, steps[1]));
            assert(spec_live_gaps(fs, steps, 2) == spec_live_gaps(fs, steps, 1) + if s2.live
                is None { 1int } else { 0int });
            assert(spec_live_gaps(fs, steps, 1) == if s1.live is None { 1int } else { 0int });
        } else {
            assert(steps.len() == 1);
            assert(steps[0] == SelfUpdateStep::RenameStagedToLive);
            assert(s1 == spec_apply_step(s0, steps[0]));
            assert(spec_live_gaps(fs, steps, 1) == if s1.live is None { 1int } else { 0int });
        }
    }
}

/// Whether `sub` occurs contiguously in `s`.
pub open spec fn has_sub(s: Seq<char>, sub: Seq<char>) -> bool {
    exists|i: int| 0 <= i && i + sub.len() <= s.len() && #[trigger] s.subrange(i, i + sub.len())
        == sub
}

/// Whether the string `sub` occurs in `s`.
pub fn contains_chars(s: &str, sub: &str) -> (r: bool)
    ensures
        r == has_sub(s@, sub@),
{
    let n = s.unicode_len();
    let m = sub.unicode_len();
    if m > n {
        proof {
            assert(!has_sub(s@, sub@));
        }
        return false;
    }
    let mut i: usize = 0;
    while i <= n - m
        invariant
            n == s@.len(),
            m == sub@.len(),
            m <= n,
            i <= n - m + 1,
            forall|t: int| 0 <= t < i ==> #[trigger] s@.subrange(t, t + m) != sub@,
        decreases n - m + 1 - i,
    {
        let mut j: usize = 0;
        let mut matched = true;
        while j < m
            invariant
                n == s@.len(),
                m == sub@.len(),
                m <= n,
                i <= n - m,
                j <= m,
                matched <==> (forall|t: int| 0 <= t < j ==> s@[i + t] == sub@[t]),
            decreases m - j,
        {
            if s.get_char(i + j) != sub.get_char(j) {
                matched = false;
                proof {
                    assert(s@[i as int + j] != sub@[j as int]);
                }
                j = m;
            } else {
                proof {
                    assert(s@[i as int + j] == sub@[j as int]);
                }
                j = j + 1;
            }
        }
        if matched {
            proof {
                assert(s@.subrange(i as int, i + m) =~= sub@);
            }
            return true;
        }
        proof {
            assert(s@.subrange(i as int, i + m) != sub@);
        }
        i = i + 1;
    }
    proof {
        assert(forall|t: int| 0 <= t && t + m <= n ==> #[trigger] s@.subrange(t, t + m) != sub@);
    }
    false
}

/// Indices of the arguments kept when restarting: those in which `flag`
/// does not occur.
pub open spec fn spec_kept_args(args: Seq<String>, flag: Seq<char>, upto: int) -> Seq<int>
    decreases upto,
{
    if upto <= 0 {
        Seq::empty()
    } else {
        let prev = spec_kept_args(args, flag, upto - 1);
        if has_sub(args[upto - 1]@, flag) {
            prev
        } else {
            prev.push(upto - 1)
        }
    }
}

/// The arguments to hand the restarted process: the original ones, in
/// order, without any argument in which `flag` occurs — so a flag that
/// forces a recheck cannot make the restarted process loop forever.
pub fn filter_restart_args(args: &Vec<String>, flag: &str) -> (r: Vec<String>)
    ensures
        r@.len() == spec_kept_args(args@, flag@, args@.len() as int).len(),
        forall|j: int|
            0 <= j < r@.len() ==> (#[trigger] r@[j])@ == args@[spec_kept_args(
                args@,
                flag@,
                args@.len() as int,
            )[j]]@,
{
    let n = args.len();
    let mut r: Vec<String> = Vec::new();
    let mut i: usize = 0;
    while i < n
        invariant
            n == args@.len(),
            i <= n,
            r@.len() == spec_kept_args(args@, flag@, i as int).len(),
            forall|j: int|
                0 <= j < r@.len() ==> (#[trigger] r@[j])@ == args@[spec_kept_args(
                    args@,
                    flag@,
                    i as int,
                )[j]]@,
        decreases n - i,
    {
        let ghost before = spec_kept_args(args@, flag@, i as int);
        let ghost after = spec_kept_args(args@, flag@, i + 1);
        if !contains_chars(args[i].as_str(), flag) {
            r.push(args[i].clone());
            proof {
                assert(after == before.push(i as int));
            }
        } else {
            proof {
                assert(after == before);
            }
        }
        i = i + 1;
    }
    r
}

} // verus!
