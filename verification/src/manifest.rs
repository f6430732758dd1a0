//! Manifest comparison.
//!
//! A remote manifest lists every file with its whole-file hash and size; the
//! local manifest mirrors what was last observed.  Comparing the two lists
//! shortlists the files worth any chunk-level work: a file is skipped only
//! when the local manifest knows its path with the same hash and the file is
//! actually present on disk.  The caller reads and writes the documents;
//! only their diff semantics live here.

use vstd::prelude::*;

use crate::hash::bytes_eq;

verus! {

/// One file as the remote store announces it.
#[derive(Clone, Debug)]
pub struct RemoteManifestFileEntry {
    /// Path of the archive below the remote base URL.
    pub path: String,
    /// Path of the reassembled file below the output directory.
    pub source_path: String,
    /// Whole-file hash of the reassembled file.
    pub source_hash: Vec<u8>,
    /// Size of the reassembled file.
    pub source_size: usize,
}

/// The remote manifest: the updater itself, then every other file.
#[derive(Clone, Debug)]
pub struct RemoteManifest {
    pub version: usize,
    pub updater: RemoteManifestFileEntry,
    pub files: Vec<RemoteManifestFileEntry>,
}

/// One file as last observed locally.
#[derive(Clone, Debug)]
pub struct LocalManifestFileEntry {
    pub path: String,
    pub hash: Vec<u8>,
    pub size: usize,
}

/// The local manifest: what the last completed run left behind.
#[derive(Clone, Debug)]
pub struct LocalManifest {
    pub version: usize,
    pub updater: LocalManifestFileEntry,
    pub files: Vec<LocalManifestFileEntry>,
}

/// Version number written into freshly produced local manifests.
pub const LOCAL_MANIFEST_VERSION: usize = 1;

/// One file that must be brought up to date.
#[derive(Clone, Debug)]
pub struct FileToDownload {
    /// Path of the file below the output directory.
    pub local_path: String,
    /// Path of its archive below the remote base URL.
    pub remote_path: String,
}

/// Whether the local manifest lets `e` be skipped: its first entry for the
/// path carries exactly the remote hash.
pub open spec fn local_skips(files: Seq<LocalManifestFileEntry>, e: RemoteManifestFileEntry) -> bool {
    exists|i: int|
        0 <= i < files.len() && (#[trigger] files[i]).path@ == e.source_path@ && (forall|t: int|
            0 <= t < i ==> (#[trigger] files[t]).path@ != e.source_path@) && files[i].hash@
            == e.source_hash@
}

/// Whether some string of `v` reads `s`.
pub open spec fn seq_has_str(v: Seq<String>, s: Seq<char>) -> bool {
    exists|i: int| 0 <= i < v.len() && (#[trigger] v[i])@ == s
}

/// Whether remote entry `e` needs chunk-level work, given the local manifest
/// entries and the set of paths present on disk.
pub open spec fn spec_needs_update(
    e: RemoteManifestFileEntry,
    local: Seq<LocalManifestFileEntry>,
    present: Seq<String>,
) -> bool {
    !(local_skips(local, e) && seq_has_str(present, e.source_path@))
}

/// Indices (among the first `upto` remote entries) of the files that need
/// work.
pub open spec fn spec_needed(
    files: Seq<RemoteManifestFileEntry>,
    local: Seq<LocalManifestFileEntry>,
    present: Seq<String>,
    upto: int,
) -> Seq<int>
    decreases upto,
{
    if upto <= 0 {
        Seq::empty()
    } else {
        let prev = spec_needed(files, local, present, upto - 1);
        if spec_needs_update(files[upto - 1], local, present) {
            prev.push(upto - 1)
        } else {
            prev
        }
    }
}

/// Check which files need updating by comparing the local manifest to the
/// remote one: exactly those remote entries whose hash differs from or is
/// absent in the local list, or whose file is missing on disk, in manifest
/// order.
pub fn get_files_to_update(
    remote: &RemoteManifest,
    local: &LocalManifest,
    present_paths: &Vec<String>,
) -> (r: Vec<FileToDownload>)
    ensures
        r@.len() == spec_needed(
            remote.files@,
            local.files@,
            present_paths@,
            remote.files@.len() as int,
        ).len(),
        forall|j: int|
            0 <= j < r@.len() ==> {
                let idx = spec_needed(
                    remote.files@,
                    local.files@,
                    present_paths@,
                    remote.files@.len() as int,
                )[j];
                &&& (#[trigger] r@[j]).local_path@ == remote.files@[idx].source_path@
                &&& r@[j].remote_path@ == remote.files@[idx].path@
            },
{
    let n = remote.files.len();
    let mut r: Vec<FileToDownload> = Vec::new();
    let mut i: usize = 0;
    while i < n
        invariant
            n == remote.files@.len(),
            i <= n,
            r@.len() == spec_needed(remote.files@, local.files@, present_paths@, i as int).len(),
            forall|j: int|
                0 <= j < r@.len() ==> {
                    let idx = spec_needed(remote.files@, local.files@, present_paths@, i as int)[j];
                    &&& (#[trigger] r@[j]).local_path@ == remote.files@[idx].source_path@
                    &&& r@[j].remote_path@ == remote.files@[idx].path@
                },
        decreases n - i,
    {
        let e = &remote.files[i];
        let skipped_by_manifest = manifest_skips(&local.files, e);
        let on_disk = contains_string(present_paths, &e.source_path);
        let ghost before = spec_needed(remote.files@, local.files@, present_paths@, i as int);
        let ghost after = spec_needed(remote.files@, local.files@, present_paths@, i + 1);
        if !(skipped_by_manifest && on_disk) {
            r.push(
                FileToDownload {
                    local_path: e.source_path.clone(),
                    remote_path: e.path.clone(),
                },
            );
            proof {
                assert(after == before.push(i as int));
            }
        } else {
            proof {
                assert(after == before);
            }
        }
        i = i + 1;
    }
    r
}

/// Whether the local manifest's first entry for `e.source_path` carries
/// exactly the remote hash.
fn manifest_skips(files: &Vec<LocalManifestFileEntry>, e: &RemoteManifestFileEntry) -> (r: bool)
    ensures
        r == local_skips(files@, *e),
{
    let n = files.len();
    let mut i: usize = 0;
    while i < n
        invariant
            n == files@.len(),
            i <= n,
            forall|t: int| 0 <= t < i ==> (#[trigger] files@[t]).path@ != e.source_path@,
        decreases n - i,
    {
        if files[i].path == e.source_path {
            let matched = bytes_eq(&files[i].hash, &e.source_hash);
            proof {
                if matched {
                    assert(files@[i as int].path@ == e.source_path@ && (forall|t: int|
                        0 <= t < i ==> (#[trigger] files@[t]).path@ != e.source_path@)
                        && files@[i as int].hash@ == e.source_hash@);
                } else {
                    assert forall|k: int|
                        0 <= k < files@.len() && (#[trigger] files@[k]).path@ == e.source_path@
                            && (forall|t: int|
                            0 <= t < k ==> (#[trigger] files@[t]).path@ != e.source_path@) implies
                        files@[k].hash@ != e.source_hash@ by {
                        assert(k == i as int);
                    }
                }
            }
            return matched;
        }
        i = i + 1;
    }
    false
}

/// Whether `v` holds a string equal to `s`.
fn contains_string(v: &Vec<String>, s: &String) -> (r: bool)
    ensures
        r == seq_has_str(v@, s@),
{
    let n = v.len();
    let mut i: usize = 0;
    while i < n
        invariant
            n == v@.len(),
            i <= n,
            forall|t: int| 0 <= t < i ==> (#[trigger] v@[t])@ != s@,
        decreases n - i,
    {
        if v[i] == *s {
            return true;
        }
        i = i + 1;
    }
    false
}

/// Whether the updater binary itself is stale: the remote updater hash
/// differs from the one last observed locally.
pub fn updater_needs_update(remote: &RemoteManifest, local: &LocalManifest) -> (r: bool)
    ensures
        r == (remote.updater.source_hash@ != local.updater.hash@),
{
    !bytes_eq(&remote.updater.source_hash, &local.updater.hash)
}

/// The local manifest to persist after every file of a run succeeded: the
/// remote entries become the observed ones, and the updater entry is carried
/// over unchanged.  It must not be persisted when any file failed, so a
/// retry finds the failed files still stale.
pub fn make_local_manifest(remote: &RemoteManifest, updater: &LocalManifestFileEntry) -> (r:
    LocalManifest)
    ensures
        r.version == LOCAL_MANIFEST_VERSION,
        r.updater.path@ == updater.path@,
        r.updater.hash@ == updater.hash@,
        r.updater.size == updater.size,
        r.files@.len() == remote.files@.len(),
        forall|i: int|
            0 <= i < r.files@.len() ==> {
                &&& (#[trigger] r.files@[i]).path@ == remote.files@[i].source_path@
                &&& r.files@[i].hash@ == remote.files@[i].source_hash@
                &&& r.files@[i].size == remote.files@[i].source_size
            },
{
    let n = remote.files.len();
    let mut files: Vec<LocalManifestFileEntry> = Vec::new();
    let mut i: usize = 0;
    while i < n
        invariant
            n == remote.files@.len(),
            i <= n,
            files@.len() == i,
            forall|k: int|
                0 <= k < i ==> {
                    &&& (#[trigger] files@[k]).path@ == remote.files@[k].source_path@
                    &&& files@[k].hash@ == remote.files@[k].source_hash@
                    &&& files@[k].size == remote.files@[k].source_size
                },
        decreases n - i,
    {
        let e = &remote.files[i];
        files.push(
            LocalManifestFileEntry {
                path: e.source_path.clone(),
                hash: crate::hash::copy_bytes(&e.source_hash),
                size: e.source_size,
            },
        );
        i = i + 1;
    }
    LocalManifest {
        version: LOCAL_MANIFEST_VERSION,
        updater: LocalManifestFileEntry {
            path: updater.path.clone(),
            hash: crate::hash::copy_bytes(&updater.hash),
            size: updater.size,
        },
        files,
    }
}

/// The local manifest to persist right after the updater binary itself was
/// replaced: only the updater entry is refreshed from the remote manifest;
/// the file entries are carried over and will be refreshed by the restarted
/// process.
pub fn manifest_after_self_update(remote: &RemoteManifest, local: &LocalManifest) -> (r:
    LocalManifest)
    ensures
        r.version == LOCAL_MANIFEST_VERSION,
        r.updater.path@ == remote.updater.source_path@,
        r.updater.hash@ == remote.updater.source_hash@,
        r.updater.size == remote.updater.source_size,
        r.files@.len() == local.files@.len(),
        forall|i: int|
            0 <= i < r.files@.len() ==> {
                &&& (#[trigger] r.files@[i]).path@ == local.files@[i].path@
                &&& r.files@[i].hash@ == local.files@[i].hash@
                &&& r.files@[i].size == local.files@[i].size
            },
{
    let mut files: Vec<LocalManifestFileEntry> = Vec::new();
    let n = local.files.len();
    let mut i: usize = 0;
    while i < n
        invariant
            n == local.files@.len(),
            i <= n,
            files@.len() == i,
            forall|k: int|
                0 <= k < i ==> {
                    &&& (#[trigger] files@[k]).path@ == local.files@[k].path@
                    &&& files@[k].hash@ == local.files@[k].hash@
                    &&& files@[k].size == local.files@[k].size
                },
        decreases n - i,
    {
        let e = &local.files[i];
        files.push(
            LocalManifestFileEntry {
                path: e.path.clone(),
                hash: crate::hash::copy_bytes(&e.hash),
                size: e.size,
            },
        );
        i = i + 1;
    }
    LocalManifest {
        version: LOCAL_MANIFEST_VERSION,
        updater: LocalManifestFileEntry {
            path: remote.updater.source_path.clone(),
            hash: crate::hash::copy_bytes(&remote.updater.source_hash),
            size: remote.updater.source_size,
        },
        files,
    }
}

/// An up-to-date tree needs no work: when every remote file is skippable by
/// the local manifest and present on disk, the download list is empty.
pub proof fn lemma_fleet_idempotent(
    files: Seq<RemoteManifestFileEntry>,
    local: Seq<LocalManifestFileEntry>,
    present: Seq<String>,
    upto: int,
)
    requires
        0 <= upto <= files.len(),
        forall|i: int| 0 <= i < files.len() ==> !spec_needs_update(#[trigger] files[i], local, present),
    ensures
        spec_needed(files, local, present, upto) == Seq::<int>::empty(),
    decreases upto,
{
    if upto > 0 {
        lemma_fleet_idempotent(files, local, present, upto - 1);
    }
}

} // verus!
