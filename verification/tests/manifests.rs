use rose_update::errors::{SyncError, UpdaterError};
use rose_update::manifest::{
    get_files_to_update, make_local_manifest, manifest_after_self_update, updater_needs_update,
    LocalManifest, LocalManifestFileEntry, RemoteManifest, RemoteManifestFileEntry,
};
use rose_update::progress::{ProgressStage, ProgressState, Updater};
use rose_update::retry::RetryPolicy;

fn remote_entry(path: &str, source_path: &str, hash: u8, size: usize) -> RemoteManifestFileEntry {
    RemoteManifestFileEntry {
        path: path.to_owned(),
        source_path: source_path.to_owned(),
        source_hash: vec![hash; 8],
        source_size: size,
    }
}

fn local_entry(path: &str, hash: u8, size: usize) -> LocalManifestFileEntry {
    LocalManifestFileEntry { path: path.to_owned(), hash: vec![hash; 8], size }
}

fn sample_remote() -> RemoteManifest {
    RemoteManifest {
        version: 1,
        updater: remote_entry("data/up.exe.cba", "up.exe", 9, 100),
        files: vec![
            remote_entry("data/a.bin.cba", "a.bin", 1, 10),
            remote_entry("data/b.bin.cba", "b.bin", 2, 20),
            remote_entry("data/c.bin.cba", "c.bin", 3, 30),
        ],
    }
}

fn matching_local() -> LocalManifest {
    LocalManifest {
        version: 1,
        updater: local_entry("up.exe", 9, 100),
        files: vec![
            local_entry("a.bin", 1, 10),
            local_entry("b.bin", 2, 20),
            local_entry("c.bin", 3, 30),
        ],
    }
}

fn all_present() -> Vec<String> {
    vec!["a.bin".to_owned(), "b.bin".to_owned(), "c.bin".to_owned()]
}

#[test]
fn up_to_date_tree_lists_no_files() {
    let r = get_files_to_update(&sample_remote(), &matching_local(), &all_present());
    assert_eq!(r.len(), 0);
}

#[test]
fn changed_hash_is_listed() {
    let mut local = matching_local();
    local.files[1].hash = vec![7; 8];
    let r = get_files_to_update(&sample_remote(), &local, &all_present());
    assert_eq!(r.len(), 1);
    assert_eq!(r[0].local_path, "b.bin");
    assert_eq!(r[0].remote_path, "data/b.bin.cba");
}

#[test]
fn unknown_path_is_listed() {
    let mut local = matching_local();
    local.files.remove(2);
    let r = get_files_to_update(&sample_remote(), &local, &all_present());
    assert_eq!(r.len(), 1);
    assert_eq!(r[0].local_path, "c.bin");
}

#[test]
fn missing_file_on_disk_is_listed_despite_manifest() {
    let present = vec!["a.bin".to_owned(), "c.bin".to_owned()];
    let r = get_files_to_update(&sample_remote(), &matching_local(), &present);
    assert_eq!(r.len(), 1);
    assert_eq!(r[0].local_path, "b.bin");
}

#[test]
fn empty_local_manifest_lists_everything() {
    let local = LocalManifest {
        version: 0,
        updater: local_entry("", 0, 0),
        files: Vec::new(),
    };
    let r = get_files_to_update(&sample_remote(), &local, &all_present());
    assert_eq!(r.len(), 3);
    assert_eq!(r[0].local_path, "a.bin");
    assert_eq!(r[1].local_path, "b.bin");
    assert_eq!(r[2].local_path, "c.bin");
}

#[test]
fn updater_freshness_check() {
    assert!(!updater_needs_update(&sample_remote(), &matching_local()));
    let mut local = matching_local();
    local.updater.hash = vec![8; 8];
    assert!(updater_needs_update(&sample_remote(), &local));
}

#[test]
fn completed_run_manifest_mirrors_remote() {
    let local = matching_local();
    let m = make_local_manifest(&sample_remote(), &local.updater);
    assert_eq!(m.version, 1);
    assert_eq!(m.updater.path, "up.exe");
    assert_eq!(m.files.len(), 3);
    assert_eq!(m.files[0].path, "a.bin");
    assert_eq!(m.files[0].hash, vec![1; 8]);
    assert_eq!(m.files[0].size, 10);
}

#[test]
fn self_update_manifest_refreshes_only_updater() {
    let mut local = matching_local();
    local.files[0].hash = vec![6; 8];
    let m = manifest_after_self_update(&sample_remote(), &local);
    assert_eq!(m.updater.path, "up.exe");
    assert_eq!(m.updater.hash, vec![9; 8]);
    assert_eq!(m.updater.size, 100);
    assert_eq!(m.files.len(), 3);
    assert_eq!(m.files[0].hash, vec![6; 8]);
}

#[test]
fn retry_policy_gives_up_after_budget() {
    let p = RetryPolicy::default_transport();
    assert_eq!(p.next_delay_ms(0), None);
    assert_eq!(p.next_delay_ms(1), Some(500));
    assert_eq!(p.next_delay_ms(2), Some(1000));
    assert_eq!(p.next_delay_ms(4), Some(2000));
    assert_eq!(p.next_delay_ms(5), None);
}

#[test]
fn progress_counters_and_stage() {
    let mut p = ProgressState::default();
    assert_eq!(p.current_progress(), 0);
    assert_eq!(p.max_progress(), 0);
    assert_eq!(p.current_stage(), ProgressStage::Start);
    p.set_max_progress(100);
    p.set_current_progress(10);
    p.increment_progress(5);
    assert_eq!(p.current_progress(), 15);
    assert_eq!(p.max_progress(), 100);
    p.set_current_progress(u64::MAX - 1);
    p.increment_progress(10);
    assert_eq!(p.current_progress(), u64::MAX);
    p.set_stage(ProgressStage::DownloadingUpdates);
    assert_eq!(p.current_stage(), ProgressStage::DownloadingUpdates);
}

#[test]
fn progress_stage_numbering() {
    assert_eq!(ProgressStage::from(1), ProgressStage::Start);
    assert_eq!(ProgressStage::from(2), ProgressStage::FetchingMetadata);
    assert_eq!(ProgressStage::from(3), ProgressStage::UpdatingUpdater);
    assert_eq!(ProgressStage::from(4), ProgressStage::CheckingFiles);
    assert_eq!(ProgressStage::from(5), ProgressStage::DownloadingUpdates);
    assert_eq!(ProgressStage::from(6), ProgressStage::Play);
    assert_eq!(ProgressStage::from(0), ProgressStage::Idle);
    assert_eq!(ProgressStage::from(99), ProgressStage::Idle);
}

#[test]
fn progress_state_as_updater_sink() {
    let mut p = ProgressState::default();
    Updater::set_max_progress(&mut p, 50);
    Updater::increment_progress(&mut p, 20);
    Updater::increment_progress(&mut p, 22);
    assert_eq!(p.max_progress(), 50);
    assert_eq!(p.current_progress(), 42);
}

#[test]
fn error_descriptions() {
    assert_eq!(SyncError::Transport.describe(), "transport failure");
    assert_eq!(SyncError::MalformedArchive.describe(), "malformed archive");
    assert_eq!(SyncError::Integrity.describe(), "chunk integrity mismatch");
    assert_eq!(SyncError::Decode.describe(), "chunk decompression failure");
    assert_eq!(SyncError::Io.describe(), "local i/o failure");
    assert_eq!(SyncError::Cancelled.describe(), "cancelled");
    let e = UpdaterError::UpdateError("boom".to_owned());
    assert_eq!(e.message(), "boom");
}
