use rose_update::selfupdate::{
    contains_chars, filter_restart_args, plan_self_update, SelfUpdateFs, SelfUpdateStep,
};

#[test]
fn stale_backup_is_deleted_before_the_renames() {
    // live binary present, stale backup from an interrupted run, new binary
    // staged: delete the backup, move live aside, install the new binary
    let fs = SelfUpdateFs { live: Some(1), backup: Some(0), staged: Some(2) };
    let plan = plan_self_update(&fs);
    assert_eq!(
        plan,
        vec![
            SelfUpdateStep::DeleteBackup,
            SelfUpdateStep::RenameLiveToBackup,
            SelfUpdateStep::RenameStagedToLive,
        ]
    );
}

#[test]
fn no_backup_means_no_delete() {
    let fs = SelfUpdateFs { live: Some(1), backup: None, staged: Some(2) };
    let plan = plan_self_update(&fs);
    assert_eq!(
        plan,
        vec![SelfUpdateStep::RenameLiveToBackup, SelfUpdateStep::RenameStagedToLive]
    );
}

#[test]
fn missing_live_binary_is_just_installed() {
    let fs = SelfUpdateFs { live: None, backup: None, staged: Some(2) };
    let plan = plan_self_update(&fs);
    assert_eq!(plan, vec![SelfUpdateStep::RenameStagedToLive]);
}

#[test]
fn substring_search() {
    assert!(contains_chars("--force-recheck-updater", "force-recheck-updater"));
    assert!(contains_chars("abcabd", "abd"));
    assert!(!contains_chars("abcabe", "abd"));
    assert!(contains_chars("anything", ""));
    assert!(!contains_chars("", "a"));
}

#[test]
fn restart_arguments_drop_the_recheck_flag() {
    let args = vec![
        "--url".to_owned(),
        "https://example.invalid".to_owned(),
        "--force-recheck-updater".to_owned(),
        "--debug".to_owned(),
    ];
    let filtered = filter_restart_args(&args, "force-recheck-updater");
    assert_eq!(
        filtered,
        vec!["--url".to_owned(), "https://example.invalid".to_owned(), "--debug".to_owned()]
    );
}

#[test]
fn restart_arguments_keep_everything_else() {
    let args = vec!["--init".to_owned(), "--server".to_owned(), "play.example.invalid".to_owned()];
    let filtered = filter_restart_args(&args, "force-recheck-updater");
    assert_eq!(filtered, args);
}
