use precommit_check::footer::VerifyStatus;
use precommit_check::status::{
    check_save_invocation, check_saved, compute_status, hash_file_contents, saved_matches, short16,
    CliError,
    SavedHash,
};

const HEX: &str = "0123456789abcdef0123456789abcdef0123456789abcdef0123456789abcdef";

#[test]
fn short16_takes_the_first_sixteen_bytes() {
    assert_eq!(short16(HEX), "0123456789abcdef");
    assert_eq!(short16("abc"), "abc");
    assert_eq!(short16(""), "");
    // 8 two-byte characters make exactly 16 bytes
    assert_eq!(short16("\u{e9}\u{e9}\u{e9}\u{e9}\u{e9}\u{e9}\u{e9}\u{e9}\u{e9}"), "\u{e9}\u{e9}\u{e9}\u{e9}\u{e9}\u{e9}\u{e9}\u{e9}");
}

#[test]
fn save_only_from_package_manager_script() {
    assert!(check_save_invocation(true, false).is_ok());
    assert!(check_save_invocation(false, true).is_ok());
    assert!(check_save_invocation(true, true).is_ok());
    let err = check_save_invocation(false, false).unwrap_err();
    assert!(matches!(err, CliError::SaveNotFromScript));
    assert_eq!(
        err.message(),
        "save must be called via a package.json script (e.g., 'pnpm run precommit')"
    );
}

#[test]
fn check_without_saved_hash_fails() {
    let err = check_saved(None, HEX).unwrap_err();
    assert!(matches!(err, CliError::HashNotFound));
    assert_eq!(
        err.message(),
        "hash not found. Run your package.json precommit script (e.g., 'pnpm run precommit') first."
    );
}

#[test]
fn check_accepts_saved_hash_with_newline() {
    let saved = format!("{HEX}\n");
    assert_eq!(check_saved(Some(&saved), HEX).unwrap(), "0123456789abcdef");
}

#[test]
fn check_rejects_changed_state() {
    let current = "ffffffffffffffff0123456789abcdef0123456789abcdef0123456789abcdef";
    let saved = format!("{HEX}\n");
    let err = check_saved(Some(&saved), current).unwrap_err();
    match &err {
        CliError::FilesChanged { saved16, current16 } => {
            assert_eq!(saved16, "0123456789abcdef");
            assert_eq!(current16, "ffffffffffffffff");
        }
        _ => panic!("unexpected error"),
    }
    assert_eq!(
        err.message(),
        "files changed since last save (saved 0123456789abcdef, current ffffffffffffffff). Run your package.json precommit script to update."
    );
}

#[test]
fn status_without_hash_file_is_unverified() {
    let current = Some(HEX.to_string());
    assert!(matches!(compute_status(&SavedHash::Missing, &current, None), VerifyStatus::Unverified));
}

#[test]
fn status_with_unresolved_hash_file_path_is_stale() {
    let current = Some(HEX.to_string());
    assert!(matches!(compute_status(&SavedHash::NoPath, &current, None), VerifyStatus::Stale));
    assert!(matches!(compute_status(&SavedHash::NoPath, &None, None), VerifyStatus::Stale));
}

#[test]
fn status_with_unreadable_or_unhashable_state_is_stale() {
    let current = Some(HEX.to_string());
    assert!(matches!(compute_status(&SavedHash::Unreadable, &current, None), VerifyStatus::Stale));
    let saved = SavedHash::Contents(HEX.to_string());
    assert!(matches!(compute_status(&saved, &None, Some(false)), VerifyStatus::Stale));
    let other = SavedHash::Contents("deadbeef".to_string());
    assert!(matches!(compute_status(&other, &current, Some(false)), VerifyStatus::Stale));
}

#[test]
fn status_with_matching_hash_is_verified() {
    let current = Some(HEX.to_string());
    let saved = SavedHash::Contents(format!("  {HEX}\n"));
    assert!(saved_matches(&saved, &current));
    match compute_status(&saved, &current, Some(false)) {
        VerifyStatus::Verified { hash16, has_unstaged } => {
            assert_eq!(hash16, "0123456789abcdef");
            assert!(!has_unstaged);
        }
        _ => panic!("expected verified"),
    }
    match compute_status(&saved, &current, Some(true)) {
        VerifyStatus::Verified { has_unstaged, .. } => assert!(has_unstaged),
        _ => panic!("expected verified"),
    }
    // a failed `git diff` counts as no unstaged changes
    match compute_status(&saved, &current, None) {
        VerifyStatus::Verified { has_unstaged, .. } => assert!(!has_unstaged),
        _ => panic!("expected verified"),
    }
}

#[test]
fn saved_matches_requires_equal_trimmed_text() {
    let current = Some("abc".to_string());
    assert!(saved_matches(&SavedHash::Contents("abc\r\n".to_string()), &current));
    assert!(!saved_matches(&SavedHash::Contents("ab c".to_string()), &current));
    assert!(!saved_matches(&SavedHash::Missing, &current));
    assert!(!saved_matches(&SavedHash::Contents("abc".to_string()), &None));
}

#[test]
fn hash_file_written_by_save_passes_check() {
    let contents = hash_file_contents(HEX);
    assert_eq!(contents, format!("{HEX}\n"));
    assert_eq!(check_saved(Some(&contents), HEX).unwrap(), "0123456789abcdef");
    match compute_status(&SavedHash::Contents(contents), &Some(HEX.to_string()), Some(false)) {
        VerifyStatus::Verified { hash16, has_unstaged } => {
            assert_eq!(hash16, "0123456789abcdef");
            assert!(!has_unstaged);
        }
        _ => panic!("expected verified"),
    }
}
