use precommit_check::git::{
    ensure_git_repo, has_unstaged_changes, hash_file_path, ls_files, GitError, GitOutput,
    HASH_FILE_NAME,
};

fn output(success: bool, stdout: &[u8], stderr: &str) -> GitOutput {
    GitOutput {
        success,
        stdout: stdout.to_vec(),
        stderr: stderr.to_string(),
    }
}

#[test]
fn ensure_git_repo_follows_exit_status() {
    assert!(ensure_git_repo(&output(true, b".git\n", "")).is_ok());
    let err = ensure_git_repo(&output(false, b"", "fatal: not a git repository")).unwrap_err();
    assert!(matches!(err, GitError::NotARepository));
    assert_eq!(err.message(), "not a git repository");
}

#[test]
fn hash_file_path_trims_trailing_newline() {
    let path = hash_file_path(&output(true, b".git/precommit-verify-hash\n", "")).unwrap();
    assert_eq!(path, ".git/precommit-verify-hash");
}

#[test]
fn hash_file_path_keeps_leading_space_and_unicode() {
    let path = hash_file_path(&output(true, " d\u{e9}p\u{f4}t/h \r\n".as_bytes(), "")).unwrap();
    assert_eq!(path, " d\u{e9}p\u{f4}t/h");
}

#[test]
fn hash_file_path_reports_git_failure_with_trimmed_stderr() {
    let err = hash_file_path(&output(false, b"", "  fatal: bad revision \n")).unwrap_err();
    match &err {
        GitError::RevParseFailed { stderr } => assert_eq!(stderr, "fatal: bad revision"),
        _ => panic!("unexpected error"),
    }
    assert_eq!(err.message(), "git rev-parse failed: fatal: bad revision");
}

#[test]
fn hash_file_path_rejects_invalid_utf8() {
    let err = hash_file_path(&output(true, b"\xff\xfe\n", "")).unwrap_err();
    assert!(matches!(err, GitError::PathNotUtf8));
    assert_eq!(err.message(), "git rev-parse output is not UTF-8");
}

#[test]
fn ls_files_splits_at_nul_and_drops_empty_pieces() {
    let paths = ls_files(&output(true, b"a.rs\0dir/b c\0\0new\nline\0", "")).unwrap();
    assert_eq!(
        paths,
        vec![b"a.rs".to_vec(), b"dir/b c".to_vec(), b"new\nline".to_vec()]
    );
}

#[test]
fn ls_files_keeps_non_utf8_paths_and_last_unterminated() {
    let paths = ls_files(&output(true, b"\xff.bin\0tail", "")).unwrap();
    assert_eq!(paths, vec![b"\xff.bin".to_vec(), b"tail".to_vec()]);
}

#[test]
fn ls_files_of_empty_output_is_empty() {
    assert!(ls_files(&output(true, b"", "")).unwrap().is_empty());
    assert!(ls_files(&output(true, b"\0\0", "")).unwrap().is_empty());
}

#[test]
fn ls_files_reports_failure() {
    let err = ls_files(&output(false, b"ignored\0", "boom\n")).unwrap_err();
    match &err {
        GitError::LsFilesFailed { stderr } => assert_eq!(stderr, "boom"),
        _ => panic!("unexpected error"),
    }
    assert_eq!(err.message(), "git ls-files failed: boom");
}

#[test]
fn has_unstaged_changes_ignores_ascii_white_space() {
    assert_eq!(has_unstaged_changes(&output(true, b"", "")).unwrap(), false);
    assert_eq!(has_unstaged_changes(&output(true, b" \t\n\r\x0c", "")).unwrap(), false);
    assert_eq!(has_unstaged_changes(&output(true, b"\n src/a.rs\n", "")).unwrap(), true);
    // vertical tab is not ASCII white space for `u8::is_ascii_whitespace`
    assert_eq!(has_unstaged_changes(&output(true, b"\x0b", "")).unwrap(), true);
}

#[test]
fn has_unstaged_changes_reports_failure() {
    let err = has_unstaged_changes(&output(false, b"", "\u{3000}oops\u{3000}")).unwrap_err();
    match &err {
        GitError::DiffFailed { stderr } => assert_eq!(stderr, "oops"),
        _ => panic!("unexpected error"),
    }
    assert_eq!(err.message(), "git diff failed: oops");
}

#[test]
fn hash_file_is_named_after_the_tool() {
    assert_eq!(HASH_FILE_NAME, "precommit-verify-hash");
}
