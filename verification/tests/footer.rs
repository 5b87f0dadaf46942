use precommit_check::footer::{build_footer, embed_footer, strip_existing_footer, VerifyStatus};
use precommit_check::status::{should_stamp, stamp_message};

// ─── build_footer ────────────────────────────────────────────────────

#[test]
fn build_footer_verified_clean() {
    let s = VerifyStatus::Verified {
        hash16: "abcdef0123456789".into(),
        has_unstaged: false,
    };
    assert_eq!(
        build_footer(&s),
        "Verified: precommit-verify \u{2713} (abcdef0123456789)"
    );
}

#[test]
fn build_footer_verified_with_unstaged() {
    let s = VerifyStatus::Verified {
        hash16: "abcdef0123456789".into(),
        has_unstaged: true,
    };
    assert_eq!(
        build_footer(&s),
        "Verified: precommit-verify \u{25b3} (abcdef0123456789)"
    );
}

#[test]
fn build_footer_stale() {
    assert_eq!(
        build_footer(&VerifyStatus::Stale),
        "Verified: precommit-verify \u{2715}"
    );
}

#[test]
fn build_footer_unverified() {
    assert_eq!(
        build_footer(&VerifyStatus::Unverified),
        "Verified: precommit-verify \u{2715}"
    );
}

// ─── strip_existing_footer ───────────────────────────────────────────

#[test]
fn strip_no_footer() {
    let msg = "feat: add feature\n\nbody line";
    assert_eq!(strip_existing_footer(msg), "feat: add feature\n\nbody line");
}

#[test]
fn strip_single_footer() {
    let msg = "feat: add feature\n\nVerified: precommit-verify \u{2713} (abcdef0123456789)";
    assert_eq!(strip_existing_footer(msg), "feat: add feature\n");
}

#[test]
fn strip_multiple_footers_amend_bug() {
    let msg = "feat: x\n\nVerified: precommit-verify \u{2713} (aaa)\nVerified: precommit-verify \u{2715}\n";
    assert_eq!(strip_existing_footer(msg), "feat: x\n");
}

#[test]
fn strip_keeps_lines_that_only_resemble_footer() {
    let msg = "feat: x\nbody mentions Verified: precommit-verify inline\n";
    assert_eq!(
        strip_existing_footer(msg),
        "feat: x\nbody mentions Verified: precommit-verify inline"
    );
}

#[test]
fn strip_keeps_old_prepush_footer() {
    let msg = "feat: x\n\nVerified: prepush \u{2713} (abc)\n";
    assert_eq!(
        strip_existing_footer(msg),
        "feat: x\n\nVerified: prepush \u{2713} (abc)"
    );
}

// ─── embed_footer ────────────────────────────────────────────────────

#[test]
fn embed_footer_trims_and_inserts_blank_line() {
    let result = embed_footer(
        "feat: add feature\n",
        "Verified: precommit-verify \u{2713} (h)",
    );
    assert_eq!(
        result,
        "feat: add feature\n\nVerified: precommit-verify \u{2713} (h)\n"
    );
}

#[test]
fn embed_footer_handles_no_trailing_newline() {
    let result = embed_footer("feat: x", "Verified: precommit-verify \u{2715}");
    assert_eq!(result, "feat: x\n\nVerified: precommit-verify \u{2715}\n");
}

#[test]
fn embed_footer_handles_multiple_trailing_newlines() {
    let result = embed_footer("feat: x\n\n\n", "Verified: precommit-verify \u{2715}");
    assert_eq!(result, "feat: x\n\nVerified: precommit-verify \u{2715}\n");
}

#[test]
fn embed_footer_handles_crlf_msg() {
    let result = embed_footer("feat: x\r\n\r\n", "Verified: precommit-verify \u{2715}");
    assert_eq!(result, "feat: x\n\nVerified: precommit-verify \u{2715}\n");
}

#[test]
fn embed_footer_handles_empty_msg() {
    let result = embed_footer("", "Verified: precommit-verify \u{2715}");
    assert_eq!(result, "Verified: precommit-verify \u{2715}\n");
}

// ─── round-trip (strip → embed) ──────────────────────────────────────

#[test]
fn round_trip_amend_replaces_old_footer() {
    let original = "feat: x\n\nVerified: precommit-verify \u{2713} (oldhash000000000)\n";
    let stripped = strip_existing_footer(original);
    let new_footer = build_footer(&VerifyStatus::Verified {
        hash16: "newhash000000000".into(),
        has_unstaged: false,
    });
    let result = embed_footer(&stripped, &new_footer);
    assert_eq!(
        result,
        "feat: x\n\nVerified: precommit-verify \u{2713} (newhash000000000)\n"
    );
    assert_eq!(result.matches("Verified: precommit-verify").count(), 1);
}

// ─── further cases ───────────────────────────────────────────────────

#[test]
fn strip_empty_message_gives_empty() {
    assert_eq!(strip_existing_footer(""), "");
    assert_eq!(strip_existing_footer("\n"), "");
}

#[test]
fn strip_only_footer_gives_empty() {
    assert_eq!(strip_existing_footer("Verified: precommit-verify \u{2715}\n"), "");
}

#[test]
fn strip_normalises_crlf_line_endings() {
    assert_eq!(strip_existing_footer("a\r\nb\r\n"), "a\nb");
    assert_eq!(
        strip_existing_footer("a\r\nVerified: precommit-verify \u{2715}\r\nb"),
        "a\nb"
    );
}

#[test]
fn strip_keeps_bare_carriage_return_on_last_line() {
    assert_eq!(strip_existing_footer("a\r"), "a\r");
}

#[test]
fn strip_keeps_indented_footer_lookalike() {
    let msg = "a\n Verified: precommit-verify \u{2715}\nb";
    assert_eq!(strip_existing_footer(msg), msg);
}

#[test]
fn strip_removes_footer_prefix_without_marker() {
    assert_eq!(strip_existing_footer("a\nVerified: precommit-verifyX\nb"), "a\nb");
}

#[test]
fn embed_footer_trims_unicode_white_space() {
    let result = embed_footer("feat: x\u{3000}\t \u{a0}\n", "F");
    assert_eq!(result, "feat: x\n\nF\n");
}

#[test]
fn embed_footer_keeps_leading_white_space() {
    assert_eq!(embed_footer("  x", "F"), "  x\n\nF\n");
}

#[test]
fn embed_footer_white_space_only_message() {
    assert_eq!(embed_footer(" \n\t\r\n", "F"), "F\n");
}

#[test]
fn build_footer_keeps_hash_text() {
    let s = VerifyStatus::Verified {
        hash16: "0123".into(),
        has_unstaged: false,
    };
    assert_eq!(build_footer(&s), "Verified: precommit-verify \u{2713} (0123)");
}

#[test]
fn stamp_message_replaces_all_footers() {
    let msg = "feat: y\n\nVerified: precommit-verify \u{2715}\nVerified: precommit-verify \u{25b3} (x)\n\n";
    let out = stamp_message(msg, &VerifyStatus::Stale);
    assert_eq!(out, "feat: y\n\nVerified: precommit-verify \u{2715}\n");
    let footers: Vec<&str> = out
        .lines()
        .filter(|l| l.starts_with("Verified: precommit-verify"))
        .collect();
    assert_eq!(footers, vec!["Verified: precommit-verify \u{2715}"]);
    assert_eq!(out.lines().last(), Some("Verified: precommit-verify \u{2715}"));
}

#[test]
fn stamp_message_on_empty_message() {
    assert_eq!(
        stamp_message("", &VerifyStatus::Unverified),
        "Verified: precommit-verify \u{2715}\n"
    );
}

#[test]
fn stamp_message_keeps_lookalike_line_before_footer() {
    let out = stamp_message(
        "feat: z\n\nsee Verified: precommit-verify docs\n",
        &VerifyStatus::Verified {
            hash16: "aaaaaaaaaaaaaaaa".into(),
            has_unstaged: true,
        },
    );
    assert_eq!(
        out,
        "feat: z\n\nsee Verified: precommit-verify docs\n\nVerified: precommit-verify \u{25b3} (aaaaaaaaaaaaaaaa)\n"
    );
}

#[test]
fn should_stamp_skips_merge_and_squash() {
    assert!(!should_stamp(Some("merge")));
    assert!(!should_stamp(Some("squash")));
    assert!(should_stamp(Some("message")));
    assert!(should_stamp(Some("commit")));
    assert!(should_stamp(Some("Merge")));
    assert!(should_stamp(None));
}

#[test]
fn stamping_twice_with_the_same_footer_changes_nothing() {
    let footer = "Verified: precommit-verify \u{2713} (0123456789abcdef)";
    for msg in [
        "feat: x\n\nbody\n",
        "",
        "Verified: precommit-verify \u{2715}\n",
        "feat: y\n\nVerified: precommit-verify \u{2715}\nVerified: precommit-verify \u{25b3} (x)\n\n",
        "a\n\n\nb  \n",
    ] {
        let once = embed_footer(&strip_existing_footer(msg), footer);
        let twice = embed_footer(&strip_existing_footer(&once), footer);
        assert_eq!(once, twice);
    }
}

#[test]
fn custom_footer_line_is_the_only_footer_after_stamping() {
    let footer = "Verified: precommit-verify custom";
    let out = embed_footer(
        &strip_existing_footer("t\nVerified: precommit-verify old\nbody\n"),
        footer,
    );
    assert_eq!(out, "t\nbody\n\nVerified: precommit-verify custom\n");
    assert_eq!(out.lines().filter(|l| l.starts_with("Verified: precommit-verify")).count(), 1);
    assert_eq!(out.lines().last(), Some(footer));
}
