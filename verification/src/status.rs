//! The decisions of the command-line tool: when `save` may run, what `check`
//! concludes, which footer state a commit gets, and when a commit message is
//! stamped at all.
//!
//! Reading files, running `git` and printing stay with the caller, which hands
//! over what it found.

use vstd::prelude::*;
use vstd::utf8::{decode_utf8, encode_utf8, is_ascii_chars, is_char_boundary};

use crate::footer::{
    build_footer, embed_footer, embedded, footer_text, strip_existing_footer, stripped,
    VerifyStatus,
};
use crate::hash::{is_hex_digest, is_lower_hex_digit};
use crate::text::{is_white_space, trim, trim_end, trim_start, trim_str};

verus! {

// ───────────────────────── short hashes ─────────────────────────

/// How many bytes of a text the short form keeps: 16, or all of a shorter
/// text.
pub open spec fn short16_len(s: Seq<char>) -> int {
    let n = encode_utf8(s).len();
    if n < 16 {
        n as int
    } else {
        16
    }
}

/// The short form cuts the text at a character boundary.
pub open spec fn short16_ok(s: Seq<char>) -> bool {
    is_char_boundary(encode_utf8(s), short16_len(s))
}

/// The first 16 bytes of the text (all of it when shorter), as characters.
pub open spec fn short16_text(s: Seq<char>) -> Seq<char> {
    decode_utf8(encode_utf8(s).take(short16_len(s)))
}

/// The first 16 bytes of `hex` (all of it when shorter). The cut must fall
/// on a character boundary, as slicing a `str` demands.
pub fn short16(hex: &str) -> (r: &str)
    requires
        short16_ok(hex@),
    ensures
        r@ == short16_text(hex@),
{
    let total = hex.as_bytes().len();
    let n = if total < 16 {
        total
    } else {
        16
    };
    let (head, _tail) = hex.split_at(n);
    proof {
        vstd::utf8::encode_utf8_decode_utf8(head@);
        assert(encode_utf8(hex@).subrange(0, n as int) == encode_utf8(hex@).take(n as int));
    }
    head
}

/// On ASCII text the short form is simply the first 16 characters.
pub proof fn lemma_short16_of_ascii(s: Seq<char>)
    requires
        is_ascii_chars(s),
    ensures
        short16_ok(s),
        short16_text(s) == s.take(if s.len() < 16 {
            s.len() as int
        } else {
            16
        }),
{
    let n: int = if s.len() < 16 {
        s.len() as int
    } else {
        16
    };
    let t = s.take(n);
    vstd::utf8::is_ascii_chars_encode_utf8(s);
    assert(is_ascii_chars(t));
    vstd::utf8::is_ascii_chars_encode_utf8(t);
    assert(encode_utf8(s).take(n) =~= encode_utf8(t));
    vstd::utf8::encode_utf8_decode_utf8(t);
    vstd::utf8::encode_utf8_valid_utf8(s);
    let bytes = encode_utf8(s);
    if n == bytes.len() {
        vstd::utf8::is_char_boundary_start_end_of_seq(bytes);
    } else {
        vstd::utf8::is_char_boundary_iff_not_is_continuation_byte(bytes, n);
        assert(bytes[n] == s[n] as u8);
        assert(s[n] <= '\u{7f}');
        assert(!vstd::utf8::is_continuation_byte(bytes[n]));
    }
}

// ───────────────────────── errors of the commands ─────────────────────────

/// Why `save` or `check` refuse.
#[derive(Debug)]
pub enum CliError {
    /// `save` was run directly instead of from a package-manager script.
    SaveNotFromScript,
    /// `check` found no saved hash.
    HashNotFound,
    /// `check` found a saved hash that differs from the current one; both in
    /// their short form.
    FilesChanged { saved16: String, current16: String },
}

pub open spec fn cli_error_text(e: CliError) -> Seq<char> {
    match e {
        CliError::SaveNotFromScript =>
            "save must be called via a package.json script (e.g., 'pnpm run precommit')"@,
        CliError::HashNotFound =>
            "hash not found. Run your package.json precommit script (e.g., 'pnpm run precommit') first."@,
        CliError::FilesChanged { saved16, current16 } => "files changed since last save (saved "@
            + saved16@ + ", current "@ + current16@
            + "). Run your package.json precommit script to update."@,
    }
}

impl CliError {
    /// The text shown to the user for this error.
    pub fn message(&self) -> (m: String)
        ensures
            m@ == cli_error_text(*self),
    {
        match self {
            CliError::SaveNotFromScript => String::from_str(
                "save must be called via a package.json script (e.g., 'pnpm run precommit')",
            ),
            CliError::HashNotFound => String::from_str(
                "hash not found. Run your package.json precommit script (e.g., 'pnpm run precommit') first.",
            ),
            CliError::FilesChanged { saved16, current16 } => {
                let mut m = String::from_str("files changed since last save (saved ");
                m.append(saved16.as_str());
                m.append(", current ");
                m.append(current16.as_str());
                m.append("). Run your package.json precommit script to update.");
                m
            },
        }
    }
}

// ───────────────────────── save ─────────────────────────

/// `save` runs only from a package-manager script, which is recognised by
/// either of the variables `npm_lifecycle_event` and `npm_execpath` being
/// set.
pub fn check_save_invocation(lifecycle_event_set: bool, execpath_set: bool) -> (r: Result<
    (),
    CliError,
>)
    ensures
        r is Ok <==> (lifecycle_event_set || execpath_set),
        r is Err ==> r == Err::<(), CliError>(CliError::SaveNotFromScript),
{
    if !lifecycle_event_set && !execpath_set {
        return Err(CliError::SaveNotFromScript);
    }
    Ok(())
}

// ───────────────────────── check ─────────────────────────

/// What `check` may require of its inputs: the short forms it prints cut
/// both hashes at a character boundary.
pub open spec fn check_inputs_ok(saved: Option<Seq<char>>, current: Seq<char>) -> bool {
    match saved {
        Some(raw) => short16_ok(current) && (trim(raw) != current ==> short16_ok(trim(raw))),
        None => true,
    }
}

/// Decides `check`: with no saved hash it fails; otherwise the saved hash,
/// trimmed, must equal the current one, and the short current hash is
/// returned for the success message.
pub fn check_saved(saved: Option<&str>, current: &str) -> (r: Result<String, CliError>)
    requires
        check_inputs_ok(
            match saved {
                Some(s) => Some(s@),
                None => None,
            },
            current@,
        ),
    ensures
        match saved {
            None => r == Err::<String, CliError>(CliError::HashNotFound),
            Some(raw) => if trim(raw@) == current@ {
                r matches Ok(short) && short@ == short16_text(current@)
            } else {
                r matches Err(CliError::FilesChanged { saved16, current16 }) && saved16@
                    == short16_text(trim(raw@)) && current16@ == short16_text(current@)
            },
        },
{
    match saved {
        None => Err(CliError::HashNotFound),
        Some(raw) => {
            let saved_trimmed = trim_str(raw);
            let current_owned = String::from_str(current);
            if saved_trimmed != current_owned {
                let saved16 = short16(saved_trimmed.as_str()).to_owned();
                let current16 = short16(current).to_owned();
                Err(CliError::FilesChanged { saved16, current16 })
            } else {
                Ok(short16(current).to_owned())
            }
        },
    }
}

// ───────────────────────── verify-footer ─────────────────────────

/// What the caller found about the saved hash.
#[derive(Debug)]
pub enum SavedHash {
    /// The location of the hash file could not be resolved.
    NoPath,
    /// There is no hash file.
    Missing,
    /// The hash file exists but could not be read.
    Unreadable,
    /// The contents of the hash file.
    Contents(String),
}

/// The saved contents, trimmed, equal the current hash.
pub open spec fn saved_matches_current(saved: SavedHash, current: Option<String>) -> bool {
    match (saved, current) {
        (SavedHash::Contents(raw), Some(c)) => trim(raw@) == c@,
        _ => false,
    }
}

/// Whether the saved contents, trimmed, equal the current hash; the caller
/// asks `git diff` for unstaged changes only then.
pub fn saved_matches(saved: &SavedHash, current: &Option<String>) -> (b: bool)
    ensures
        b == saved_matches_current(*saved, *current),
        b <==> (*saved matches SavedHash::Contents(raw) && *current matches Some(c) && trim(raw@)
            == c@),
{
    match (saved, current) {
        (SavedHash::Contents(raw), Some(c)) => {
            let s = trim_str(raw.as_str());
            s == *c
        },
        _ => false,
    }
}

/// Decides the footer state of a commit. No hash file: not verified. Every
/// internal error (the hash file's location could not be resolved, the hash
/// file could not be read, the hash could not be computed) and a different
/// hash: stale. A matching hash: verified, with the first 16
/// bytes of the hash, and unstaged edits reported only when `git diff`
/// answered that there are some (a failed `git diff` counts as none).
pub fn compute_status(
    saved: &SavedHash,
    current: &Option<String>,
    has_unstaged: Option<bool>,
) -> (status: VerifyStatus)
    requires
        saved_matches_current(*saved, *current) ==> short16_ok(current->Some_0@),
    ensures
        match *saved {
            SavedHash::Missing => status is Unverified,
            SavedHash::NoPath | SavedHash::Unreadable => status is Stale,
            SavedHash::Contents(_) => if saved_matches_current(*saved, *current) {
                status matches VerifyStatus::Verified { hash16, has_unstaged: u } && hash16@
                    == short16_text(current->Some_0@) && u == (has_unstaged == Some(true))
            } else {
                status is Stale
            },
        },
        status is Verified ==> (*saved matches SavedHash::Contents(raw) && *current matches Some(c)
            && trim(raw@) == c@),
        (*saved matches SavedHash::Contents(raw) && *current matches Some(c) && trim(raw@) != c@)
            ==> status is Stale,
{
    match saved {
        SavedHash::NoPath => VerifyStatus::Stale,
        SavedHash::Missing => VerifyStatus::Unverified,
        SavedHash::Unreadable => VerifyStatus::Stale,
        SavedHash::Contents(_) => {
            if saved_matches(saved, current) {
                match current {
                    Some(c) => {
                        let hash16 = short16(c.as_str()).to_owned();
                        let unstaged = match has_unstaged {
                            Some(b) => b,
                            None => false,
                        };
                        VerifyStatus::Verified { hash16, has_unstaged: unstaged }
                    },
                    None => VerifyStatus::Stale,
                }
            } else {
                VerifyStatus::Stale
            }
        },
    }
}

/// `verify-footer` leaves the messages of merges and squashes alone.
pub fn should_stamp(source: Option<&str>) -> (b: bool)
    ensures
        b == !(source matches Some(s) && (s@ == "merge"@ || s@ == "squash"@)),
{
    match source {
        None => true,
        Some(s) => {
            let s = String::from_str(s);
            let merge = String::from_str("merge");
            let squash = String::from_str("squash");
            !(s == merge || s == squash)
        },
    }
}

/// The new commit message: earlier footers removed, then the footer of
/// `status` appended after one blank line.
pub fn stamp_message(msg: &str, status: &VerifyStatus) -> (r: String)
    ensures
        r@ == embedded(stripped(msg@), footer_text(*status)),
{
    let stripped_msg = strip_existing_footer(msg);
    let footer = build_footer(status);
    embed_footer(stripped_msg.as_str(), footer.as_str())
}

// ───────────────────────── the hash file ─────────────────────────

/// What `save` writes to the hash file: the hash and a newline.
pub open spec fn hash_file_text(hex: Seq<char>) -> Seq<char> {
    hex.push('\n')
}

/// The contents `save` writes to the hash file for `hex`.
pub fn hash_file_contents(hex: &str) -> (contents: String)
    ensures
        contents@ == hash_file_text(hex@),
{
    let mut contents = String::from_str(hex);
    contents.push('\n');
    contents
}

// ───────────────────────── laws ─────────────────────────

proof fn lemma_hex_digit_not_white_space(c: char)
    requires
        is_lower_hex_digit(c),
    ensures
        !is_white_space(c),
{
}

/// A repository hash is ASCII, so its short form is its first 16 digits.
pub proof fn lemma_hex_digest_short16(h: Seq<char>)
    requires
        is_hex_digest(h),
    ensures
        short16_ok(h),
        short16_text(h) == h.take(16),
{
    assert(is_ascii_chars(h)) by {
        assert forall|i: int| 0 <= i < h.len() implies '\0' <= #[trigger] h[i] <= '\u{7f}' by {
            assert(is_lower_hex_digit(h[i]));
        }
    }
    lemma_short16_of_ascii(h);
}

/// Law: the hash file that `save` writes for a repository hash is accepted
/// by `check` (and by the footer decision) exactly for that hash: trimming
/// the file gives the hash back, and both short forms are its first 16
/// digits.
pub proof fn lemma_saved_hash_reads_back(h: Seq<char>)
    requires
        is_hex_digest(h),
    ensures
        hash_file_text(h) == h + seq!['\n'],
        trim(hash_file_text(h)) == h,
        check_inputs_ok(Some(hash_file_text(h)), h),
        short16_text(h) == h.take(16),
{
    let text = hash_file_text(h);
    assert(text =~= h + seq!['\n']);
    assert(text.drop_last() == h);
    assert(is_white_space(text.last()));
    assert(h.last() == h[h.len() - 1]);
    lemma_hex_digit_not_white_space(h[h.len() - 1]);
    assert(trim_end(h) == h);
    assert(trim_end(text) == h);
    lemma_hex_digit_not_white_space(h[0]);
    assert(trim_start(h) == h);
    lemma_hex_digest_short16(h);
}

/// Law: the saved hash matches exactly when there are saved contents and a
/// current hash, and the contents with the white space around them removed
/// equal the current hash.
pub proof fn lemma_saved_matches_is_trimmed_equality(saved: SavedHash, current: Option<String>)
    ensures
        saved_matches_current(saved, current) <==> (saved matches SavedHash::Contents(raw)
            && current matches Some(c) && trim_start(trim_end(raw@)) == c@),
{
}

/// Law: the short form, encoded in UTF-8, is the first 16 bytes of the text
/// (all of them when there are fewer).
pub proof fn lemma_short16_is_byte_prefix(s: Seq<char>)
    requires
        short16_ok(s),
    ensures
        encode_utf8(short16_text(s)) == encode_utf8(s).take(
            if encode_utf8(s).len() < 16 {
                encode_utf8(s).len() as int
            } else {
                16
            },
        ),
{
    let bytes = encode_utf8(s);
    let n = short16_len(s);
    vstd::utf8::encode_utf8_valid_utf8(s);
    vstd::utf8::valid_utf8_split(bytes, n);
    assert(bytes.subrange(0, n) == bytes.take(n));
    vstd::utf8::decode_utf8_encode_utf8(bytes.take(n));
}

} // verus!
