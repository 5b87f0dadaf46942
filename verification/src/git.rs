//! What the library makes of `git`'s answers.
//!
//! Running `git` is the caller's part: each function here takes what one
//! invocation produced (whether it succeeded, its standard output as bytes and
//! its standard error as text) and decides the result of the corresponding
//! query.

use bstr::ByteSlice;
use vstd::prelude::*;
use vstd::utf8::{decode_utf8, valid_utf8};

use crate::text::{
    lemma_split_pieces_lack_sep, split_at_sep, trim, trim_end, trim_end_str, trim_str,
};

verus! {

/// The name of the file, inside the repository's git directory (as
/// `git rev-parse --git-path` resolves it), that holds the saved hash.
pub const HASH_FILE_NAME: &'static str = "precommit-verify-hash";

/// The outcome of one `git` invocation.
pub struct GitOutput {
    /// Whether `git` exited with success.
    pub success: bool,
    /// Everything `git` wrote to standard output.
    pub stdout: Vec<u8>,
    /// What `git` wrote to standard error, as text.
    pub stderr: String,
}

/// Why a `git` query failed.
#[derive(Debug)]
pub enum GitError {
    /// `git rev-parse --git-dir` failed: not inside a repository.
    NotARepository,
    /// `git rev-parse --git-path` failed; its trimmed standard error.
    RevParseFailed { stderr: String },
    /// `git rev-parse --git-path` printed something that is not UTF-8.
    PathNotUtf8,
    /// `git ls-files` failed; its trimmed standard error.
    LsFilesFailed { stderr: String },
    /// `git diff` failed; its trimmed standard error.
    DiffFailed { stderr: String },
}

// ───────────────────────── specification ─────────────────────────

/// `u8::is_ascii_whitespace`: space, tab, line feed, form feed, carriage
/// return.
pub open spec fn is_ascii_whitespace(b: u8) -> bool {
    b == 0x20 || b == 0x09 || b == 0x0a || b == 0x0c || b == 0x0d
}

/// Some byte is not ASCII white space.
pub open spec fn has_non_whitespace(bytes: Seq<u8>) -> bool {
    exists|i: int| 0 <= i < bytes.len() && !is_ascii_whitespace(#[trigger] bytes[i])
}

/// The pieces that are not empty, in their order.
pub open spec fn non_empty_pieces(pieces: Seq<Seq<u8>>) -> Seq<Seq<u8>>
    decreases pieces.len(),
{
    if pieces.len() == 0 {
        Seq::empty()
    } else {
        let kept = non_empty_pieces(pieces.drop_last());
        if pieces.last().len() == 0 {
            kept
        } else {
            kept.push(pieces.last())
        }
    }
}

/// The paths listed by NUL-delimited output: the non-empty pieces between
/// NUL bytes.
pub open spec fn listed_paths(stdout: Seq<u8>) -> Seq<Seq<u8>> {
    non_empty_pieces(split_at_sep(stdout, 0u8))
}

/// The text of an error, as shown to the user.
pub open spec fn error_text(e: GitError) -> Seq<char> {
    match e {
        GitError::NotARepository => "not a git repository"@,
        GitError::RevParseFailed { stderr } => "git rev-parse failed: "@ + stderr@,
        GitError::PathNotUtf8 => "git rev-parse output is not UTF-8"@,
        GitError::LsFilesFailed { stderr } => "git ls-files failed: "@ + stderr@,
        GitError::DiffFailed { stderr } => "git diff failed: "@ + stderr@,
    }
}

// ───────────────────────── outside calls ─────────────────────────

/// Splits bytes at every NUL with `bstr`'s `ByteSlice::split_str`; claimed:
/// the pieces are exactly those of `split` at the NUL byte (an empty input
/// gives one empty piece, a NUL at either end an empty piece there).
#[verifier::external_body]
fn split_at_nul(bytes: &[u8]) -> (pieces: Vec<Vec<u8>>)
    ensures
        pieces.deep_view() == split_at_sep(bytes@, 0u8),
{
    bytes.split_str(b"\0").map(|p| p.to_vec()).collect()
}

/// Decodes bytes as UTF-8 with `String::from_utf8`; claimed: it succeeds
/// exactly on valid UTF-8, and then gives the decoded characters.
#[verifier::external_body]
fn utf8_to_string(bytes: Vec<u8>) -> (r: Option<String>)
    ensures
        r is Some <==> valid_utf8(bytes@),
        r matches Some(s) ==> s@ == decode_utf8(bytes@),
{
    String::from_utf8(bytes).ok()
}

// ───────────────────────── implementation ─────────────────────────

impl GitError {
    /// The text shown to the user for this error.
    pub fn message(&self) -> (m: String)
        ensures
            m@ == error_text(*self),
    {
        match self {
            GitError::NotARepository => String::from_str("not a git repository"),
            GitError::RevParseFailed { stderr } => {
                let mut m = String::from_str("git rev-parse failed: ");
                m.append(stderr.as_str());
                m
            },
            GitError::PathNotUtf8 => String::from_str("git rev-parse output is not UTF-8"),
            GitError::LsFilesFailed { stderr } => {
                let mut m = String::from_str("git ls-files failed: ");
                m.append(stderr.as_str());
                m
            },
            GitError::DiffFailed { stderr } => {
                let mut m = String::from_str("git diff failed: ");
                m.append(stderr.as_str());
                m
            },
        }
    }
}

/// Decides `git rev-parse --git-dir`: the directory is inside a repository
/// exactly when the command succeeded.
pub fn ensure_git_repo(out: &GitOutput) -> (r: Result<(), GitError>)
    ensures
        r is Ok <==> out.success,
        !out.success ==> r == Err::<(), GitError>(GitError::NotARepository),
{
    if !out.success {
        return Err(GitError::NotARepository);
    }
    Ok(())
}

/// Decides `git rev-parse --git-path` for the hash file (`HASH_FILE_NAME`):
/// the path it printed, decoded as UTF-8, without trailing white space.
pub fn hash_file_path(out: &GitOutput) -> (r: Result<String, GitError>)
    ensures
        match r {
            Ok(path) => out.success && valid_utf8(out.stdout@) && path@ == trim_end(
                decode_utf8(out.stdout@),
            ),
            Err(GitError::RevParseFailed { stderr }) => !out.success && stderr@ == trim(
                out.stderr@,
            ),
            Err(GitError::PathNotUtf8) => out.success && !valid_utf8(out.stdout@),
            Err(_) => false,
        },
{
    if !out.success {
        let stderr = trim_str(out.stderr.as_str());
        return Err(GitError::RevParseFailed { stderr });
    }
    match utf8_to_string(out.stdout.clone()) {
        Some(text) => Ok(trim_end_str(text.as_str())),
        None => Err(GitError::PathNotUtf8),
    }
}

/// Decides `git ls-files -z -c -o --exclude-standard`: the non-empty
/// NUL-delimited paths, as raw bytes, in the order git listed them.
pub fn ls_files(out: &GitOutput) -> (r: Result<Vec<Vec<u8>>, GitError>)
    ensures
        match r {
            Ok(paths) => out.success && paths.deep_view() == listed_paths(out.stdout@),
            Err(GitError::LsFilesFailed { stderr }) => !out.success && stderr@ == trim(
                out.stderr@,
            ),
            Err(_) => false,
        },
{
    if !out.success {
        let stderr = trim_str(out.stderr.as_str());
        return Err(GitError::LsFilesFailed { stderr });
    }
    let pieces = split_at_nul(out.stdout.as_slice());
    let mut paths: Vec<Vec<u8>> = Vec::new();
    let mut i: usize = 0;
    while i < pieces.len()
        invariant
            i <= pieces.len(),
            pieces.deep_view() == split_at_sep(out.stdout@, 0u8),
            paths.deep_view() == non_empty_pieces(pieces.deep_view().take(i as int)),
        decreases pieces.len() - i,
    {
        assert(pieces.deep_view().take(i + 1).drop_last() == pieces.deep_view().take(i as int));
        assert(pieces.deep_view().take(i + 1).last() == pieces@[i as int]@);
        if pieces[i].len() > 0 {
            let p = pieces[i].clone();
            assert(p@ == pieces@[i as int]@);
            paths.push(p);
            assert(paths.deep_view() == non_empty_pieces(pieces.deep_view().take(i as int)).push(
                p@,
            ));
        }
        i = i + 1;
    }
    assert(pieces.deep_view().take(pieces.len() as int) == pieces.deep_view());
    Ok(paths)
}

/// Decides `git diff --name-only`: there are unstaged changes exactly when
/// the output holds something other than ASCII white space.
pub fn has_unstaged_changes(out: &GitOutput) -> (r: Result<bool, GitError>)
    ensures
        match r {
            Ok(changed) => out.success && changed == has_non_whitespace(out.stdout@),
            Err(GitError::DiffFailed { stderr }) => !out.success && stderr@ == trim(
                out.stderr@,
            ),
            Err(_) => false,
        },
{
    if !out.success {
        let stderr = trim_str(out.stderr.as_str());
        return Err(GitError::DiffFailed { stderr });
    }
    let mut i: usize = 0;
    while i < out.stdout.len()
        invariant
            i <= out.stdout.len(),
            out.success,
            forall|j: int| 0 <= j < i ==> is_ascii_whitespace(#[trigger] out.stdout@[j]),
        decreases out.stdout.len() - i,
    {
        let b = out.stdout[i];
        if !(b == 0x20 || b == 0x09 || b == 0x0a || b == 0x0c || b == 0x0d) {
            assert(!is_ascii_whitespace(out.stdout@[i as int]));
            return Ok(true);
        }
        i = i + 1;
    }
    Ok(false)
}

// ───────────────────────── laws ─────────────────────────

/// Law: every listed path is non-empty and holds no NUL byte.
pub proof fn lemma_listed_paths_shape(stdout: Seq<u8>)
    ensures
        forall|i: int|
            0 <= i < listed_paths(stdout).len() ==> (#[trigger] listed_paths(stdout)[i]).len() > 0
                && !listed_paths(stdout)[i].contains(0u8),
{
    let pieces = split_at_sep(stdout, 0u8);
    lemma_split_pieces_lack_sep(stdout, 0u8);
    lemma_non_empty_pieces_members(pieces);
    assert forall|i: int| 0 <= i < listed_paths(stdout).len() implies (
    #[trigger] listed_paths(stdout)[i]).len() > 0 && !listed_paths(stdout)[i].contains(0u8) by {
        let p = listed_paths(stdout)[i];
        let j = choose|j: int| 0 <= j < pieces.len() && pieces[j] == p;
        assert(!pieces[j].contains(0u8));
    }
}

proof fn lemma_non_empty_pieces_members(pieces: Seq<Seq<u8>>)
    ensures
        forall|i: int|
            0 <= i < non_empty_pieces(pieces).len() ==> (#[trigger] non_empty_pieces(
                pieces,
            )[i]).len() > 0 && pieces.contains(non_empty_pieces(pieces)[i]),
    decreases pieces.len(),
{
    if pieces.len() > 0 {
        lemma_non_empty_pieces_members(pieces.drop_last());
        let kept = non_empty_pieces(pieces.drop_last());
        assert forall|i: int| 0 <= i < non_empty_pieces(pieces).len() implies (
        #[trigger] non_empty_pieces(pieces)[i]).len() > 0 && pieces.contains(
            non_empty_pieces(pieces)[i],
        ) by {
            if i < kept.len() {
                assert(non_empty_pieces(pieces)[i] == kept[i]);
                let j = choose|j: int|
                    0 <= j < pieces.drop_last().len() && pieces.drop_last()[j] == kept[i];
                assert(pieces[j] == kept[i]);
            } else {
                assert(pieces[pieces.len() - 1] == pieces.last());
            }
        }
    }
}

proof fn lemma_non_empty_pieces_filter(pieces: Seq<Seq<u8>>)
    ensures
        non_empty_pieces(pieces) == pieces.filter(|p: Seq<u8>| p.len() > 0),
    decreases pieces.len(),
{
    reveal(Seq::filter);
    if pieces.len() > 0 {
        lemma_non_empty_pieces_filter(pieces.drop_last());
    }
}

/// Law: the listed paths are exactly the non-empty pieces of the output
/// between NUL bytes, every one of them, in their order.
pub proof fn lemma_listed_paths_are_non_empty_pieces(stdout: Seq<u8>)
    ensures
        listed_paths(stdout) == split_at_sep(stdout, 0u8).filter(|p: Seq<u8>| p.len() > 0),
        forall|i: int|
            0 <= i < split_at_sep(stdout, 0u8).len() && split_at_sep(stdout, 0u8)[i].len() > 0
                ==> listed_paths(stdout).contains(#[trigger] split_at_sep(stdout, 0u8)[i]),
{
    let pieces = split_at_sep(stdout, 0u8);
    lemma_non_empty_pieces_filter(pieces);
    assert forall|i: int| 0 <= i < pieces.len() && pieces[i].len() > 0 implies listed_paths(
        stdout,
    ).contains(#[trigger] pieces[i]) by {
        pieces.lemma_filter_contains(|p: Seq<u8>| p.len() > 0, i);
    }
}

/// Law: the bytes `git diff` output may consist of without counting as a
/// change are exactly tab, line feed, form feed, carriage return and space.
pub proof fn lemma_unstaged_means_a_non_blank_byte(stdout: Seq<u8>)
    ensures
        has_non_whitespace(stdout) <==> exists|i: int|
            0 <= i < stdout.len() && !(#[trigger] stdout[i] == 0x09u8 || stdout[i] == 0x0au8
                || stdout[i] == 0x0cu8 || stdout[i] == 0x0du8 || stdout[i] == 0x20u8),
{
}

} // verus!
