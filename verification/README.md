# precommit-check

A Git helper that records the verified state of a repository as a hash,
re-checks it at commit time, and stamps commit messages with a
`Verified: precommit-verify ✓ (…)` footer.

* `src/` — the library, verified with Verus:
  * `footer.rs` — building, removing and appending the footer line, with the
    proofs that stamping leaves exactly one footer, as the last line;
  * `git.rs` — interpreting the output of the `git` invocations;
  * `hash.rs` — which files are hashed, in which order, the hashed byte
    stream and its BLAKE3 digest in hex;
  * `status.rs` — the decisions of `save`, `check` and `verify-footer`;
  * `text.rs` — white space, trimming, splitting and joining of text.
* `app/` — the command-line program: runs `git`, reads and writes files,
  prints.
* `tests/` — tests of the library.
