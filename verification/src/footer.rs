//! The `Verified:` footer of a commit message: building it from the
//! verification state, removing earlier footers, and appending a new one.
//!
//! Everything here is a pure function of its arguments.

use vstd::prelude::*;

use crate::text::{
    chars_of, join_with, lemma_join_avoids, lemma_join_split, lemma_split_concat,
    lemma_split_join, lemma_split_nonempty, lemma_split_of_prefix, lemma_split_pieces_avoid,
    lemma_split_pieces_lack_sep, lemma_split_without_sep, lemma_trim_end_idempotent,
    lemma_trim_end_is_prefix, lemma_white_space_is_unicode_white_space, prefix_of_some,
    push_range, split_at_sep, trim_end, trim_end_len,
};

verus! {

/// Every footer line starts with this text, and only lines that start with it
/// are treated as footers.
pub const FOOTER_PREFIX: &'static str = "Verified: precommit-verify";

/// What the footer records about the repository state.
#[derive(Debug)]
pub enum VerifyStatus {
    /// The saved hash matches the current state; `has_unstaged` tells a clean
    /// working tree (✓) from one with unstaged edits (△).
    Verified { hash16: String, has_unstaged: bool },
    /// A hash was saved, but the current state differs from it (or could not
    /// be hashed).
    Stale,
    /// No hash has been saved yet.
    Unverified,
}

// ───────────────────────── specification ─────────────────────────

pub open spec fn footer_prefix() -> Seq<char> {
    FOOTER_PREFIX@
}

/// Marker of a verified state with a clean working tree.
pub open spec fn check_mark() -> char {
    '\u{2713}'
}

/// Marker of a verified state with unstaged edits.
pub open spec fn triangle_mark() -> char {
    '\u{25b3}'
}

/// Marker of a state that is not verified.
pub open spec fn cross_mark() -> char {
    '\u{2715}'
}

/// The footer line for a status: the prefix, a space and the marker, and for
/// a verified state the short hash in parentheses.
pub open spec fn footer_text(status: VerifyStatus) -> Seq<char> {
    match status {
        VerifyStatus::Verified { hash16, has_unstaged } => footer_prefix() + seq![
            ' ',
            if has_unstaged {
                triangle_mark()
            } else {
                check_mark()
            },
            ' ',
            '(',
        ] + hash16@ + seq![')'],
        _ => footer_prefix() + seq![' ', cross_mark()],
    }
}

/// A line is a footer line when it starts with the footer prefix.
pub open spec fn is_footer_line(line: Seq<char>) -> bool {
    footer_prefix().is_prefix_of(line)
}

/// A line as `str::lines` yields it: a carriage return right before the
/// newline that ends it is not part of the line.
pub open spec fn strip_cr(piece: Seq<char>) -> Seq<char> {
    if piece.len() > 0 && piece.last() == '\r' {
        piece.drop_last()
    } else {
        piece
    }
}

/// `str::lines`: the text split at `\n`, each terminated line without a
/// trailing `\r`, and no empty last line after a final newline.
pub open spec fn lines(s: Seq<char>) -> Seq<Seq<char>> {
    let pieces = split_at_sep(s, '\n');
    let terminated = pieces.drop_last().map_values(|p: Seq<char>| strip_cr(p));
    if pieces.last().len() == 0 {
        terminated
    } else {
        terminated.push(pieces.last())
    }
}

/// The lines that are not footer lines, in their order.
pub open spec fn non_footer_lines(ls: Seq<Seq<char>>) -> Seq<Seq<char>>
    decreases ls.len(),
{
    if ls.len() == 0 {
        Seq::empty()
    } else {
        let kept = non_footer_lines(ls.drop_last());
        if is_footer_line(ls.last()) {
            kept
        } else {
            kept.push(ls.last())
        }
    }
}

/// The message with every footer line removed and the remaining lines
/// joined by `\n`.
pub open spec fn stripped(msg: Seq<char>) -> Seq<char> {
    join_with(non_footer_lines(lines(msg)), '\n')
}

/// The message without trailing white space, a blank line, the footer and a
/// final newline; just the footer and a newline when nothing is left of the
/// message.
pub open spec fn embedded(msg: Seq<char>, footer: Seq<char>) -> Seq<char> {
    let body = trim_end(msg);
    if body.len() == 0 {
        footer.push('\n')
    } else {
        body + seq!['\n', '\n'] + footer.push('\n')
    }
}

// ───────────────────────── implementation ─────────────────────────

/// Builds the footer line for `status`.
#[must_use]
pub fn build_footer(status: &VerifyStatus) -> (footer: String)
    ensures
        footer@ == footer_text(*status),
{
    let mut s = String::from_str(FOOTER_PREFIX);
    s.push(' ');
    match status {
        VerifyStatus::Verified { hash16, has_unstaged } => {
            if *has_unstaged {
                s.push('\u{25b3}');
            } else {
                s.push('\u{2713}');
            }
            s.push(' ');
            s.push('(');
            s.append(hash16.as_str());
            s.push(')');
        },
        _ => {
            s.push('\u{2715}');
        },
    }
    s
}

/// Whether `cs[lo..hi]` starts with `prefix`.
fn range_has_prefix(cs: &Vec<char>, lo: usize, hi: usize, prefix: &Vec<char>) -> (b: bool)
    requires
        lo <= hi <= cs.len(),
    ensures
        b == prefix@.is_prefix_of(cs@.subrange(lo as int, hi as int)),
{
    if hi - lo < prefix.len() {
        return false;
    }
    let mut k: usize = 0;
    while k < prefix.len()
        invariant
            lo + prefix.len() <= hi <= cs.len(),
            k <= prefix.len(),
            forall|j: int| 0 <= j < k ==> prefix@[j] == cs@[lo + j],
        decreases prefix.len() - k,
    {
        if prefix[k] != cs[lo + k] {
            assert(cs@.subrange(lo as int, hi as int)[k as int] == cs@[lo + k]);
            return false;
        }
        k = k + 1;
    }
    assert(prefix@ =~= cs@.subrange(lo as int, hi as int).subrange(0, prefix@.len() as int));
    true
}

/// Removes every line that starts with the footer prefix; the remaining lines
/// are joined with `\n` (line endings are normalised to `\n`, and there is no
/// newline after the last kept line).
#[must_use]
pub fn strip_existing_footer(msg: &str) -> (r: String)
    ensures
        r@ == stripped(msg@),
{
    let cs = chars_of(msg);
    let prefix = chars_of(FOOTER_PREFIX);
    let mut out = String::new();
    let mut kept_any = false;
    let mut start: usize = 0;
    let mut i: usize = 0;
    let ghost mut done: Seq<Seq<char>> = Seq::empty();
    assert(cs@.take(0) =~= Seq::<char>::empty());
    assert(cs@.subrange(0, 0) =~= Seq::<char>::empty());
    while i < cs.len()
        invariant
            start <= i <= cs.len(),
            cs@ == msg@,
            prefix@ == footer_prefix(),
            split_at_sep(cs@.take(i as int), '\n') == done.push(cs@.subrange(start as int, i as int)),
            out@ == join_with(
                non_footer_lines(done.map_values(|p: Seq<char>| strip_cr(p))),
                '\n',
            ),
            kept_any == (non_footer_lines(done.map_values(|p: Seq<char>| strip_cr(p))).len() > 0),
        decreases cs.len() - i,
    {
        let ghost piece = cs@.subrange(start as int, i as int);
        let ghost before = done.map_values(|p: Seq<char>| strip_cr(p));
        assert(cs@.take(i + 1).drop_last() == cs@.take(i as int));
        assert(cs@.take(i + 1).last() == cs@[i as int]);
        if cs[i] == '\n' {
            let end = if i > start && cs[i - 1] == '\r' {
                i - 1
            } else {
                i
            };
            assert(strip_cr(piece) == cs@.subrange(start as int, end as int));
            assert(done.push(piece).map_values(|p: Seq<char>| strip_cr(p)) == before.push(
                strip_cr(piece),
            ));
            assert(before.push(strip_cr(piece)).drop_last() == before);
            if !range_has_prefix(&cs, start, end, &prefix) {
                let ghost kept = non_footer_lines(before);
                assert(kept.push(strip_cr(piece)).drop_last() == kept);
                if kept_any {
                    out.push('\n');
                }
                push_range(&mut out, &cs, start, end);
                kept_any = true;
            }
            proof {
                done = done.push(piece);
            }
            start = i + 1;
            assert(cs@.subrange(start as int, i + 1) =~= Seq::<char>::empty());
        } else {
            assert(cs@.subrange(start as int, i + 1) == piece.push(cs@[i as int]));
            assert(done.push(piece).update(done.len() as int, piece.push(cs@[i as int])) == done.push(
                cs@.subrange(start as int, i + 1),
            ));
        }
        i = i + 1;
    }
    assert(cs@.take(cs.len() as int) == cs@);
    let ghost all = done.push(cs@.subrange(start as int, cs.len() as int));
    assert(all.drop_last() == done);
    if start < cs.len() {
        let ghost before = done.map_values(|p: Seq<char>| strip_cr(p));
        let ghost last = cs@.subrange(start as int, cs.len() as int);
        assert(before.push(last).drop_last() == before);
        if !range_has_prefix(&cs, start, cs.len(), &prefix) {
            let ghost kept = non_footer_lines(before);
            assert(kept.push(last).drop_last() == kept);
            if kept_any {
                out.push('\n');
            }
            push_range(&mut out, &cs, start, cs.len());
        }
    }
    out
}

/// Appends `footer` to `msg` with exactly one blank line before it, after
/// removing trailing white space from `msg`; the result ends in a newline.
#[must_use]
pub fn embed_footer(msg: &str, footer: &str) -> (r: String)
    ensures
        r@ == embedded(msg@, footer@),
{
    let cs = chars_of(msg);
    let n = trim_end_len(&cs);
    let mut out = String::new();
    if n == 0 {
        out.append(footer);
        out.push('\n');
    } else {
        push_range(&mut out, &cs, 0, n);
        out.push('\n');
        out.push('\n');
        out.append(footer);
        out.push('\n');
        assert(cs@.subrange(0, n as int) == cs@.take(n as int));
    }
    out
}

// ───────────────────────── laws ─────────────────────────

/// The footer prefix is a non-empty text without line breaks.
pub proof fn lemma_footer_prefix_shape()
    ensures
        footer_prefix() == seq![
            'V', 'e', 'r', 'i', 'f', 'i', 'e', 'd', ':', ' ', 'p', 'r', 'e', 'c', 'o', 'm', 'm', 'i',
            't', '-', 'v', 'e', 'r', 'i', 'f', 'y',
        ],
        footer_prefix().len() > 0,
        !footer_prefix().contains('\n'),
        !footer_prefix().contains('\r'),
{
    reveal_strlit("Verified: precommit-verify");
    assert(footer_prefix() =~= seq![
        'V', 'e', 'r', 'i', 'f', 'i', 'e', 'd', ':', ' ', 'p', 'r', 'e', 'c', 'o', 'm', 'm', 'i',
        't', '-', 'v', 'e', 'r', 'i', 'f', 'y',
    ]);
}

/// The hash shown in a verified footer holds no line feed and no carriage
/// return.
pub open spec fn single_line_status(status: VerifyStatus) -> bool {
    match status {
        VerifyStatus::Verified { hash16, .. } => !hash16@.contains('\n') && !hash16@.contains('\r'),
        _ => true,
    }
}

/// A footer is one line: it holds no newline, does not end in a carriage
/// return, and is itself a footer line.
pub proof fn lemma_footer_is_one_line(status: VerifyStatus)
    requires
        single_line_status(status),
    ensures
        !footer_text(status).contains('\n'),
        !footer_text(status).contains('\r'),
        footer_text(status).len() > 0,
        footer_text(status).last() != '\r',
        is_footer_line(footer_text(status)),
{
    lemma_footer_prefix_shape();
    let f = footer_text(status);
    let p = footer_prefix();
    assert(p.is_prefix_of(f)) by {
        assert(f.subrange(0, p.len() as int) =~= p);
    }
    assert(!f.contains('\n')) by {
        if f.contains('\n') {
            let j = choose|j: int| 0 <= j < f.len() && f[j] == '\n';
            if j < p.len() {
                assert(p[j] == '\n');
            } else {
                match status {
                    VerifyStatus::Verified { hash16, .. } => {
                        if p.len() + 4 <= j < p.len() + 4 + hash16@.len() {
                            assert(hash16@[j - p.len() - 4] == '\n');
                        }
                    },
                    _ => {},
                }
            }
        }
    }
    assert(!f.contains('\r')) by {
        if f.contains('\r') {
            let j = choose|j: int| 0 <= j < f.len() && f[j] == '\r';
            if j < p.len() {
                assert(p[j] == '\r');
            } else {
                match status {
                    VerifyStatus::Verified { hash16, .. } => {
                        if p.len() + 4 <= j < p.len() + 4 + hash16@.len() {
                            assert(hash16@[j - p.len() - 4] == '\r');
                        }
                    },
                    _ => {},
                }
            }
        }
    }
}

/// A piece is a footer line only if it still is one without its trailing
/// carriage return.
proof fn lemma_strip_cr_prefix(q: Seq<char>)
    ensures
        strip_cr(q).is_prefix_of(q),
        is_footer_line(strip_cr(q)) ==> is_footer_line(q),
{
    assert(strip_cr(q).is_prefix_of(q)) by {
        assert(q.subrange(0, strip_cr(q).len() as int) =~= strip_cr(q));
    }
    if is_footer_line(strip_cr(q)) {
        let p = footer_prefix();
        assert(q.subrange(0, p.len() as int) =~= strip_cr(q).subrange(0, p.len() as int));
    }
}

/// No line holds a newline.
proof fn lemma_lines_lack_newline(s: Seq<char>)
    ensures
        forall|i: int| 0 <= i < lines(s).len() ==> !(#[trigger] lines(s)[i]).contains('\n'),
{
    let pieces = split_at_sep(s, '\n');
    lemma_split_nonempty(s, '\n');
    lemma_split_pieces_lack_sep(s, '\n');
    assert forall|i: int| 0 <= i < lines(s).len() implies !(#[trigger] lines(s)[i]).contains(
        '\n',
    ) by {
        let l = lines(s)[i];
        if i < pieces.len() - 1 {
            let q = pieces[i];
            assert(l == strip_cr(q));
            lemma_strip_cr_prefix(q);
            if l.contains('\n') {
                let j = choose|j: int| 0 <= j < l.len() && l[j] == '\n';
                assert(q[j] == '\n');
            }
        } else {
            assert(l == pieces[pieces.len() - 1]);
        }
    }
}

/// The kept lines are lines of the input that are not footer lines.
proof fn lemma_non_footer_lines_members(ls: Seq<Seq<char>>)
    ensures
        forall|i: int|
            0 <= i < non_footer_lines(ls).len() ==> ls.contains(#[trigger] non_footer_lines(ls)[i])
                && !is_footer_line(non_footer_lines(ls)[i]),
    decreases ls.len(),
{
    if ls.len() > 0 {
        lemma_non_footer_lines_members(ls.drop_last());
        let kept = non_footer_lines(ls.drop_last());
        assert forall|i: int|
            0 <= i < non_footer_lines(ls).len() implies ls.contains(
            #[trigger] non_footer_lines(ls)[i],
        ) && !is_footer_line(non_footer_lines(ls)[i]) by {
            if i < kept.len() {
                assert(non_footer_lines(ls)[i] == kept[i]);
                let j = choose|j: int|
                    0 <= j < ls.drop_last().len() && ls.drop_last()[j] == kept[i];
                assert(ls[j] == kept[i]);
            } else {
                assert(ls[ls.len() - 1] == ls.last());
            }
        }
    }
}

/// The kept lines of a message: no newline inside, none a footer line.
proof fn lemma_kept_lines_shape(msg: Seq<char>)
    ensures
        forall|i: int|
            0 <= i < non_footer_lines(lines(msg)).len() ==> !(#[trigger] non_footer_lines(
                lines(msg),
            )[i]).contains('\n') && !is_footer_line(non_footer_lines(lines(msg))[i]),
{
    let ls = lines(msg);
    lemma_lines_lack_newline(msg);
    lemma_non_footer_lines_members(ls);
    assert forall|i: int| 0 <= i < non_footer_lines(ls).len() implies !(
    #[trigger] non_footer_lines(ls)[i]).contains('\n') && !is_footer_line(
        non_footer_lines(ls)[i],
    ) by {
        let k = non_footer_lines(ls)[i];
        assert(ls.contains(k));
        let j = choose|j: int| 0 <= j < ls.len() && ls[j] == k;
        assert(!ls[j].contains('\n'));
    }
}

/// Every piece of a prefix of the stripped message, with or without its
/// trailing carriage return, is not a footer line.
proof fn lemma_prefix_of_stripped_has_no_footer(msg: Seq<char>, n: int)
    requires
        0 <= n <= stripped(msg).len(),
    ensures
        forall|i: int|
            0 <= i < split_at_sep(stripped(msg).take(n), '\n').len() ==> !is_footer_line(
                #[trigger] split_at_sep(stripped(msg).take(n), '\n')[i],
            ) && !is_footer_line(strip_cr(split_at_sep(stripped(msg).take(n), '\n')[i])),
{
    let kept = non_footer_lines(lines(msg));
    let j = join_with(kept, '\n');
    let qs = split_at_sep(j.take(n), '\n');
    lemma_footer_prefix_shape();
    lemma_kept_lines_shape(msg);
    if kept.len() == 0 {
        assert(j.take(n) =~= Seq::<char>::empty());
        assert forall|i: int| 0 <= i < qs.len() implies !is_footer_line(#[trigger] qs[i])
            && !is_footer_line(strip_cr(qs[i])) by {
            assert(qs[i] =~= Seq::<char>::empty());
        }
    } else {
        lemma_split_join(kept, '\n');
        lemma_split_of_prefix(j, n, '\n');
        assert forall|i: int| 0 <= i < qs.len() implies !is_footer_line(#[trigger] qs[i])
            && !is_footer_line(strip_cr(qs[i])) by {
            let q = qs[i];
            assert(prefix_of_some(q, kept));
            let k = choose|k: int| 0 <= k < kept.len() && q.is_prefix_of(#[trigger] kept[k]);
            lemma_strip_cr_prefix(q);
            if is_footer_line(q) {
                let p = footer_prefix();
                assert(kept[k].subrange(0, p.len() as int) =~= q.subrange(0, p.len() as int));
                assert(is_footer_line(kept[k]));
            }
        }
    }
}

/// `lines` of a text that ends in a newline: the pieces before the final
/// empty one, without their carriage returns.
proof fn lemma_lines_of_terminated(s: Seq<char>)
    requires
        split_at_sep(s, '\n').last().len() == 0,
    ensures
        lines(s) == split_at_sep(s, '\n').drop_last().map_values(|p: Seq<char>| strip_cr(p)),
{
}

/// Law: stripping removes every footer line; no line of the result starts
/// with the footer prefix.
pub proof fn lemma_stripped_has_no_footer_line(msg: Seq<char>)
    ensures
        forall|i: int|
            0 <= i < lines(stripped(msg)).len() ==> !is_footer_line(
                #[trigger] lines(stripped(msg))[i],
            ),
{
    let s = stripped(msg);
    lemma_prefix_of_stripped_has_no_footer(msg, s.len() as int);
    assert(s.take(s.len() as int) == s);
    let pieces = split_at_sep(s, '\n');
    lemma_split_nonempty(s, '\n');
    assert forall|i: int| 0 <= i < lines(s).len() implies !is_footer_line(
        #[trigger] lines(s)[i],
    ) by {
        if i < pieces.len() - 1 {
            assert(lines(s)[i] == strip_cr(pieces[i]));
        } else {
            assert(lines(s)[i] == pieces[pieces.len() - 1]);
        }
    }
}

/// A footer line that stands alone: it starts with the footer prefix and
/// holds no line feed and no carriage return.
pub open spec fn is_single_footer_line(f: Seq<char>) -> bool {
    &&& is_footer_line(f)
    &&& !f.contains('\n')
    &&& !f.contains('\r')
}

/// The lines of a stamped message: the pieces of the trimmed stripped body
/// (each without a final carriage return), an empty line and the footer; or
/// just the footer when nothing is left of the body.
proof fn lemma_stamped_lines(msg: Seq<char>, f: Seq<char>)
    requires
        is_single_footer_line(f),
    ensures
        ({
            let body = trim_end(stripped(msg));
            let ls = lines(embedded(stripped(msg), f));
            if body.len() == 0 {
                ls == seq![f]
            } else {
                ls == split_at_sep(body, '\n').map_values(|p: Seq<char>| strip_cr(p)) + seq![
                    Seq::<char>::empty(),
                    f,
                ]
            }
        }),
{
    let s = stripped(msg);
    let r = embedded(s, f);
    lemma_footer_prefix_shape();
    let p = footer_prefix();
    assert(f.len() > 0) by {
        assert(p.len() <= f.len());
    }
    assert(strip_cr(f) == f) by {
        assert(f.last() == f[f.len() - 1]);
    }
    let empty = Seq::<char>::empty();
    lemma_split_without_sep(f, '\n');
    lemma_split_concat(f, empty, '\n');
    assert(f.push('\n') + empty == f.push('\n'));
    let split_f = split_at_sep(f.push('\n'), '\n');
    assert(split_f == seq![f, empty]);
    let body = trim_end(s);
    if body.len() == 0 {
        assert(r == f.push('\n'));
        lemma_lines_of_terminated(r);
        assert(split_f.drop_last() == seq![f]);
        assert(lines(r) =~= seq![strip_cr(f)]);
    } else {
        let tail = empty.push('\n') + f.push('\n');
        assert(r =~= body.push('\n') + tail);
        lemma_split_concat(body, tail, '\n');
        lemma_split_concat(empty, f.push('\n'), '\n');
        assert(split_at_sep(empty, '\n') == seq![empty]);
        let sb = split_at_sep(body, '\n');
        let all = sb + seq![empty, f, empty];
        assert(split_at_sep(r, '\n') == all);
        lemma_lines_of_terminated(r);
        assert(all.drop_last() =~= sb + seq![empty, f]);
        assert(lines(r) =~= sb.map_values(|p: Seq<char>| strip_cr(p)) + seq![empty, f]);
    }
}

/// Law: stamping a message (stripping earlier footers, then embedding a
/// footer line) leaves exactly one footer line, the last line, and it is
/// the footer embedded.
pub proof fn lemma_stamp_leaves_one_footer_line(msg: Seq<char>, f: Seq<char>)
    requires
        is_single_footer_line(f),
    ensures
        ({
            let ls = lines(embedded(stripped(msg), f));
            &&& ls.len() >= 1
            &&& ls.last() == f
            &&& forall|i: int| 0 <= i < ls.len() - 1 ==> !is_footer_line(#[trigger] ls[i])
        }),
{
    lemma_stamped_lines(msg, f);
    lemma_footer_prefix_shape();
    let s = stripped(msg);
    let body = trim_end(s);
    lemma_trim_end_is_prefix(s);
    if body.len() > 0 {
        let ls = lines(embedded(s, f));
        let sb = split_at_sep(body, '\n');
        lemma_split_nonempty(body, '\n');
        lemma_prefix_of_stripped_has_no_footer(msg, body.len() as int);
        assert forall|i: int| 0 <= i < ls.len() - 1 implies !is_footer_line(#[trigger] ls[i]) by {
            if i < sb.len() {
                assert(ls[i] == strip_cr(sb[i]));
            } else {
                assert(ls[i] == Seq::<char>::empty());
            }
        }
    }
}

/// Law: stamping with the footer of a status leaves exactly one footer line,
/// the last line, and it is that status's footer.
pub proof fn lemma_stamp_leaves_one_footer(msg: Seq<char>, status: VerifyStatus)
    requires
        single_line_status(status),
    ensures
        ({
            let ls = lines(embedded(stripped(msg), footer_text(status)));
            &&& ls.len() >= 1
            &&& ls.last() == footer_text(status)
            &&& forall|i: int| 0 <= i < ls.len() - 1 ==> !is_footer_line(#[trigger] ls[i])
        }),
{
    lemma_footer_is_one_line(status);
    lemma_footer_prefix_shape();
    let f = footer_text(status);
    lemma_stamp_leaves_one_footer_line(msg, f);
}

/// Lines that are all kept come through unchanged.
proof fn lemma_non_footer_lines_keep_all(ls: Seq<Seq<char>>)
    requires
        forall|i: int| 0 <= i < ls.len() ==> !is_footer_line(#[trigger] ls[i]),
    ensures
        non_footer_lines(ls) == ls,
    decreases ls.len(),
{
    if ls.len() > 0 {
        lemma_non_footer_lines_keep_all(ls.drop_last());
        assert(ls[ls.len() - 1] == ls.last());
        assert(ls.drop_last().push(ls.last()) == ls);
    }
}

/// A message without carriage returns strips to a text without them.
proof fn lemma_stripped_lacks_cr(msg: Seq<char>)
    requires
        !msg.contains('\r'),
    ensures
        !stripped(msg).contains('\r'),
{
    let pieces = split_at_sep(msg, '\n');
    lemma_split_nonempty(msg, '\n');
    lemma_split_pieces_avoid(msg, '\n', '\r');
    let ls = lines(msg);
    assert forall|i: int| 0 <= i < ls.len() implies !(#[trigger] ls[i]).contains('\r') by {
        if i < pieces.len() - 1 {
            let q = pieces[i];
            assert(ls[i] == strip_cr(q));
            lemma_strip_cr_prefix(q);
            if ls[i].contains('\r') {
                let j = choose|j: int| 0 <= j < ls[i].len() && ls[i][j] == '\r';
                assert(q[j] == '\r');
            }
        } else {
            assert(ls[i] == pieces[pieces.len() - 1]);
        }
    }
    lemma_non_footer_lines_members(ls);
    let kept = non_footer_lines(ls);
    assert forall|i: int| 0 <= i < kept.len() implies !(#[trigger] kept[i]).contains('\r') by {
        let j = choose|j: int| 0 <= j < ls.len() && ls[j] == kept[i];
        assert(!ls[j].contains('\r'));
    }
    lemma_join_avoids(kept, '\n', '\r');
}

/// Law: stamping an already stamped message again with the same footer line
/// changes nothing (a repeated amend keeps the message as it is). The
/// message must hold no carriage return: stripping turns a line ending
/// `\r\n` into `\n`.
pub proof fn lemma_restamp_changes_nothing(msg: Seq<char>, f: Seq<char>)
    requires
        !msg.contains('\r'),
        is_single_footer_line(f),
    ensures
        embedded(stripped(embedded(stripped(msg), f)), f) == embedded(stripped(msg), f),
{
    let s = stripped(msg);
    let r = embedded(s, f);
    let body = trim_end(s);
    let empty = Seq::<char>::empty();
    lemma_stamped_lines(msg, f);
    if body.len() == 0 {
        assert(lines(r) == seq![f]);
        assert(seq![f].drop_last() =~= Seq::<Seq<char>>::empty());
        assert(seq![f].last() == f);
        assert(non_footer_lines(seq![f].drop_last()) =~= Seq::<Seq<char>>::empty());
        assert(non_footer_lines(seq![f]) =~= Seq::<Seq<char>>::empty());
        assert(stripped(r) =~= empty);
        assert(trim_end(empty) == empty);
    } else {
        let sb = split_at_sep(body, '\n');
        lemma_split_nonempty(body, '\n');
        // no carriage return anywhere in the body
        lemma_stripped_lacks_cr(msg);
        lemma_trim_end_is_prefix(s);
        assert(!body.contains('\r')) by {
            if body.contains('\r') {
                let j = choose|j: int| 0 <= j < body.len() && body[j] == '\r';
                assert(s[j] == '\r');
            }
        }
        lemma_split_pieces_avoid(body, '\n', '\r');
        assert(sb.map_values(|p: Seq<char>| strip_cr(p)) =~= sb) by {
            assert forall|i: int| 0 <= i < sb.len() implies strip_cr(sb[i]) == sb[i] by {
                if sb[i].len() > 0 {
                    assert(sb[i].last() == sb[i][sb[i].len() - 1]);
                }
            }
        }
        // the body's pieces are all kept, the footer is dropped
        lemma_prefix_of_stripped_has_no_footer(msg, body.len() as int);
        let kept = sb.push(empty);
        lemma_footer_prefix_shape();
        assert forall|i: int| 0 <= i < kept.len() implies !is_footer_line(#[trigger] kept[i]) by {
            if i < sb.len() {
                assert(kept[i] == sb[i]);
            } else {
                assert(kept[i] == empty);
            }
        }
        lemma_non_footer_lines_keep_all(kept);
        let ls = sb + seq![empty, f];
        assert(lines(r) == ls);
        assert(ls.drop_last() =~= kept);
        assert(ls.last() == f);
        assert(non_footer_lines(ls) == kept);
        // joining gives the body and a newline back
        lemma_join_split(body, '\n');
        assert(kept.drop_last() == sb);
        assert(stripped(r) == body.push('\n'));
        assert(body.push('\n').drop_last() == body);
        lemma_trim_end_idempotent(s);
        assert(trim_end(body.push('\n')) == body);
    }
}

/// Law: a message that does not end in white space is kept whole: the
/// result is the message, a blank line, the footer and a newline. White
/// space here is the Unicode `White_Space` set, listed explicitly.
pub proof fn lemma_embed_keeps_message_not_ending_in_space(msg: Seq<char>, footer: Seq<char>)
    requires
        msg.len() > 0,
        ({
            let c = msg.last();
            !(c == '\t' || c == '\n' || c == '\u{b}' || c == '\u{c}' || c == '\r' || c == ' '
                || c == '\u{85}' || c == '\u{a0}' || c == '\u{1680}' || ('\u{2000}' <= c && c
                <= '\u{200a}') || c == '\u{2028}' || c == '\u{2029}' || c == '\u{202f}' || c
                == '\u{205f}' || c == '\u{3000}')
        }),
    ensures
        embedded(msg, footer) == msg + seq!['\n', '\n'] + footer + seq!['\n'],
{
    lemma_white_space_is_unicode_white_space(msg.last());
    assert(trim_end(msg) == msg);
    assert(footer.push('\n') == footer + seq!['\n']);
}

/// Law: the kept lines are exactly the lines that do not start with
/// "Verified: precommit-verify", in their order.
pub proof fn lemma_non_footer_lines_filter(ls: Seq<Seq<char>>)
    ensures
        non_footer_lines(ls) == ls.filter(
            |l: Seq<char>|
                !seq![
                    'V', 'e', 'r', 'i', 'f', 'i', 'e', 'd', ':', ' ', 'p', 'r', 'e', 'c', 'o', 'm',
                    'm', 'i', 't', '-', 'v', 'e', 'r', 'i', 'f', 'y',
                ].is_prefix_of(l),
        ),
    decreases ls.len(),
{
    reveal(Seq::filter);
    lemma_footer_prefix_shape();
    if ls.len() > 0 {
        lemma_non_footer_lines_filter(ls.drop_last());
    }
}

/// Law: the lines of a text without carriage returns hold no line feed, and
/// joined with `\n` they give the text back, without its final newline.
pub proof fn lemma_lines_join_back(s: Seq<char>)
    requires
        !s.contains('\r'),
    ensures
        forall|i: int| 0 <= i < lines(s).len() ==> !(#[trigger] lines(s)[i]).contains('\n'),
        join_with(lines(s), '\n') == if s.len() > 0 && s.last() == '\n' {
            s.drop_last()
        } else {
            s
        },
{
    lemma_lines_lack_newline(s);
    let pieces = split_at_sep(s, '\n');
    lemma_split_nonempty(s, '\n');
    lemma_split_pieces_avoid(s, '\n', '\r');
    lemma_join_split(s, '\n');
    let front = pieces.drop_last();
    assert(front.map_values(|p: Seq<char>| strip_cr(p)) =~= front) by {
        assert forall|i: int| 0 <= i < front.len() implies strip_cr(front[i]) == front[i] by {
            assert(front[i] == pieces[i]);
            if front[i].len() > 0 {
                assert(front[i].last() == front[i][front[i].len() - 1]);
            }
        }
    }
    assert(front.push(pieces.last()) == pieces);
    if pieces.last().len() == 0 {
        if s.len() == 0 {
            assert(lines(s) =~= Seq::<Seq<char>>::empty());
            assert(s =~= Seq::<char>::empty());
        } else {
            // the last piece is empty, so the text ends in a line feed
            if s.last() != '\n' {
                assert(split_at_sep(s, '\n').last() == split_at_sep(s.drop_last(), '\n').last().push(
                    s.last(),
                )) by {
                    lemma_split_nonempty(s.drop_last(), '\n');
                }
            }
            assert(s.last() == '\n');
            assert(pieces == split_at_sep(s.drop_last(), '\n').push(Seq::empty()));
            lemma_join_split(s.drop_last(), '\n');
            assert(front == split_at_sep(s.drop_last(), '\n'));
        }
    } else {
        if s.len() > 0 && s.last() == '\n' {
            assert(pieces == split_at_sep(s.drop_last(), '\n').push(Seq::empty()));
        }
        assert(s.len() > 0) by {
            if s.len() == 0 {
                assert(pieces == seq![Seq::<char>::empty()]);
            }
        }
    }
}

/// Law: the lines are the pieces between line feeds; a line that was ended
/// by a line feed loses exactly one carriage return right before it, the
/// last piece is a line only when it is not empty, and it keeps its
/// carriage return.
pub proof fn lemma_lines_are_pieces(s: Seq<char>)
    ensures
        ({
            let pieces = split_at_sep(s, '\n');
            let ls = lines(s);
            &&& pieces.len() >= 1
            &&& ls.len() == if pieces.last().len() == 0 {
                pieces.len() - 1
            } else {
                pieces.len() as int
            }
            &&& forall|i: int|
                0 <= i < pieces.len() - 1 ==> if (#[trigger] pieces[i]).len() > 0
                    && pieces[i][pieces[i].len() - 1] == '\r' {
                    ls[i].push('\r') == pieces[i]
                } else {
                    ls[i] == pieces[i]
                }
            &&& pieces.last().len() > 0 ==> ls.last() == pieces.last()
        }),
{
    let pieces = split_at_sep(s, '\n');
    lemma_split_nonempty(s, '\n');
    let ls = lines(s);
    assert forall|i: int| 0 <= i < pieces.len() - 1 implies if (#[trigger] pieces[i]).len() > 0
        && pieces[i][pieces[i].len() - 1] == '\r' {
        ls[i].push('\r') == pieces[i]
    } else {
        ls[i] == pieces[i]
    } by {
        assert(ls[i] == strip_cr(pieces[i]));
        if pieces[i].len() > 0 {
            assert(pieces[i].last() == pieces[i][pieces[i].len() - 1]);
            if pieces[i].last() == '\r' {
                assert(pieces[i].drop_last().push('\r') =~= pieces[i]);
            }
        }
    }
}

/// Law: white space at the end of the message does not change the result.
pub proof fn lemma_embed_ignores_trailing_space(msg: Seq<char>, c: char, footer: Seq<char>)
    requires
        c == '\t' || c == '\n' || c == '\u{b}' || c == '\u{c}' || c == '\r' || c == ' ' || c
            == '\u{85}' || c == '\u{a0}' || c == '\u{1680}' || ('\u{2000}' <= c && c
            <= '\u{200a}') || c == '\u{2028}' || c == '\u{2029}' || c == '\u{202f}' || c
            == '\u{205f}' || c == '\u{3000}',
    ensures
        embedded(msg.push(c), footer) == embedded(msg, footer),
{
    lemma_white_space_is_unicode_white_space(c);
    assert(msg.push(c).drop_last() == msg);
}

/// Law: the footer texts spelled out: the prefix, a space, then ✓ and the
/// short hash in parentheses for a clean verified state, △ and the short
/// hash for a verified state with unstaged edits, and ✕ otherwise.
pub proof fn lemma_footer_text_spelled_out(status: VerifyStatus)
    ensures
        footer_text(status) == seq![
            'V', 'e', 'r', 'i', 'f', 'i', 'e', 'd', ':', ' ', 'p', 'r', 'e', 'c', 'o', 'm', 'm', 'i',
            't', '-', 'v', 'e', 'r', 'i', 'f', 'y', ' ',
        ] + match status {
            VerifyStatus::Verified { hash16, has_unstaged: false } => seq!['\u{2713}', ' ', '(']
                + hash16@ + seq![')'],
            VerifyStatus::Verified { hash16, has_unstaged: true } => seq!['\u{25b3}', ' ', '(']
                + hash16@ + seq![')'],
            _ => seq!['\u{2715}'],
        },
{
    lemma_footer_prefix_shape();
    match status {
        VerifyStatus::Verified { hash16, has_unstaged } => {
            let m = if has_unstaged {
                '\u{25b3}'
            } else {
                '\u{2713}'
            };
            assert(footer_prefix() + seq![' ', m, ' ', '('] + hash16@ + seq![')'] =~= footer_prefix()
                + seq![' '] + (seq![m, ' ', '('] + hash16@ + seq![')']));
        },
        _ => {
            assert(footer_prefix() + seq![' ', '\u{2715}'] =~= footer_prefix() + seq![' ']
                + seq!['\u{2715}']);
        },
    }
}

} // verus!
