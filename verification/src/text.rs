//! Character-level building blocks: Unicode white space, trimming, splitting
//! at a separator, joining, and conversions between `&str`, `Vec<char>` and
//! `String`.

use vstd::prelude::*;

verus! {

/// Contract of `String::push`, which vstd leaves unspecified: the character
/// is appended at the end.
pub assume_specification[ String::push ](s: &mut String, ch: char)
    ensures
        final(s)@ == old(s)@.push(ch),
;

// ───────────────────────── white space and trimming ─────────────────────────

/// `char::is_whitespace`: the characters with the Unicode `White_Space`
/// property.
pub open spec fn is_white_space(c: char) -> bool {
    let u = c as u32;
    ||| u == 0x20
    ||| 0x09 <= u <= 0x0d
    ||| u == 0x85
    ||| u == 0xa0
    ||| u == 0x1680
    ||| 0x2000 <= u <= 0x200a
    ||| u == 0x2028
    ||| u == 0x2029
    ||| u == 0x202f
    ||| u == 0x205f
    ||| u == 0x3000
}

/// The text with all trailing white space removed (`str::trim_end`).
pub open spec fn trim_end(s: Seq<char>) -> Seq<char>
    decreases s.len(),
{
    if s.len() > 0 && is_white_space(s.last()) {
        trim_end(s.drop_last())
    } else {
        s
    }
}

/// The text with all leading white space removed (`str::trim_start`).
pub open spec fn trim_start(s: Seq<char>) -> Seq<char>
    decreases s.len(),
{
    if s.len() > 0 && is_white_space(s[0]) {
        trim_start(s.drop_first())
    } else {
        s
    }
}

/// The text with leading and trailing white space removed (`str::trim`).
pub open spec fn trim(s: Seq<char>) -> Seq<char> {
    trim_start(trim_end(s))
}

/// Law: the white space that trimming removes is exactly the Unicode
/// `White_Space` set: tab, line feed, vertical tab, form feed, carriage
/// return, space, next line, no-break space, ogham space mark, the spaces
/// U+2000 to U+200A, line and paragraph separator, narrow no-break space,
/// medium mathematical space and ideographic space.
pub proof fn lemma_white_space_is_unicode_white_space(c: char)
    ensures
        is_white_space(c) <==> (c == '\t' || c == '\n' || c == '\u{b}' || c == '\u{c}' || c
            == '\r' || c == ' ' || c == '\u{85}' || c == '\u{a0}' || c == '\u{1680}' || (
        '\u{2000}' <= c && c <= '\u{200a}') || c == '\u{2028}' || c == '\u{2029}' || c
            == '\u{202f}' || c == '\u{205f}' || c == '\u{3000}'),
{
}

pub fn is_white_space_char(c: char) -> (b: bool)
    ensures
        b == is_white_space(c),
{
    let u = c as u32;
    u == 0x20 || (0x09 <= u && u <= 0x0d) || u == 0x85 || u == 0xa0 || u == 0x1680 || (0x2000
        <= u && u <= 0x200a) || u == 0x2028 || u == 0x2029 || u == 0x202f || u == 0x205f || u
        == 0x3000
}

/// Trimming the end leaves a prefix of the text.
pub proof fn lemma_trim_end_is_prefix(s: Seq<char>)
    ensures
        trim_end(s).len() <= s.len(),
        trim_end(s) == s.take(trim_end(s).len() as int),
    decreases s.len(),
{
    if s.len() > 0 && is_white_space(s.last()) {
        lemma_trim_end_is_prefix(s.drop_last());
        assert(s.drop_last().take(trim_end(s).len() as int) == s.take(trim_end(s).len() as int));
    } else {
        assert(s.take(s.len() as int) == s);
    }
}

/// Law: trimming the end keeps a prefix of the text; everything cut off is
/// white space, and what is kept does not end in white space.
pub proof fn lemma_trim_end_characterised(s: Seq<char>)
    ensures
        trim_end(s) == s.take(trim_end(s).len() as int),
        forall|k: int| trim_end(s).len() <= k < s.len() ==> is_white_space(#[trigger] s[k]),
        trim_end(s).len() == 0 || !is_white_space(trim_end(s).last()),
    decreases s.len(),
{
    lemma_trim_end_is_prefix(s);
    if s.len() > 0 && is_white_space(s.last()) {
        lemma_trim_end_characterised(s.drop_last());
        assert forall|k: int| trim_end(s).len() <= k < s.len() implies is_white_space(
            #[trigger] s[k],
        ) by {
            if k < s.len() - 1 {
                assert(s.drop_last()[k] == s[k]);
            }
        }
    }
}

/// Law: trimming the start keeps a suffix of the text; everything cut off is
/// white space, and what is kept does not start with white space.
pub proof fn lemma_trim_start_characterised(s: Seq<char>)
    ensures
        trim_start(s).len() <= s.len(),
        trim_start(s) == s.skip(s.len() - trim_start(s).len()),
        forall|k: int| 0 <= k < s.len() - trim_start(s).len() ==> is_white_space(#[trigger] s[k]),
        trim_start(s).len() == 0 || !is_white_space(trim_start(s)[0]),
    decreases s.len(),
{
    if s.len() > 0 && is_white_space(s[0]) {
        lemma_trim_start_characterised(s.drop_first());
        let n = s.len() - trim_start(s).len();
        assert(s.drop_first().skip(s.drop_first().len() - trim_start(s).len()) == s.skip(n));
        assert forall|k: int| 0 <= k < n implies is_white_space(#[trigger] s[k]) by {
            if k > 0 {
                assert(s.drop_first()[k - 1] == s[k]);
            }
        }
    } else {
        assert(s.skip(0) == s);
    }
}

/// Trimming the end twice is trimming it once.
pub proof fn lemma_trim_end_idempotent(s: Seq<char>)
    ensures
        trim_end(trim_end(s)) == trim_end(s),
    decreases s.len(),
{
    if s.len() > 0 && is_white_space(s.last()) {
        lemma_trim_end_idempotent(s.drop_last());
    }
}

/// Where the trimmed-at-the-end text stops: the length of the longest prefix
/// of `s` whose rest is all white space and which does not itself end in
/// white space.
pub fn trim_end_len(s: &Vec<char>) -> (n: usize)
    ensures
        n <= s.len(),
        trim_end(s@) == s@.take(n as int),
{
    let mut n = s.len();
    proof {
        assert(s@.take(n as int) == s@);
    }
    while n > 0 && is_white_space_char(s[n - 1])
        invariant
            n <= s.len(),
            trim_end(s@) == trim_end(s@.take(n as int)),
        decreases n,
    {
        assert(s@.take(n as int).drop_last() == s@.take(n - 1));
        n = n - 1;
    }
    n
}

/// Where the trimmed-at-the-start text begins.
pub fn trim_start_len(s: &Vec<char>, lo: usize, hi: usize) -> (n: usize)
    requires
        lo <= hi <= s.len(),
    ensures
        lo <= n <= hi,
        trim_start(s@.subrange(lo as int, hi as int)) == s@.subrange(n as int, hi as int),
{
    let mut n = lo;
    while n < hi && is_white_space_char(s[n])
        invariant
            lo <= n <= hi <= s.len(),
            trim_start(s@.subrange(lo as int, hi as int)) == trim_start(
                s@.subrange(n as int, hi as int),
            ),
        decreases hi - n,
    {
        assert(s@.subrange(n as int, hi as int).drop_first() == s@.subrange(n + 1, hi as int));
        n = n + 1;
    }
    n
}

// ───────────────────────── conversions ─────────────────────────

/// The characters of a string slice, in order.
pub fn chars_of(s: &str) -> (v: Vec<char>)
    ensures
        v@ == s@,
{
    let mut v: Vec<char> = Vec::new();
    for c in iter: s.chars()
        invariant
            v@ == iter.seq().take(iter.index()),
    {
        v.push(c);
    }
    v
}

/// Appends `cs[lo..hi]` to `out`.
pub fn push_range(out: &mut String, cs: &Vec<char>, lo: usize, hi: usize)
    requires
        lo <= hi <= cs.len(),
    ensures
        final(out)@ == old(out)@ + cs@.subrange(lo as int, hi as int),
{
    let mut i = lo;
    while i < hi
        invariant
            lo <= i <= hi <= cs.len(),
            out@ == old(out)@ + cs@.subrange(lo as int, i as int),
        decreases hi - i,
    {
        out.push(cs[i]);
        assert(cs@.subrange(lo as int, i + 1) == cs@.subrange(lo as int, i as int).push(cs@[i as int]));
        i = i + 1;
    }
}

/// A `String` holding `cs[lo..hi]`.
pub fn string_of_range(cs: &Vec<char>, lo: usize, hi: usize) -> (s: String)
    requires
        lo <= hi <= cs.len(),
    ensures
        s@ == cs@.subrange(lo as int, hi as int),
{
    let mut s = String::new();
    push_range(&mut s, cs, lo, hi);
    s
}

/// `str::trim`, on a string slice.
pub fn trim_str(s: &str) -> (r: String)
    ensures
        r@ == trim(s@),
{
    let cs = chars_of(s);
    let hi = trim_end_len(&cs);
    let lo = trim_start_len(&cs, 0, hi);
    proof {
        assert(cs@.subrange(0, hi as int) == cs@.take(hi as int));
    }
    string_of_range(&cs, lo, hi)
}

/// `str::trim_end`, on a string slice.
pub fn trim_end_str(s: &str) -> (r: String)
    ensures
        r@ == trim_end(s@),
{
    let cs = chars_of(s);
    let hi = trim_end_len(&cs);
    proof {
        assert(cs@.subrange(0, hi as int) == cs@.take(hi as int));
    }
    string_of_range(&cs, 0, hi)
}

// ───────────────────────── splitting and joining ─────────────────────────

/// The pieces of `s` between occurrences of `sep`, as `split(sep)` yields
/// them: always at least one piece, an empty one around each separator at an
/// end, and one empty piece between two adjacent separators.
pub open spec fn split_at_sep<A>(s: Seq<A>, sep: A) -> Seq<Seq<A>>
    decreases s.len(),
{
    if s.len() == 0 {
        seq![Seq::empty()]
    } else {
        let pieces = split_at_sep(s.drop_last(), sep);
        if s.last() == sep {
            pieces.push(Seq::empty())
        } else {
            pieces.update(pieces.len() - 1, pieces.last().push(s.last()))
        }
    }
}

/// The pieces joined back together with `sep` between neighbours.
pub open spec fn join_with<A>(pieces: Seq<Seq<A>>, sep: A) -> Seq<A>
    decreases pieces.len(),
{
    if pieces.len() == 0 {
        Seq::empty()
    } else if pieces.len() == 1 {
        pieces[0]
    } else {
        join_with(pieces.drop_last(), sep).push(sep) + pieces.last()
    }
}

pub proof fn lemma_split_nonempty<A>(s: Seq<A>, sep: A)
    ensures
        split_at_sep(s, sep).len() >= 1,
    decreases s.len(),
{
    if s.len() > 0 {
        lemma_split_nonempty(s.drop_last(), sep);
    }
}

/// No piece holds the separator.
pub proof fn lemma_split_pieces_lack_sep<A>(s: Seq<A>, sep: A)
    ensures
        forall|i: int|
            0 <= i < split_at_sep(s, sep).len() ==> !(#[trigger] split_at_sep(s, sep)[i]).contains(
                sep,
            ),
    decreases s.len(),
{
    if s.len() > 0 {
        lemma_split_pieces_lack_sep(s.drop_last(), sep);
        lemma_split_nonempty(s.drop_last(), sep);
        let pieces = split_at_sep(s.drop_last(), sep);
        if s.last() != sep {
            let last = pieces.last().push(s.last());
            assert forall|j: int| 0 <= j < last.len() implies last[j] != sep by {
                if j < pieces.last().len() {
                    assert(pieces[pieces.len() - 1][j] == last[j]);
                }
            }
        }
    }
}

/// A text without the separator is a single piece.
pub proof fn lemma_split_without_sep<A>(s: Seq<A>, sep: A)
    requires
        !s.contains(sep),
    ensures
        split_at_sep(s, sep) == seq![s],
    decreases s.len(),
{
    if s.len() == 0 {
        assert(s =~= Seq::<A>::empty());
    } else {
        assert(!s.drop_last().contains(sep)) by {
            if s.drop_last().contains(sep) {
                let j = choose|j: int| 0 <= j < s.drop_last().len() && s.drop_last()[j] == sep;
                assert(s[j] == sep);
            }
        }
        lemma_split_without_sep(s.drop_last(), sep);
        assert(s.last() != sep) by {
            assert(s[s.len() - 1] == s.last());
        }
        assert(s.drop_last().push(s.last()) == s);
        assert(seq![s.drop_last()].update(0, s.drop_last().push(s.last())) == seq![s]);
    }
}

/// Splitting distributes over a separator placed between two texts.
pub proof fn lemma_split_concat<A>(a: Seq<A>, b: Seq<A>, sep: A)
    ensures
        split_at_sep(a.push(sep) + b, sep) == split_at_sep(a, sep) + split_at_sep(b, sep),
    decreases b.len(),
{
    if b.len() == 0 {
        assert(a.push(sep) + b == a.push(sep));
        assert(a.push(sep).drop_last() == a);
    } else {
        let s = a.push(sep) + b;
        assert(s.drop_last() == a.push(sep) + b.drop_last());
        lemma_split_concat(a, b.drop_last(), sep);
        lemma_split_nonempty(b.drop_last(), sep);
        lemma_split_nonempty(a, sep);
        assert(s.last() == b.last());
        let pa = split_at_sep(a, sep);
        let pb = split_at_sep(b.drop_last(), sep);
        if b.last() == sep {
            assert((pa + pb).push(Seq::empty()) == pa + pb.push(Seq::empty()));
        } else {
            assert((pa + pb).update((pa + pb).len() - 1, (pa + pb).last().push(b.last())) == pa
                + pb.update(pb.len() - 1, pb.last().push(b.last())));
        }
    }
}

/// Joining pieces that lack the separator and splitting again gives the
/// pieces back.
pub proof fn lemma_split_join<A>(pieces: Seq<Seq<A>>, sep: A)
    requires
        pieces.len() >= 1,
        forall|i: int| 0 <= i < pieces.len() ==> !(#[trigger] pieces[i]).contains(sep),
    ensures
        split_at_sep(join_with(pieces, sep), sep) == pieces,
    decreases pieces.len(),
{
    if pieces.len() == 1 {
        lemma_split_without_sep(pieces[0], sep);
    } else {
        lemma_split_join(pieces.drop_last(), sep);
        lemma_split_concat(join_with(pieces.drop_last(), sep), pieces.last(), sep);
        lemma_split_without_sep(pieces.last(), sep);
        assert(pieces.drop_last() + seq![pieces.last()] == pieces);
    }
}

/// A value missing from the text is missing from every piece.
pub proof fn lemma_split_pieces_avoid<A>(s: Seq<A>, sep: A, x: A)
    requires
        !s.contains(x),
    ensures
        forall|i: int|
            0 <= i < split_at_sep(s, sep).len() ==> !(#[trigger] split_at_sep(s, sep)[i]).contains(x),
    decreases s.len(),
{
    if s.len() > 0 {
        assert(!s.drop_last().contains(x)) by {
            if s.drop_last().contains(x) {
                let j = choose|j: int| 0 <= j < s.drop_last().len() && s.drop_last()[j] == x;
                assert(s[j] == x);
            }
        }
        lemma_split_pieces_avoid(s.drop_last(), sep, x);
        lemma_split_nonempty(s.drop_last(), sep);
        let pieces = split_at_sep(s.drop_last(), sep);
        assert(s.last() != x) by {
            assert(s[s.len() - 1] == s.last());
        }
        if s.last() != sep {
            let last = pieces.last().push(s.last());
            assert forall|j: int| 0 <= j < last.len() implies last[j] != x by {
                if j < pieces.last().len() {
                    assert(pieces[pieces.len() - 1][j] == last[j]);
                }
            }
        }
    }
}

/// Joining pieces that lack a value other than the separator gives a text
/// that lacks it.
pub proof fn lemma_join_avoids<A>(pieces: Seq<Seq<A>>, sep: A, x: A)
    requires
        x != sep,
        forall|i: int| 0 <= i < pieces.len() ==> !(#[trigger] pieces[i]).contains(x),
    ensures
        !join_with(pieces, sep).contains(x),
    decreases pieces.len(),
{
    if pieces.len() > 1 {
        lemma_join_avoids(pieces.drop_last(), sep, x);
        let j = join_with(pieces, sep);
        let front = join_with(pieces.drop_last(), sep).push(sep);
        assert(!pieces[pieces.len() - 1].contains(x));
        if j.contains(x) {
            let k = choose|k: int| 0 <= k < j.len() && j[k] == x;
            if k < front.len() - 1 {
                assert(join_with(pieces.drop_last(), sep)[k] == x);
            } else if k >= front.len() {
                assert(pieces.last()[k - front.len()] == x);
            }
        }
    } else if pieces.len() == 1 {
        assert(!pieces[0].contains(x));
    }
}

/// Extending the last piece extends the joined text.
proof fn lemma_join_extend_last<A>(pieces: Seq<Seq<A>>, sep: A, c: A)
    requires
        pieces.len() >= 1,
    ensures
        join_with(pieces.update(pieces.len() - 1, pieces.last().push(c)), sep) == join_with(
            pieces,
            sep,
        ).push(c),
{
    let q = pieces.update(pieces.len() - 1, pieces.last().push(c));
    if pieces.len() > 1 {
        assert(q.drop_last() == pieces.drop_last());
        assert(q.last() == pieces.last().push(c));
        assert(join_with(pieces.drop_last(), sep).push(sep) + pieces.last().push(c) == (join_with(
            pieces.drop_last(),
            sep,
        ).push(sep) + pieces.last()).push(c));
    }
}

/// Splitting and joining again gives the text back.
pub proof fn lemma_join_split<A>(s: Seq<A>, sep: A)
    ensures
        join_with(split_at_sep(s, sep), sep) == s,
    decreases s.len(),
{
    if s.len() == 0 {
        assert(s =~= Seq::<A>::empty());
    } else {
        lemma_join_split(s.drop_last(), sep);
        lemma_split_nonempty(s.drop_last(), sep);
        let pieces = split_at_sep(s.drop_last(), sep);
        if s.last() == sep {
            let q = pieces.push(Seq::empty());
            assert(q.drop_last() == pieces);
            assert(join_with(q, sep) == s.drop_last().push(sep) + Seq::<A>::empty());
        } else {
            lemma_join_extend_last(pieces, sep, s.last());
        }
        assert(s.drop_last().push(s.last()) == s);
    }
}

/// `q` is a prefix of one of the pieces.
pub open spec fn prefix_of_some<A>(q: Seq<A>, pieces: Seq<Seq<A>>) -> bool {
    exists|j: int| 0 <= j < pieces.len() && q.is_prefix_of(#[trigger] pieces[j])
}

/// Every piece of a prefix of a text is a prefix of some piece of the text.
pub proof fn lemma_split_of_prefix<A>(s: Seq<A>, n: int, sep: A)
    requires
        0 <= n <= s.len(),
    ensures
        forall|i: int|
            0 <= i < split_at_sep(s.take(n), sep).len() ==> prefix_of_some(
                #[trigger] split_at_sep(s.take(n), sep)[i],
                split_at_sep(s, sep),
            ),
    decreases s.len() - n,
{
    let ps = split_at_sep(s.take(n), sep);
    let all = split_at_sep(s, sep);
    if n == s.len() {
        assert(s.take(n) == s);
        assert forall|i: int| 0 <= i < ps.len() implies prefix_of_some(#[trigger] ps[i], all) by {
            assert(ps[i].is_prefix_of(all[i]));
        }
    } else {
        lemma_split_of_prefix(s, n + 1, sep);
        let t = s.take(n + 1);
        assert(t.drop_last() == s.take(n));
        let qs = split_at_sep(t, sep);
        lemma_split_nonempty(s.take(n), sep);
        assert forall|i: int| 0 <= i < ps.len() implies prefix_of_some(#[trigger] ps[i], all) by {
            assert(ps[i].is_prefix_of(qs[i]));
            assert(prefix_of_some(qs[i], all));
            let j = choose|j: int| 0 <= j < all.len() && qs[i].is_prefix_of(#[trigger] all[j]);
            assert(ps[i].is_prefix_of(all[j]));
        }
    }
}

} // verus!

verus! {

/// A byte vector's deep view is its view.
pub broadcast proof fn lemma_byte_vec_deep_view(v: Vec<u8>)
    ensures
        #[trigger] v.deep_view() == v@,
{
    assert(v.deep_view() =~= v@);
}

} // verus!
