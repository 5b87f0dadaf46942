//! The repository hash: which listed files take part, in which order, what
//! byte stream is digested, and how the digest is written.
//!
//! Opening and reading the files is the caller's part; a file that could not
//! be opened is handed over without content and is left out of the stream.

use vstd::prelude::*;
use vstd::multiset::Multiset;
use vstd::relations::{sorted_by, total_ordering};
use vstd::seq_lib::lemma_sorted_unique;

use crate::text::lemma_byte_vec_deep_view;

verus! {

broadcast use lemma_byte_vec_deep_view;

/// One listed file as the caller found it: its path, and its content when the
/// file could be opened.
pub struct FileRead {
    pub path: Vec<u8>,
    pub content: Option<Vec<u8>>,
}

impl View for FileRead {
    type V = (Seq<u8>, Option<Seq<u8>>);

    open spec fn view(&self) -> (Seq<u8>, Option<Seq<u8>>) {
        (
            self.path@,
            match self.content {
                Some(c) => Some(c@),
                None => None,
            },
        )
    }
}

// ───────────────────────── which files, in which order ─────────────────────────

/// The path ends in `.md`.
pub open spec fn is_markdown(path: Seq<u8>) -> bool {
    path.len() >= 3 && path.subrange(path.len() - 3, path.len() as int) == seq![
        0x2eu8,
        0x6du8,
        0x64u8,
    ]
}

/// The paths that do not end in `.md`, in their order.
pub open spec fn non_markdown(paths: Seq<Seq<u8>>) -> Seq<Seq<u8>>
    decreases paths.len(),
{
    if paths.len() == 0 {
        Seq::empty()
    } else {
        let kept = non_markdown(paths.drop_last());
        if is_markdown(paths.last()) {
            kept
        } else {
            kept.push(paths.last())
        }
    }
}

/// Byte order on byte strings (`Ord` for `[u8]`): the first differing byte
/// decides, and a proper prefix comes first.
pub open spec fn bytes_le(a: Seq<u8>, b: Seq<u8>) -> bool
    decreases a.len(),
{
    if a.len() == 0 {
        true
    } else if b.len() == 0 {
        false
    } else if a[0] != b[0] {
        a[0] < b[0]
    } else {
        bytes_le(a.drop_first(), b.drop_first())
    }
}

pub open spec fn byte_order() -> spec_fn(Seq<u8>, Seq<u8>) -> bool {
    |a: Seq<u8>, b: Seq<u8>| bytes_le(a, b)
}

/// The files that take part in the hash: the listed paths without those
/// ending in `.md`, sorted in byte order.
pub open spec fn hashed_files(paths: Seq<Seq<u8>>) -> Seq<Seq<u8>> {
    non_markdown(paths).sort_by(byte_order())
}

proof fn lemma_bytes_le_reflexive(a: Seq<u8>)
    ensures
        bytes_le(a, a),
    decreases a.len(),
{
    if a.len() > 0 {
        lemma_bytes_le_reflexive(a.drop_first());
    }
}

proof fn lemma_bytes_le_antisymmetric(a: Seq<u8>, b: Seq<u8>)
    requires
        bytes_le(a, b),
        bytes_le(b, a),
    ensures
        a == b,
    decreases a.len(),
{
    if a.len() == 0 {
        assert(b.len() == 0);
        assert(a =~= b);
    } else {
        lemma_bytes_le_antisymmetric(a.drop_first(), b.drop_first());
        assert(a =~= seq![a[0]] + a.drop_first());
        assert(b =~= seq![b[0]] + b.drop_first());
    }
}

proof fn lemma_bytes_le_transitive(a: Seq<u8>, b: Seq<u8>, c: Seq<u8>)
    requires
        bytes_le(a, b),
        bytes_le(b, c),
    ensures
        bytes_le(a, c),
    decreases a.len(),
{
    if a.len() > 0 && b.len() > 0 && c.len() > 0 && a[0] == b[0] && b[0] == c[0] {
        lemma_bytes_le_transitive(a.drop_first(), b.drop_first(), c.drop_first());
    }
}

proof fn lemma_bytes_le_total(a: Seq<u8>, b: Seq<u8>)
    ensures
        bytes_le(a, b) || bytes_le(b, a),
    decreases a.len(),
{
    if a.len() > 0 && b.len() > 0 && a[0] == b[0] {
        lemma_bytes_le_total(a.drop_first(), b.drop_first());
    }
}

/// Byte order is a total order.
pub proof fn lemma_byte_order_total()
    ensures
        total_ordering(byte_order()),
{
    assert forall|a: Seq<u8>| #[trigger] byte_order()(a, a) by {
        lemma_bytes_le_reflexive(a);
    }
    assert forall|a: Seq<u8>, b: Seq<u8>|
        #[trigger] byte_order()(a, b) && #[trigger] byte_order()(b, a) implies a == b by {
        lemma_bytes_le_antisymmetric(a, b);
    }
    assert forall|a: Seq<u8>, b: Seq<u8>, c: Seq<u8>|
        #[trigger] byte_order()(a, b) && #[trigger] byte_order()(b, c) implies byte_order()(
        a,
        c,
    ) by {
        lemma_bytes_le_transitive(a, b, c);
    }
    assert forall|a: Seq<u8>, b: Seq<u8>|
        #[trigger] byte_order()(a, b) || #[trigger] byte_order()(b, a) by {
        lemma_bytes_le_total(a, b);
    }
}

fn path_is_markdown(path: &Vec<u8>) -> (b: bool)
    ensures
        b == is_markdown(path@),
{
    let n = path.len();
    if n < 3 {
        return false;
    }
    let r = path[n - 3] == 0x2e && path[n - 2] == 0x6d && path[n - 1] == 0x64;
    proof {
        let tail = path@.subrange(n - 3, n as int);
        if r {
            assert(tail =~= seq![0x2eu8, 0x6du8, 0x64u8]);
        } else {
            if tail == seq![0x2eu8, 0x6du8, 0x64u8] {
                assert(tail[0] == path@[n - 3]);
                assert(tail[1] == path@[n - 2]);
                assert(tail[2] == path@[n - 1]);
            }
        }
    }
    r
}

fn path_le(a: &Vec<u8>, b: &Vec<u8>) -> (r: bool)
    ensures
        r == bytes_le(a@, b@),
{
    let mut i: usize = 0;
    assert(a@.skip(0) == a@);
    assert(b@.skip(0) == b@);
    while i < a.len() && i < b.len()
        invariant
            i <= a.len(),
            i <= b.len(),
            bytes_le(a@, b@) == bytes_le(a@.skip(i as int), b@.skip(i as int)),
        decreases a.len() - i,
    {
        if a[i] != b[i] {
            return a[i] < b[i];
        }
        assert(a@.skip(i as int).drop_first() == a@.skip(i + 1));
        assert(b@.skip(i as int).drop_first() == b@.skip(i + 1));
        i = i + 1;
    }
    i == a.len()
}

/// Where `x` goes in the sorted `sorted`: after every element not above it,
/// before every element above it.
fn insertion_point(sorted: &Vec<Vec<u8>>, x: &Vec<u8>) -> (pos: usize)
    requires
        sorted_by(sorted.deep_view(), byte_order()),
    ensures
        pos <= sorted.len(),
        forall|j: int| 0 <= j < pos ==> bytes_le(#[trigger] sorted.deep_view()[j], x@),
        forall|j: int| pos <= j < sorted.len() ==> !bytes_le(#[trigger] sorted.deep_view()[j], x@),
{
    proof {
        lemma_byte_order_total();
    }
    let mut lo: usize = 0;
    let mut hi: usize = sorted.len();
    while lo < hi
        invariant
            lo <= hi <= sorted.len(),
            sorted_by(sorted.deep_view(), byte_order()),
            total_ordering(byte_order()),
            forall|j: int| 0 <= j < lo ==> bytes_le(#[trigger] sorted.deep_view()[j], x@),
            forall|j: int| hi <= j < sorted.len() ==> !bytes_le(#[trigger] sorted.deep_view()[j], x@),
        decreases hi - lo,
    {
        let mid = lo + (hi - lo) / 2;
        let ghost d = sorted.deep_view();
        if path_le(&sorted[mid], x) {
            assert forall|j: int| 0 <= j < mid + 1 implies bytes_le(#[trigger] d[j], x@) by {
                if j < mid {
                    assert(byte_order()(d[j], d[mid as int]));
                    assert(byte_order()(d[mid as int], x@));
                }
            }
            lo = mid + 1;
        } else {
            assert forall|j: int| mid <= j < sorted.len() implies !bytes_le(#[trigger] d[j], x@) by {
                if j > mid {
                    assert(byte_order()(d[mid as int], d[j]));
                    if byte_order()(d[j], x@) {
                        assert(byte_order()(d[mid as int], x@));
                    }
                }
            }
            hi = mid;
        }
    }
    lo
}

/// Multiset view of `non_markdown`: the listed paths that do not end in
/// `.md`, counted with multiplicity.
proof fn lemma_non_markdown_multiset(paths: Seq<Seq<u8>>)
    ensures
        non_markdown(paths).to_multiset() == paths.to_multiset().filter(
            |p: Seq<u8>| !is_markdown(p),
        ),
    decreases paths.len(),
{
    broadcast use vstd::seq_lib::group_to_multiset_ensures;
    broadcast use vstd::multiset::group_multiset_axioms;

    if paths.len() == 0 {
        assert(paths.to_multiset().filter(|p: Seq<u8>| !is_markdown(p)) =~= Multiset::empty());
    } else {
        lemma_non_markdown_multiset(paths.drop_last());
        assert(paths.drop_last().push(paths.last()) == paths);
        assert(non_markdown(paths).to_multiset() =~= paths.to_multiset().filter(
            |p: Seq<u8>| !is_markdown(p),
        ));
    }
}

/// Selects the files that take part in the hash: drops the paths ending in
/// `.md` and sorts the rest in byte order.
pub fn hash_candidates(paths: Vec<Vec<u8>>) -> (files: Vec<Vec<u8>>)
    ensures
        files.deep_view() == hashed_files(paths.deep_view()),
{
    broadcast use vstd::seq_lib::group_to_multiset_ensures;

    proof {
        lemma_byte_order_total();
    }
    let mut files: Vec<Vec<u8>> = Vec::new();
    let mut i: usize = 0;
    while i < paths.len()
        invariant
            i <= paths.len(),
            total_ordering(byte_order()),
            sorted_by(files.deep_view(), byte_order()),
            files.deep_view().to_multiset() == non_markdown(
                paths.deep_view().take(i as int),
            ).to_multiset(),
        decreases paths.len() - i,
    {
        let ghost pv = paths.deep_view();
        assert(pv.take(i + 1).drop_last() == pv.take(i as int));
        assert(pv.take(i + 1).last() == paths@[i as int]@);
        let md = path_is_markdown(&paths[i]);
        if md {
            assert(non_markdown(pv.take(i + 1)) == non_markdown(pv.take(i as int)));
        } else {
            assert(non_markdown(pv.take(i + 1)) == non_markdown(pv.take(i as int)).push(
                paths@[i as int]@,
            ));
            let pos = insertion_point(&files, &paths[i]);
            let ghost before = files.deep_view();
            let p = paths[i].clone();
            assert(p@ == paths@[i as int]@);
            files.insert(pos, p);
            let ghost after = files.deep_view();
            assert(after =~= before.insert(pos as int, p@));
            assert(sorted_by(after, byte_order())) by {
                assert forall|a: int, b: int| 0 <= a < b < after.len() implies #[trigger] byte_order()(
                    after[a],
                    after[b],
                ) by {
                    if b < pos {
                        assert(byte_order()(before[a], before[b]));
                    } else if b == pos {
                        assert(bytes_le(before[a], p@));
                    } else if a < pos {
                        assert(byte_order()(before[a], before[b - 1]));
                    } else if a == pos {
                        assert(!bytes_le(before[b - 1], p@));
                        lemma_bytes_le_total(before[b - 1], p@);
                    } else {
                        assert(byte_order()(before[a - 1], before[b - 1]));
                    }
                }
            }
            proof {
                vstd::seq_lib::to_multiset_insert(before, pos as int, p@);
                assert(after.to_multiset() == before.to_multiset().insert(p@));
                vstd::seq_lib::to_multiset_build(non_markdown(pv.take(i as int)), p@);
                assert(non_markdown(pv.take(i as int)).push(p@).to_multiset() == non_markdown(
                    pv.take(i as int),
                ).to_multiset().insert(p@));
            }
        }
        i = i + 1;
    }
    proof {
        let pv = paths.deep_view();
        assert(pv.take(paths.len() as int) == pv);
        let nm = non_markdown(pv);
        nm.lemma_sort_by_ensures(byte_order());
        lemma_sorted_unique(files.deep_view(), nm.sort_by(byte_order()), byte_order());
    }
    files
}

// ───────────────────────── the digested stream ─────────────────────────

/// What one opened file adds to the stream: its path, a NUL, its content and
/// another NUL.
pub open spec fn entry_bytes(path: Seq<u8>, content: Seq<u8>) -> Seq<u8> {
    path.push(0u8) + content.push(0u8)
}

/// The stream that is digested: the entries of the opened files in the
/// order given; a file that could not be opened adds nothing.
pub open spec fn hashed_stream(reads: Seq<(Seq<u8>, Option<Seq<u8>>)>) -> Seq<u8>
    decreases reads.len(),
{
    if reads.len() == 0 {
        Seq::empty()
    } else {
        let before = hashed_stream(reads.drop_last());
        match reads.last().1 {
            Some(content) => before + entry_bytes(reads.last().0, content),
            None => before,
        }
    }
}

pub open spec fn reads_view(reads: Seq<FileRead>) -> Seq<(Seq<u8>, Option<Seq<u8>>)> {
    reads.map_values(|r: FileRead| r@)
}

/// The 32-byte BLAKE3 digest of a byte stream.
pub uninterp spec fn blake3_digest(data: Seq<u8>) -> Seq<u8>;

/// Hashes bytes with `blake3::hash`; claimed: the result is the digest of
/// exactly these bytes and is 32 bytes long (`blake3::OUT_LEN`).
#[verifier::external_body]
fn blake3_hash(data: &[u8]) -> (digest: Vec<u8>)
    ensures
        digest@ == blake3_digest(data@),
        digest@.len() == 32,
{
    blake3::hash(data).as_bytes().to_vec()
}

/// The lowercase hexadecimal digit of a value below 16.
pub open spec fn hex_digit(n: u8) -> char {
    if n < 10 {
        (48 + n) as char
    } else {
        (87 + n) as char
    }
}

/// Lowercase hexadecimal, two digits per byte, high nibble first
/// (`blake3::Hash::to_hex`).
pub open spec fn hex_lower(bytes: Seq<u8>) -> Seq<char>
    decreases bytes.len(),
{
    if bytes.len() == 0 {
        Seq::empty()
    } else {
        hex_lower(bytes.drop_last()) + seq![
            hex_digit(bytes.last() / 16),
            hex_digit(bytes.last() % 16),
        ]
    }
}

pub open spec fn is_lower_hex_digit(c: char) -> bool {
    ('0' <= c && c <= '9') || ('a' <= c && c <= 'f')
}

/// 64 lowercase hexadecimal digits.
pub open spec fn is_hex_digest(s: Seq<char>) -> bool {
    s.len() == 64 && forall|i: int| 0 <= i < s.len() ==> is_lower_hex_digit(#[trigger] s[i])
}

/// The repository hash of the files read.
pub open spec fn repo_hash(reads: Seq<(Seq<u8>, Option<Seq<u8>>)>) -> Seq<char> {
    hex_lower(blake3_digest(hashed_stream(reads)))
}

fn hex_digit_char(n: u8) -> (c: char)
    requires
        n < 16,
    ensures
        c == hex_digit(n),
        is_lower_hex_digit(c),
{
    if n < 10 {
        (48 + n) as char
    } else {
        (87 + n) as char
    }
}

proof fn lemma_hex_lower_shape(bytes: Seq<u8>)
    ensures
        hex_lower(bytes).len() == 2 * bytes.len(),
        forall|i: int|
            0 <= i < hex_lower(bytes).len() ==> is_lower_hex_digit(#[trigger] hex_lower(bytes)[i]),
    decreases bytes.len(),
{
    if bytes.len() > 0 {
        lemma_hex_lower_shape(bytes.drop_last());
        let b = bytes.last();
        assert(is_lower_hex_digit(hex_digit(b / 16)));
        assert(is_lower_hex_digit(hex_digit(b % 16)));
    }
}

/// Writes bytes in lowercase hexadecimal, two digits per byte.
pub fn to_hex(bytes: &Vec<u8>) -> (s: String)
    ensures
        s@ == hex_lower(bytes@),
{
    let mut s = String::new();
    let mut i: usize = 0;
    while i < bytes.len()
        invariant
            i <= bytes.len(),
            s@ == hex_lower(bytes@.take(i as int)),
        decreases bytes.len() - i,
    {
        assert(bytes@.take(i + 1).drop_last() == bytes@.take(i as int));
        let b = bytes[i];
        s.push(hex_digit_char(b / 16));
        s.push(hex_digit_char(b % 16));
        i = i + 1;
    }
    assert(bytes@.take(bytes.len() as int) == bytes@);
    s
}

/// Appends `bytes` to `out`.
fn append_bytes(out: &mut Vec<u8>, bytes: &Vec<u8>)
    ensures
        final(out)@ == old(out)@ + bytes@,
{
    let mut i: usize = 0;
    while i < bytes.len()
        invariant
            i <= bytes.len(),
            out@ == old(out)@ + bytes@.take(i as int),
        decreases bytes.len() - i,
    {
        out.push(bytes[i]);
        assert(bytes@.take(i + 1) == bytes@.take(i as int).push(bytes@[i as int]));
        i = i + 1;
    }
    assert(bytes@.take(bytes.len() as int) == bytes@);
}

/// Adds one file to the stream being built: its path, a NUL, its content
/// and a NUL when it could be opened, nothing otherwise.
pub fn append_entry(stream: &mut Vec<u8>, read: &FileRead)
    ensures
        final(stream)@ == match read@.1 {
            Some(content) => old(stream)@ + entry_bytes(read@.0, content),
            None => old(stream)@,
        },
        read.content matches Some(c) ==> final(stream)@ == old(stream)@ + read.path@ + seq![0u8]
            + c@ + seq![0u8],
        read.content is None ==> final(stream)@ == old(stream)@,
{
    match &read.content {
        Some(content) => {
            append_bytes(stream, &read.path);
            stream.push(0u8);
            append_bytes(stream, content);
            stream.push(0u8);
            assert(stream@ == old(stream)@ + entry_bytes(read.path@, content@));
            assert(stream@ == old(stream)@ + read.path@ + seq![0u8] + content@ + seq![0u8]);
        },
        None => {},
    }
}

/// Appending the files one by one builds the stream of all of them.
pub proof fn lemma_stream_grows_by_entry(
    reads: Seq<(Seq<u8>, Option<Seq<u8>>)>,
    read: (Seq<u8>, Option<Seq<u8>>),
)
    ensures
        hashed_stream(reads.push(read)) == match read.1 {
            Some(content) => hashed_stream(reads) + entry_bytes(read.0, content),
            None => hashed_stream(reads),
        },
{
    assert(reads.push(read).drop_last() == reads);
}

/// The byte stream that is digested: for each opened file, in the order
/// given, its path, a NUL, its content and a NUL; files that could not be
/// opened are skipped.
pub fn hash_stream(reads: &Vec<FileRead>) -> (stream: Vec<u8>)
    ensures
        stream@ == hashed_stream(reads_view(reads@)),
{
    let mut stream: Vec<u8> = Vec::new();
    let mut i: usize = 0;
    while i < reads.len()
        invariant
            i <= reads.len(),
            stream@ == hashed_stream(reads_view(reads@.take(i as int))),
        decreases reads.len() - i,
    {
        let ghost rv = reads_view(reads@.take(i + 1));
        assert(rv.drop_last() == reads_view(reads@.take(i as int)));
        assert(rv.last() == reads@[i as int]@);
        append_entry(&mut stream, &reads[i]);
        i = i + 1;
    }
    assert(reads@.take(reads.len() as int) == reads@);
    stream
}

/// The BLAKE3 digest of a byte stream, written as 64 lowercase hex digits.
pub fn digest_hex(stream: &[u8]) -> (hex: String)
    ensures
        hex@ == hex_lower(blake3_digest(stream@)),
        is_hex_digest(hex@),
{
    let digest = blake3_hash(stream);
    proof {
        lemma_hex_lower_shape(digest@);
    }
    to_hex(&digest)
}

/// The repository hash of the files read: the BLAKE3 digest of their stream
/// (see `hash_stream`), written as 64 lowercase hex digits.
pub fn compute_hash(reads: &Vec<FileRead>) -> (hex: String)
    ensures
        hex@ == repo_hash(reads_view(reads@)),
        is_hex_digest(hex@),
{
    let stream = hash_stream(reads);
    digest_hex(stream.as_slice())
}

// ───────────────────────── laws ─────────────────────────

/// Law: the hashed files are sorted in byte order, none ends in `.md`, and
/// they are exactly the listed paths that do not end in `.md`, each as often
/// as it was listed.
pub proof fn lemma_hashed_files_shape(paths: Seq<Seq<u8>>)
    ensures
        sorted_by(hashed_files(paths), byte_order()),
        hashed_files(paths).to_multiset() == paths.to_multiset().filter(
            |p: Seq<u8>| !is_markdown(p),
        ),
        forall|i: int|
            0 <= i < hashed_files(paths).len() ==> !is_markdown(#[trigger] hashed_files(paths)[i]),
{
    broadcast use vstd::seq_lib::group_to_multiset_ensures;
    broadcast use vstd::multiset::group_multiset_axioms;

    lemma_byte_order_total();
    non_markdown(paths).lemma_sort_by_ensures(byte_order());
    lemma_non_markdown_multiset(paths);
    let h = hashed_files(paths);
    assert forall|i: int| 0 <= i < h.len() implies !is_markdown(#[trigger] h[i]) by {
        assert(h.to_multiset().count(h[i]) > 0);
    }
}

/// Law: the hashed files do not depend on the order in which git listed the
/// paths.
pub proof fn lemma_hashed_files_ignore_listing_order(a: Seq<Seq<u8>>, b: Seq<Seq<u8>>)
    requires
        a.to_multiset() == b.to_multiset(),
    ensures
        hashed_files(a) == hashed_files(b),
{
    lemma_byte_order_total();
    lemma_hashed_files_shape(a);
    lemma_hashed_files_shape(b);
    lemma_sorted_unique(hashed_files(a), hashed_files(b), byte_order());
}

/// Law: a path ending in `.md`, listed anywhere, does not change the hashed
/// files (documentation changes do not invalidate the saved state).
pub proof fn lemma_markdown_paths_ignored(paths: Seq<Seq<u8>>, pos: int, md: Seq<u8>)
    requires
        0 <= pos <= paths.len(),
        is_markdown(md),
    ensures
        hashed_files(paths.insert(pos, md)) == hashed_files(paths),
{
    broadcast use vstd::seq_lib::group_to_multiset_ensures;
    broadcast use vstd::multiset::group_multiset_axioms;

    vstd::seq_lib::to_multiset_insert(paths, pos, md);
    vstd::seq_lib::to_multiset_build(paths, md);
    lemma_hashed_files_ignore_listing_order(paths.insert(pos, md), paths.push(md));
    assert(paths.push(md).drop_last() == paths);
    assert(non_markdown(paths.push(md)) == non_markdown(paths));
}

/// The (path, content) pairs of the files that could be opened, in order.
pub open spec fn opened_entries(reads: Seq<(Seq<u8>, Option<Seq<u8>>)>) -> Seq<
    (Seq<u8>, Seq<u8>),
>
    decreases reads.len(),
{
    if reads.len() == 0 {
        Seq::empty()
    } else {
        let before = opened_entries(reads.drop_last());
        match reads.last().1 {
            Some(content) => before.push((reads.last().0, content)),
            None => before,
        }
    }
}

/// Neither a path nor a content holds a NUL byte.
pub open spec fn nul_free_entries(entries: Seq<(Seq<u8>, Seq<u8>)>) -> bool {
    forall|i: int|
        0 <= i < entries.len() ==> !(#[trigger] entries[i]).0.contains(0u8) && !entries[i].1.contains(
            0u8,
        )
}

spec fn encode_entries(entries: Seq<(Seq<u8>, Seq<u8>)>) -> Seq<u8>
    decreases entries.len(),
{
    if entries.len() == 0 {
        Seq::empty()
    } else {
        encode_entries(entries.drop_last()) + entry_bytes(entries.last().0, entries.last().1)
    }
}

proof fn lemma_stream_is_encoding(reads: Seq<(Seq<u8>, Option<Seq<u8>>)>)
    ensures
        hashed_stream(reads) == encode_entries(opened_entries(reads)),
    decreases reads.len(),
{
    if reads.len() > 0 {
        lemma_stream_is_encoding(reads.drop_last());
        let before = opened_entries(reads.drop_last());
        match reads.last().1 {
            Some(content) => {
                assert(before.push((reads.last().0, content)).drop_last() == before);
            },
            None => {},
        }
    }
}

proof fn lemma_encoding_ends_in_nul(entries: Seq<(Seq<u8>, Seq<u8>)>)
    ensures
        encode_entries(entries).len() == 0 <==> entries.len() == 0,
        encode_entries(entries).len() > 0 ==> encode_entries(entries).last() == 0u8,
{
    if entries.len() > 0 {
        let e = entries.last();
        let s = encode_entries(entries);
        assert(s.last() == entry_bytes(e.0, e.1).last());
    }
}

/// A NUL-free last field, preceded by a NUL or by nothing, is determined by
/// the text.
proof fn lemma_last_field_unique(x: Seq<u8>, q: Seq<u8>, y: Seq<u8>, r: Seq<u8>)
    requires
        x + q.push(0u8) == y + r.push(0u8),
        !q.contains(0u8),
        !r.contains(0u8),
        x.len() == 0 || x.last() == 0u8,
        y.len() == 0 || y.last() == 0u8,
    ensures
        q == r,
        x == y,
{
    let s = x + q.push(0u8);
    let t = y + r.push(0u8);
    assert(s.len() == t.len());
    if q.len() < r.len() {
        if x.len() > 0 {
            let k = x.len() - 1;
            assert(s[k] == x.last());
            assert(t[k] == r[k - y.len()]);
            assert(r.contains(0u8));
        }
    } else if r.len() < q.len() {
        if y.len() > 0 {
            let k = y.len() - 1;
            assert(t[k] == y.last());
            assert(s[k] == q[k - x.len()]);
            assert(q.contains(0u8));
        }
    } else {
        assert(x =~= s.subrange(0, x.len() as int));
        assert(y =~= t.subrange(0, y.len() as int));
        assert(q =~= s.subrange(x.len() as int, s.len() - 1));
        assert(r =~= t.subrange(y.len() as int, t.len() - 1));
    }
}

proof fn lemma_encoding_injective(a: Seq<(Seq<u8>, Seq<u8>)>, b: Seq<(Seq<u8>, Seq<u8>)>)
    requires
        nul_free_entries(a),
        nul_free_entries(b),
        encode_entries(a) == encode_entries(b),
    ensures
        a == b,
    decreases a.len(),
{
    lemma_encoding_ends_in_nul(a);
    lemma_encoding_ends_in_nul(b);
    if a.len() == 0 {
        assert(b.len() == 0);
        assert(a =~= b);
    } else {
        assert(b.len() > 0);
        let (pa, ca) = a.last();
        let (pb, cb) = b.last();
        assert(a[a.len() - 1] == a.last());
        assert(b[b.len() - 1] == b.last());
        let ea = encode_entries(a.drop_last());
        let eb = encode_entries(b.drop_last());
        lemma_encoding_ends_in_nul(a.drop_last());
        lemma_encoding_ends_in_nul(b.drop_last());
        assert(encode_entries(a) == (ea + pa.push(0u8)) + ca.push(0u8));
        assert(encode_entries(b) == (eb + pb.push(0u8)) + cb.push(0u8));
        assert((ea + pa.push(0u8)).last() == 0u8);
        assert((eb + pb.push(0u8)).last() == 0u8);
        lemma_last_field_unique(ea + pa.push(0u8), ca, eb + pb.push(0u8), cb);
        lemma_last_field_unique(ea, pa, eb, pb);
        assert(nul_free_entries(a.drop_last())) by {
            assert forall|i: int| 0 <= i < a.drop_last().len() implies !(
            #[trigger] a.drop_last()[i]).0.contains(0u8) && !a.drop_last()[i].1.contains(0u8) by {
                assert(a.drop_last()[i] == a[i]);
            }
        }
        assert(nul_free_entries(b.drop_last())) by {
            assert forall|i: int| 0 <= i < b.drop_last().len() implies !(
            #[trigger] b.drop_last()[i]).0.contains(0u8) && !b.drop_last()[i].1.contains(0u8) by {
                assert(b.drop_last()[i] == b[i]);
            }
        }
        lemma_encoding_injective(a.drop_last(), b.drop_last());
        assert(a =~= a.drop_last().push(a.last()));
        assert(b =~= b.drop_last().push(b.last()));
    }
}

/// Law: the NUL delimiters make the stream unambiguous. When no path and no
/// content of an opened file holds a NUL byte, equal streams come from the
/// same opened files with the same contents, in the same order.
pub proof fn lemma_stream_unambiguous(
    a: Seq<(Seq<u8>, Option<Seq<u8>>)>,
    b: Seq<(Seq<u8>, Option<Seq<u8>>)>,
)
    requires
        nul_free_entries(opened_entries(a)),
        nul_free_entries(opened_entries(b)),
        hashed_stream(a) == hashed_stream(b),
    ensures
        opened_entries(a) == opened_entries(b),
{
    lemma_stream_is_encoding(a);
    lemma_stream_is_encoding(b);
    lemma_encoding_injective(opened_entries(a), opened_entries(b));
}

/// Law: a file that could not be opened leaves no trace: inserting it
/// anywhere among the files read does not change the stream.
pub proof fn lemma_unopened_files_ignored(
    reads: Seq<(Seq<u8>, Option<Seq<u8>>)>,
    pos: int,
    path: Seq<u8>,
)
    requires
        0 <= pos <= reads.len(),
    ensures
        hashed_stream(reads.insert(pos, (path, None))) == hashed_stream(reads),
    decreases reads.len(),
{
    let with = reads.insert(pos, (path, None::<Seq<u8>>));
    if pos == reads.len() {
        assert(with.drop_last() == reads);
    } else {
        lemma_unopened_files_ignored(reads.drop_last(), pos, path);
        assert(with.drop_last() == reads.drop_last().insert(pos, (path, None::<Seq<u8>>)));
        assert(with.last() == reads.last());
    }
}

/// Law: a path is among the hashed files exactly as often as it was listed,
/// unless its last three bytes are `.md`, in which case it is not there at
/// all.
pub proof fn lemma_hashed_files_count(paths: Seq<Seq<u8>>, p: Seq<u8>)
    ensures
        hashed_files(paths).to_multiset().count(p) == if p.len() >= 3 && p[p.len() - 3] == 0x2eu8
            && p[p.len() - 2] == 0x6du8 && p[p.len() - 1] == 0x64u8 {
            0
        } else {
            paths.to_multiset().count(p)
        },
        !(p.len() >= 3 && p[p.len() - 3] == 0x2eu8 && p[p.len() - 2] == 0x6du8 && p[p.len() - 1]
            == 0x64u8) && paths.contains(p) ==> hashed_files(paths).contains(p),
{
    broadcast use vstd::seq_lib::group_to_multiset_ensures;
    broadcast use vstd::multiset::group_multiset_axioms;

    lemma_hashed_files_shape(paths);
    let literal = p.len() >= 3 && p[p.len() - 3] == 0x2eu8 && p[p.len() - 2] == 0x6du8 && p[p.len()
        - 1] == 0x64u8;
    if p.len() >= 3 {
        let tail = p.subrange(p.len() - 3, p.len() as int);
        if literal {
            assert(tail =~= seq![0x2eu8, 0x6du8, 0x64u8]);
        } else if tail == seq![0x2eu8, 0x6du8, 0x64u8] {
            assert(tail[0] == p[p.len() - 3]);
            assert(tail[1] == p[p.len() - 2]);
            assert(tail[2] == p[p.len() - 1]);
        }
    }
    assert(is_markdown(p) == literal);
}

/// Law: byte order is `Ord` on byte strings: `a` comes no later than `b`
/// exactly when `a` is a prefix of `b` or, at the first position where they
/// differ, `a` has the smaller byte.
pub proof fn lemma_bytes_le_lexicographic(a: Seq<u8>, b: Seq<u8>)
    ensures
        bytes_le(a, b) <==> (a.is_prefix_of(b) || exists|k: int|
            0 <= k < a.len() && k < b.len() && a.take(k) == b.take(k) && #[trigger] a[k] < b[k]),
    decreases a.len(),
{
    if a.len() == 0 {
        assert(a.is_prefix_of(b)) by {
            assert(b.subrange(0, 0) =~= a);
        }
    } else if b.len() == 0 {
        assert(!a.is_prefix_of(b));
    } else if a[0] != b[0] {
        assert(!a.is_prefix_of(b)) by {
            if a.is_prefix_of(b) {
                assert(b.subrange(0, a.len() as int)[0] == b[0]);
            }
        }
        if a[0] < b[0] {
            assert(a.take(0) =~= b.take(0));
        } else {
            assert forall|k: int|
                0 <= k < a.len() && k < b.len() && a.take(k) == b.take(k) implies !(
            #[trigger] a[k] < b[k]) by {
                if k > 0 {
                    assert(a.take(k)[0] == a[0]);
                    assert(b.take(k)[0] == b[0]);
                }
            }
        }
    } else {
        let a1 = a.drop_first();
        let b1 = b.drop_first();
        lemma_bytes_le_lexicographic(a1, b1);
        assert(a.is_prefix_of(b) <==> a1.is_prefix_of(b1)) by {
            if a.is_prefix_of(b) {
                assert(b1.subrange(0, a1.len() as int) =~= b.subrange(0, a.len() as int).drop_first());
            }
            if a1.is_prefix_of(b1) {
                assert(b.subrange(0, a.len() as int) =~= seq![b[0]] + b1.subrange(
                    0,
                    a1.len() as int,
                ));
                assert(a =~= seq![a[0]] + a1);
            }
        }
        if exists|k: int|
            0 <= k < a1.len() && k < b1.len() && a1.take(k) == b1.take(k) && #[trigger] a1[k]
                < b1[k] {
            let k = choose|k: int|
                0 <= k < a1.len() && k < b1.len() && a1.take(k) == b1.take(k) && #[trigger] a1[k]
                    < b1[k];
            assert(a.take(k + 1) =~= seq![a[0]] + a1.take(k));
            assert(b.take(k + 1) =~= seq![b[0]] + b1.take(k));
            assert(a[k + 1] == a1[k]);
        }
        if exists|k: int|
            0 <= k < a.len() && k < b.len() && a.take(k) == b.take(k) && #[trigger] a[k] < b[k] {
            let k = choose|k: int|
                0 <= k < a.len() && k < b.len() && a.take(k) == b.take(k) && #[trigger] a[k] < b[k];
            assert(k > 0);
            assert(a1.take(k - 1) =~= a.take(k).drop_first());
            assert(b1.take(k - 1) =~= b.take(k).drop_first());
            assert(a1[k - 1] == a[k]);
        }
    }
}

/// Law: the stream of no files is empty; each further opened file adds its
/// path, a NUL, every byte of its content (NUL bytes included) and a NUL; a
/// file that could not be opened adds nothing.
pub proof fn lemma_stream_appends_whole_files(
    reads: Seq<(Seq<u8>, Option<Seq<u8>>)>,
    path: Seq<u8>,
    content: Seq<u8>,
)
    ensures
        hashed_stream(Seq::empty()) == Seq::<u8>::empty(),
        hashed_stream(reads.push((path, Some(content)))) == hashed_stream(reads) + path + seq![0u8]
            + content + seq![0u8],
        hashed_stream(reads.push((path, None))) == hashed_stream(reads),
        hashed_stream(seq![(path, Some(content))]) == path + seq![0u8] + content + seq![0u8],
{
    assert(reads.push((path, Some(content))).drop_last() == reads);
    assert(reads.push((path, None::<Seq<u8>>)).drop_last() == reads);
    let one = seq![(path, Some(content))];
    assert(one.drop_last() =~= Seq::<(Seq<u8>, Option<Seq<u8>>)>::empty());
    assert(one.last() == (path, Some(content)));
    assert(hashed_stream(one.drop_last()) == Seq::<u8>::empty());
    assert(hashed_stream(one) == Seq::<u8>::empty() + entry_bytes(path, content));
    assert(hashed_stream(one) =~= path + seq![0u8] + content + seq![0u8]);
    assert(hashed_stream(reads) + entry_bytes(path, content) =~= hashed_stream(reads) + path
        + seq![0u8] + content + seq![0u8]);
}

/// Law: the hex text has two digits per byte, the high nibble first, taken
/// from "0123456789abcdef".
pub proof fn lemma_hex_lower_digits(bytes: Seq<u8>)
    ensures
        hex_lower(bytes).len() == 2 * bytes.len(),
        forall|k: int|
            0 <= k < bytes.len() ==> hex_lower(bytes)[2 * k] == seq![
                '0', '1', '2', '3', '4', '5', '6', '7', '8', '9', 'a', 'b', 'c', 'd', 'e', 'f',
            ][(#[trigger] bytes[k]) as int / 16] && hex_lower(bytes)[2 * k + 1] == seq![
                '0', '1', '2', '3', '4', '5', '6', '7', '8', '9', 'a', 'b', 'c', 'd', 'e', 'f',
            ][bytes[k] as int % 16],
    decreases bytes.len(),
{
    let table = seq!['0', '1', '2', '3', '4', '5', '6', '7', '8', '9', 'a', 'b', 'c', 'd', 'e', 'f'];
    assert forall|n: u8| n < 16 implies hex_digit(n) == table[n as int] by {
        lemma_hex_digit_table(n);
    }
    if bytes.len() > 0 {
        lemma_hex_lower_digits(bytes.drop_last());
        let h = hex_lower(bytes);
        let h0 = hex_lower(bytes.drop_last());
        assert forall|k: int| 0 <= k < bytes.len() implies h[2 * k] == table[(#[trigger] bytes[k])
            as int / 16] && h[2 * k + 1] == table[bytes[k] as int % 16] by {
            if k < bytes.len() - 1 {
                assert(bytes.drop_last()[k] == bytes[k]);
                assert(h[2 * k] == h0[2 * k]);
                assert(h[2 * k + 1] == h0[2 * k + 1]);
            } else {
                assert(bytes[k] == bytes.last());
                assert(bytes.last() / 16 < 16);
                assert(bytes.last() % 16 < 16);
            }
        }
    }
}

proof fn lemma_hex_digit_table(n: u8)
    requires
        n < 16,
    ensures
        hex_digit(n) == seq![
            '0', '1', '2', '3', '4', '5', '6', '7', '8', '9', 'a', 'b', 'c', 'd', 'e', 'f',
        ][n as int],
{
}

} // verus!
