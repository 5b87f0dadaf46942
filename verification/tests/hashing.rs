use precommit_check::hash::{
    append_entry, compute_hash, digest_hex, hash_candidates, hash_stream, to_hex, FileRead,
};

fn v(s: &[u8]) -> Vec<u8> {
    s.to_vec()
}

#[test]
fn hash_candidates_drops_markdown_and_sorts_bytewise() {
    let listed = vec![
        v(b"src/main.rs"),
        v(b"README.md"),
        v(b"Cargo.toml"),
        v(b"docs/guide.md"),
        v(b"src/lib.rs"),
        v(b"a"),
        v(b"B"),
        v(b"\xffbin"),
        v(b"src"),
        v(b"notes.mdx"),
        v(b".md"),
    ];
    let files = hash_candidates(listed);
    assert_eq!(
        files,
        vec![
            v(b"B"),
            v(b"Cargo.toml"),
            v(b"a"),
            v(b"notes.mdx"),
            v(b"src"),
            v(b"src/lib.rs"),
            v(b"src/main.rs"),
            v(b"\xffbin"),
        ]
    );
}

#[test]
fn hash_candidates_keeps_duplicates_and_empty_input() {
    assert!(hash_candidates(vec![]).is_empty());
    assert_eq!(
        hash_candidates(vec![v(b"b"), v(b"a"), v(b"b")]),
        vec![v(b"a"), v(b"b"), v(b"b")]
    );
}

#[test]
fn hash_candidates_ignore_listing_order() {
    let a = hash_candidates(vec![v(b"x"), v(b"y.md"), v(b"w"), v(b"z")]);
    let b = hash_candidates(vec![v(b"z"), v(b"w"), v(b"x")]);
    assert_eq!(a, b);
}

#[test]
fn compute_hash_of_nothing_is_blake3_of_empty_input() {
    assert_eq!(
        compute_hash(&vec![]),
        "af1349b9f5f9a1a6a0404dea36dcc9499bcb25c9adc112b7cc9a93cae41f3262"
    );
}

#[test]
fn compute_hash_digests_path_nul_content_nul() {
    let reads = vec![
        FileRead { path: v(b"a.txt"), content: Some(v(b"hello")) },
        FileRead { path: v(b"broken"), content: None },
        FileRead { path: v(b"empty"), content: Some(v(b"")) },
    ];
    let expected = blake3::hash(b"a.txt\0hello\0empty\0\0").to_hex().to_string();
    assert_eq!(compute_hash(&reads), expected);
}

#[test]
fn compute_hash_is_lowercase_hex_of_length_64() {
    let reads = vec![FileRead { path: v(b"f"), content: Some(v(b"\0\x01")) }];
    let h = compute_hash(&reads);
    assert_eq!(h.len(), 64);
    assert!(h.chars().all(|c| c.is_ascii_digit() || ('a'..='f').contains(&c)));
    assert_eq!(h, blake3::hash(b"f\0\0\x01\0").to_hex().to_string());
}

#[test]
fn compute_hash_changes_with_content_and_name() {
    let one = compute_hash(&vec![FileRead { path: v(b"a"), content: Some(v(b"1")) }]);
    let two = compute_hash(&vec![FileRead { path: v(b"a"), content: Some(v(b"2")) }]);
    let renamed = compute_hash(&vec![FileRead { path: v(b"b"), content: Some(v(b"1")) }]);
    assert_ne!(one, two);
    assert_ne!(one, renamed);
}

#[test]
fn compute_hash_delimiters_separate_name_and_content() {
    let a = compute_hash(&vec![FileRead { path: v(b"ab"), content: Some(v(b"c")) }]);
    let b = compute_hash(&vec![FileRead { path: v(b"a"), content: Some(v(b"bc")) }]);
    assert_ne!(a, b);
}

#[test]
fn compute_hash_skips_unopened_files() {
    let with_broken = compute_hash(&vec![
        FileRead { path: v(b"a"), content: Some(v(b"1")) },
        FileRead { path: v(b"link"), content: None },
    ]);
    let without = compute_hash(&vec![FileRead { path: v(b"a"), content: Some(v(b"1")) }]);
    assert_eq!(with_broken, without);
}

#[test]
fn hash_stream_frames_each_opened_file() {
    let reads = vec![
        FileRead { path: v(b"p"), content: Some(v(b"c\0d")) },
        FileRead { path: v(b"gone"), content: None },
        FileRead { path: v(b"q"), content: Some(v(b"")) },
    ];
    assert_eq!(hash_stream(&reads), v(b"p\0c\0d\0q\0\0"));
    assert!(hash_stream(&vec![]).is_empty());
}

#[test]
fn to_hex_is_lowercase_two_digits_per_byte() {
    assert_eq!(to_hex(&vec![0x00, 0x0f, 0xa5, 0xff]), "000fa5ff");
    assert_eq!(to_hex(&vec![]), "");
}

#[test]
fn append_entry_builds_the_same_stream_file_by_file() {
    let reads = vec![
        FileRead { path: v(b"x"), content: Some(v(b"1")) },
        FileRead { path: v(b"y"), content: None },
        FileRead { path: v(b"z"), content: Some(v(b"22")) },
    ];
    let mut stream = Vec::new();
    for r in &reads {
        append_entry(&mut stream, r);
    }
    assert_eq!(stream, v(b"x\01\0z\022\0"));
    assert_eq!(stream, hash_stream(&reads));
    assert_eq!(digest_hex(&stream), compute_hash(&reads));
}

#[test]
fn digest_hex_is_blake3_in_lowercase_hex() {
    assert_eq!(digest_hex(b"abc"), blake3::hash(b"abc").to_hex().to_string());
    assert_eq!(
        digest_hex(b""),
        "af1349b9f5f9a1a6a0404dea36dcc9499bcb25c9adc112b7cc9a93cae41f3262"
    );
}
