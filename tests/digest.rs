use deep_archive::digest::{digest_bytes, digest_chunks, use_mapped_read, ContentHasher, MMAP_THRESHOLD};

#[test]
fn digest_of_abc() {
    assert_eq!(
        digest_bytes(b"abc"),
        "ba7816bf8f01cfea414140de5dae2223b00361a396177a9cb410ff61f20015ad"
    );
}

#[test]
fn digest_of_empty_content() {
    assert_eq!(
        digest_bytes(b""),
        "e3b0c44298fc1c149afbf4c8996fb92427ae41e4649b934ca495991b7852b855"
    );
    assert_eq!(ContentHasher::new().finish(), digest_bytes(b""));
}

#[test]
fn chunked_and_whole_reads_agree() {
    let data: Vec<u8> = (0..20000u32).map(|i| (i % 251) as u8).collect();
    let whole = digest_bytes(&data);
    let chunks: Vec<Vec<u8>> = data.chunks(8192).map(|c| c.to_vec()).collect();
    assert_eq!(digest_chunks(&chunks), whole);
    let uneven = vec![data[..1].to_vec(), Vec::new(), data[1..12345].to_vec(), data[12345..].to_vec()];
    assert_eq!(digest_chunks(&uneven), whole);
    assert_eq!(whole.len(), 64);
    assert!(whole.chars().all(|c| c.is_ascii_digit() || ('a'..='f').contains(&c)));
}

#[test]
fn different_content_differs() {
    assert_ne!(digest_bytes(b"abc"), digest_bytes(b"abd"));
}

#[test]
fn incremental_hasher_matches_one_shot() {
    let mut h = ContentHasher::new();
    h.update(b"ab");
    h.update(b"c");
    assert_eq!(h.finish(), digest_bytes(b"abc"));
}

#[test]
fn mapped_read_only_above_threshold() {
    assert_eq!(MMAP_THRESHOLD, 500 * 1024 * 1024);
    assert!(!use_mapped_read(0));
    assert!(!use_mapped_read(MMAP_THRESHOLD));
    assert!(use_mapped_read(MMAP_THRESHOLD + 1));
}
