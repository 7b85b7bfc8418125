use dirscan::file_utils::calculate_hash;

#[test]
fn fingerprint_of_empty_input_matches_reference() {
    // The xxHash64 digest of no bytes under seed 0 is 0xef46db3751d8e999.
    assert_eq!(calculate_hash(&[]), "ef46db3751d8e999");
}

#[test]
fn fingerprint_of_single_byte_matches_reference() {
    // The xxHash64 digest of the byte 42 under seed 0 is 0x0a9edecebeb03ae4;
    // the leading zero does not appear in the rendered form.
    assert_eq!(calculate_hash(&[42]), "a9edecebeb03ae4");
}

#[test]
fn identical_contents_agree() {
    let a: Vec<u8> = (0..=255u8).cycle().take(5000).collect();
    let b = a.clone();
    assert_eq!(calculate_hash(&a), calculate_hash(&b));
}

#[test]
fn differing_contents_disagree() {
    let a = b"hello world".to_vec();
    let b = b"hello worle".to_vec();
    assert_ne!(calculate_hash(&a), calculate_hash(&b));
}

#[test]
fn fingerprint_is_nonempty_lowercase_hex() {
    let inputs: Vec<Vec<u8>> = vec![Vec::new(), vec![0], vec![0xff; 3000], b"abc".to_vec()];
    for input in inputs {
        let h = calculate_hash(&input);
        assert!(!h.is_empty());
        assert!(h.chars().all(|c| c.is_ascii_digit() || ('a'..='f').contains(&c)));
        assert!(h.len() <= 16);
    }
}

#[test]
fn chunk_boundaries_do_not_matter() {
    // Contents longer than one chunk hash the same as a byte-identical
    // buffer built differently.
    let mut a: Vec<u8> = Vec::new();
    for i in 0..3000usize {
        a.push((i % 251) as u8);
    }
    let b: Vec<u8> = (0..3000usize).map(|i| (i % 251) as u8).collect();
    assert_eq!(calculate_hash(&a), calculate_hash(&b));
}
