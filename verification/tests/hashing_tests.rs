use diff_rs::{
    combine_hashes, hash, hash_dyn, hash_lines, hash_to_hex_string, hex_string_to_hash,
    hex_string_to_hash_vec, select_hasher, split_lines, DigestAlg, VcError,
};
use sha2::Digest;

#[test]
fn test_hex_string_to_hash_vec() {
    let s = "68656c6c6f";
    let bytes = hex_string_to_hash_vec(s).unwrap();
    println!("{:?}", bytes);
}

#[test]
fn test_hash_to_hex_string() {
    let h = hash(b"hello");
    println!("{}", hash_to_hex_string(&h));
}

#[test]
fn test_hex_string_to_hash() {
    let h = hash(b"hello");
    let hex_string = hash_to_hex_string(&h);
    let h2 = hex_string_to_hash(&hex_string).unwrap();
    assert_eq!(h, h2);
}

#[test]
fn hash_example() {
    let h = hash(b"hello");
    println!("{}", hash_to_hex_string(&h));
}

#[test]
fn hash_dyn_example() {
    let hasher1 = select_hasher("md5").unwrap();
    let hasher2 = select_hasher("sha512").unwrap();

    let hash1_1 = hash_dyn(hasher1, b"foo");
    let hash1_2 = hash_dyn(hasher1, b"bar");
    let hash2_1 = hash_dyn(hasher2, b"foo");

    println!("{}", hash_to_hex_string(&hash1_1));
    println!("{}", hash_to_hex_string(&hash1_2));
    println!("{}", hash_to_hex_string(&hash2_1));
}

#[test]
fn combine_hashes_example() {
    let data: Vec<[u8; 4]> = vec![[0, 1, 2, 3], [0, 2, 4, 6], [1, 3, 5, 7]];

    let hashes: Vec<Vec<u8>> = data.iter().map(|d| hash(d)).collect();
    let combined = combine_hashes(&hashes);
    for h in &hashes {
        println!("{}", hash_to_hex_string(h));
    }
    println!("combined: {}", hash_to_hex_string(&combined));
}

#[test]
fn test() {
    let mut hasher = sha2::Sha256::new();
    hasher.update(b"hello");
    let h: [u8; 32] = hasher.finalize().into();
    println!("{:?}", hash_to_hex_string(&h));
}

// The digest wrappers agree with the crates they rely on.
#[test]
fn digest_wrappers_match_reference_crates() {
    assert_eq!(hash(b"hello"), sha2::Sha256::digest(b"hello").to_vec());
    assert_eq!(
        hash_dyn(DigestAlg::Md5, b"foo"),
        md5::Md5::digest(b"foo").to_vec()
    );
    assert_eq!(
        hash_dyn(DigestAlg::Sha1, b"foo"),
        sha1::Sha1::digest(b"foo").to_vec()
    );
    assert_eq!(
        hash_dyn(DigestAlg::Sha224, b"foo"),
        sha2::Sha224::digest(b"foo").to_vec()
    );
    assert_eq!(
        hash_dyn(DigestAlg::Sha384, b"foo"),
        sha2::Sha384::digest(b"foo").to_vec()
    );
    assert_eq!(
        hash_dyn(DigestAlg::Sha512, b"foo"),
        sha2::Sha512::digest(b"foo").to_vec()
    );
}

// The hash of "hello" has its well-known value.
#[test]
fn sha256_exact_value() {
    let h = hash(b"hello");
    assert_eq!(
        hash_to_hex_string(&h),
        "2cf24dba5fb0a30e26e83b2ac5b9e29e1b161e5c1fa7425e73043362938b9824"
    );
}

// The hex encoder agrees with the hex crate.
#[test]
fn hex_encoding_matches_reference_crate() {
    let h = hash(b"some bytes");
    assert_eq!(hash_to_hex_string(&h), hex::encode(&h));
    let bytes: Vec<u8> = vec![0x00, 0x0f, 0xa0, 0xff];
    assert_eq!(hash_to_hex_string(&bytes), "000fa0ff");
    assert_eq!(hex_string_to_hash_vec("000fa0ff").unwrap(), bytes);
    assert_eq!(hex_string_to_hash_vec("000FA0FF").unwrap(), bytes);
}

#[test]
fn hex_decode_rejects_bad_input() {
    assert_eq!(hex_string_to_hash_vec("abc"), Err(VcError::ParseError));
    assert_eq!(hex_string_to_hash_vec("zz"), Err(VcError::ParseError));
    // a digest hex string must have exactly 64 characters
    assert_eq!(hex_string_to_hash("abcd"), Err(VcError::ParseError));
}

#[test]
fn select_hasher_covers_registry() {
    assert_eq!(select_hasher("md5").unwrap(), DigestAlg::Md5);
    assert_eq!(select_hasher("sha1").unwrap(), DigestAlg::Sha1);
    assert_eq!(select_hasher("sha224").unwrap(), DigestAlg::Sha224);
    assert_eq!(select_hasher("sha256").unwrap(), DigestAlg::Sha256);
    assert_eq!(select_hasher("sha384").unwrap(), DigestAlg::Sha384);
    assert_eq!(select_hasher("sha512").unwrap(), DigestAlg::Sha512);
    assert_eq!(select_hasher("sha3"), Err(VcError::UnsupportedDigest));
    assert_eq!(select_hasher(""), Err(VcError::UnsupportedDigest));
}

#[test]
fn split_lines_edges() {
    let empty: Vec<Vec<u8>> = Vec::new();
    assert_eq!(split_lines(b""), empty);
    assert_eq!(split_lines(b"a"), vec![b"a".to_vec()]);
    assert_eq!(split_lines(b"a\n"), vec![b"a".to_vec()]);
    assert_eq!(
        split_lines(b"a\nb\r\nc\n"),
        vec![b"a".to_vec(), b"b".to_vec(), b"c".to_vec()]
    );
    assert_eq!(split_lines(b"\n"), vec![b"".to_vec()]);
}

#[test]
fn hash_lines_hashes_each_line() {
    let lines = split_lines(b"one\ntwo\n");
    let hs = hash_lines(&lines);
    assert_eq!(hs.len(), 2);
    assert_eq!(hs[0], hash(b"one"));
    assert_eq!(hs[1], hash(b"two"));
}

// Combining hashes digests their concatenation, in order.
#[test]
fn combine_hashes_is_digest_of_concatenation() {
    let h1 = hash(b"a");
    let h2 = hash(b"b");
    let mut concatenated = h1.clone();
    concatenated.extend_from_slice(&h2);
    assert_eq!(combine_hashes(&vec![h1.clone(), h2.clone()]), hash(&concatenated));
    // order matters
    assert_ne!(
        combine_hashes(&vec![h1.clone(), h2.clone()]),
        combine_hashes(&vec![h2, h1])
    );
}
