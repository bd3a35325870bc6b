//! Digest computation and hash encoding.
//!
//! The cryptographic digests themselves are outside capabilities; each one
//! is reached through a trusted wrapper whose result is named by an
//! uninterpreted spec function (the digest of a byte sequence is a function
//! of those bytes alone).  Everything built on top of them — the algorithm
//! registry, hash combination and the hex codec — is verified.

use vstd::prelude::*;

use crate::merkle::VcError;
use crate::util::string_push;
use md5::Digest as Md5Digest;
use sha1::Digest as Sha1Digest;
use sha2::Digest as Sha2Digest;

verus! {

// ---------------------------------------------------------------------------
// Named digest results.
//
// Each name stands for the output of one digest algorithm on a byte
// sequence.  The algorithms are deterministic functions of their input, so
// naming their results is sound; nothing further is assumed of the values.
// ---------------------------------------------------------------------------

pub uninterp spec fn sha256_of(data: Seq<u8>) -> Seq<u8>;

pub uninterp spec fn sha224_of(data: Seq<u8>) -> Seq<u8>;

pub uninterp spec fn sha384_of(data: Seq<u8>) -> Seq<u8>;

pub uninterp spec fn sha512_of(data: Seq<u8>) -> Seq<u8>;

pub uninterp spec fn sha1_of(data: Seq<u8>) -> Seq<u8>;

pub uninterp spec fn md5_of(data: Seq<u8>) -> Seq<u8>;

/// Relies on sha2::Sha256 (a 256-bit digest: 32 output bytes, a
/// deterministic function of the input bytes).
#[verifier::external_body]
pub fn hash_sha256(data: &[u8]) -> (r: Vec<u8>)
    ensures
        r@ == sha256_of(data@),
        r@.len() == 32,
{
    sha2::Sha256::digest(data).to_vec()
}

/// Relies on sha2::Sha224 (28 output bytes, deterministic in the input).
#[verifier::external_body]
fn hash_sha224(data: &[u8]) -> (r: Vec<u8>)
    ensures
        r@ == sha224_of(data@),
        r@.len() == 28,
{
    sha2::Sha224::digest(data).to_vec()
}

/// Relies on sha2::Sha384 (48 output bytes, deterministic in the input).
#[verifier::external_body]
fn hash_sha384(data: &[u8]) -> (r: Vec<u8>)
    ensures
        r@ == sha384_of(data@),
        r@.len() == 48,
{
    sha2::Sha384::digest(data).to_vec()
}

/// Relies on sha2::Sha512 (64 output bytes, deterministic in the input).
#[verifier::external_body]
fn hash_sha512(data: &[u8]) -> (r: Vec<u8>)
    ensures
        r@ == sha512_of(data@),
        r@.len() == 64,
{
    sha2::Sha512::digest(data).to_vec()
}

/// Relies on sha1::Sha1 (20 output bytes, deterministic in the input).
#[verifier::external_body]
fn hash_sha1(data: &[u8]) -> (r: Vec<u8>)
    ensures
        r@ == sha1_of(data@),
        r@.len() == 20,
{
    sha1::Sha1::digest(data).to_vec()
}

/// Relies on md5::Md5 (16 output bytes, deterministic in the input).
#[verifier::external_body]
fn hash_md5(data: &[u8]) -> (r: Vec<u8>)
    ensures
        r@ == md5_of(data@),
        r@.len() == 16,
{
    md5::Md5::digest(data).to_vec()
}

/// The digest used for all content addressing in the object model.
pub fn hash(data: &[u8]) -> (r: Vec<u8>)
    ensures
        r@ == sha256_of(data@),
        r@.len() == 32,
{
    hash_sha256(data)
}

// ---------------------------------------------------------------------------
// Digest selection by identifier.
// ---------------------------------------------------------------------------

/// The digest algorithms the registry offers.
#[derive(Debug, Clone, Copy, PartialEq, Eq, Structural)]
pub enum DigestAlg {
    Md5,
    Sha1,
    Sha224,
    Sha256,
    Sha384,
    Sha512,
}

/// The identifier under which each algorithm is selectable.
pub open spec fn alg_name(alg: DigestAlg) -> Seq<char> {
    match alg {
        DigestAlg::Md5 => "md5"@,
        DigestAlg::Sha1 => "sha1"@,
        DigestAlg::Sha224 => "sha224"@,
        DigestAlg::Sha256 => "sha256"@,
        DigestAlg::Sha384 => "sha384"@,
        DigestAlg::Sha512 => "sha512"@,
    }
}

/// The identifiers the registry recognises.
pub open spec fn is_supported_digest(name: Seq<char>) -> bool {
    exists|alg: DigestAlg| alg_name(alg) == name
}

/// The digest an algorithm produces on a byte sequence.
pub open spec fn digest_of(alg: DigestAlg, data: Seq<u8>) -> Seq<u8> {
    match alg {
        DigestAlg::Md5 => md5_of(data),
        DigestAlg::Sha1 => sha1_of(data),
        DigestAlg::Sha224 => sha224_of(data),
        DigestAlg::Sha256 => sha256_of(data),
        DigestAlg::Sha384 => sha384_of(data),
        DigestAlg::Sha512 => sha512_of(data),
    }
}

/// The output size of each algorithm, in bytes.
pub open spec fn digest_len(alg: DigestAlg) -> nat {
    match alg {
        DigestAlg::Md5 => 16,
        DigestAlg::Sha1 => 20,
        DigestAlg::Sha224 => 28,
        DigestAlg::Sha256 => 32,
        DigestAlg::Sha384 => 48,
        DigestAlg::Sha512 => 64,
    }
}

/// Character-by-character string equality.
pub(crate) fn str_eq(a: &str, b: &str) -> (r: bool)
    ensures
        r == (a@ == b@),
{
    let a_len = a.unicode_len();
    let b_len = b.unicode_len();
    if a_len != b_len {
        assert(a@ != b@);
        return false;
    }
    for i in 0..a_len
        invariant
            a_len == a@.len(),
            a_len == b@.len(),
            forall|j: int| 0 <= j < i ==> a@[j] == b@[j],
    {
        if a.get_char(i) != b.get_char(i) {
            return false;
        }
    }
    proof {
        assert(a@ =~= b@);
    }
    true
}

/// Looks an algorithm identifier up in the registry.  Unrecognised
/// identifiers are a configuration error, never a silent fallback.
pub fn select_hasher(s: &str) -> (r: Result<DigestAlg, VcError>)
    ensures
        match r {
            Ok(alg) => alg_name(alg) == s@,
            Err(e) => e == VcError::UnsupportedDigest && !is_supported_digest(s@),
        },
{
    if str_eq(s, "md5") {
        Ok(DigestAlg::Md5)
    } else if str_eq(s, "sha1") {
        Ok(DigestAlg::Sha1)
    } else if str_eq(s, "sha224") {
        Ok(DigestAlg::Sha224)
    } else if str_eq(s, "sha256") {
        Ok(DigestAlg::Sha256)
    } else if str_eq(s, "sha384") {
        Ok(DigestAlg::Sha384)
    } else if str_eq(s, "sha512") {
        Ok(DigestAlg::Sha512)
    } else {
        assert forall|alg: DigestAlg| alg_name(alg) != s@ by {
            match alg {
                DigestAlg::Md5 => assert(alg_name(alg) != s@),
                DigestAlg::Sha1 => assert(alg_name(alg) != s@),
                DigestAlg::Sha224 => assert(alg_name(alg) != s@),
                DigestAlg::Sha256 => assert(alg_name(alg) != s@),
                DigestAlg::Sha384 => assert(alg_name(alg) != s@),
                DigestAlg::Sha512 => assert(alg_name(alg) != s@),
            }
        }
        Err(VcError::UnsupportedDigest)
    }
}

/// Hashes with a registry-selected algorithm.
pub fn hash_dyn(alg: DigestAlg, data: &[u8]) -> (r: Vec<u8>)
    ensures
        r@ == digest_of(alg, data@),
        r@.len() == digest_len(alg),
{
    match alg {
        DigestAlg::Md5 => hash_md5(data),
        DigestAlg::Sha1 => hash_sha1(data),
        DigestAlg::Sha224 => hash_sha224(data),
        DigestAlg::Sha256 => hash_sha256(data),
        DigestAlg::Sha384 => hash_sha384(data),
        DigestAlg::Sha512 => hash_sha512(data),
    }
}

// ---------------------------------------------------------------------------
// Hash combination.
// ---------------------------------------------------------------------------

/// The concatenation of a sequence of byte sequences.
pub open spec fn concat_bytes(hs: Seq<Seq<u8>>) -> Seq<u8>
    decreases hs.len(),
{
    if hs.len() == 0 {
        Seq::empty()
    } else {
        hs.first() + concat_bytes(hs.drop_first())
    }
}

pub proof fn lemma_concat_bytes_push(hs: Seq<Seq<u8>>, x: Seq<u8>)
    ensures
        concat_bytes(hs.push(x)) == concat_bytes(hs) + x,
    decreases hs.len(),
{
    if hs.len() == 0 {
        assert(hs.push(x).drop_first() =~= hs);
        assert(concat_bytes(hs.push(x)) =~= concat_bytes(hs) + x);
    } else {
        assert(hs.push(x).drop_first() =~= hs.drop_first().push(x));
        lemma_concat_bytes_push(hs.drop_first(), x);
        assert(concat_bytes(hs.push(x)) =~= concat_bytes(hs) + x);
    }
}

/// The combined hash of an ordered collection of hashes: the digest of
/// their concatenation.  The order of the input is part of the definition;
/// callers fix a canonical order before combining.
pub open spec fn combine_of(hs: Seq<Seq<u8>>) -> Seq<u8> {
    sha256_of(concat_bytes(hs))
}

/// Combines hashes by digesting their concatenation, in the given order.
pub fn combine_hashes(hashes: &Vec<Vec<u8>>) -> (r: Vec<u8>)
    ensures
        r@ == combine_of(hashes.deep_view()),
        r@.len() == 32,
{
    let ghost model = hashes.deep_view();
    let mut concatted: Vec<u8> = Vec::new();
    for i in 0..hashes.len()
        invariant
            model == hashes.deep_view(),
            model.len() == hashes.len(),
            forall|j: int| 0 <= j < hashes.len() ==> model[j] == hashes[j]@,
            concatted@ == concat_bytes(model.subrange(0, i as int)),
    {
        let ghost pre = model.subrange(0, i as int);
        concatted.extend_from_slice(hashes[i].as_slice());
        proof {
            lemma_concat_bytes_push(pre, model[i as int]);
            assert(pre.push(model[i as int]) =~= model.subrange(0, i + 1));
        }
    }
    proof {
        assert(model.subrange(0, model.len() as int) =~= model);
    }
    hash(concatted.as_slice())
}

/// Hashes each line of a file with the content hasher; the per-line
/// hashes feed the line-level diff.
pub fn hash_lines(lines: &Vec<Vec<u8>>) -> (r: Vec<Vec<u8>>)
    ensures
        r.deep_view().len() == lines.deep_view().len(),
        forall|i: int|
            0 <= i < lines.deep_view().len() ==> #[trigger] r.deep_view()[i] == sha256_of(
                lines.deep_view()[i],
            ),
{
    let mut out: Vec<Vec<u8>> = Vec::new();
    let n = lines.len();
    for i in 0..n
        invariant
            n == lines@.len(),
            out@.len() == i,
            forall|j: int|
                0 <= j < i ==> #[trigger] out.deep_view()[j] == sha256_of(lines.deep_view()[j]),
    {
        let h = hash(lines[i].as_slice());
        let ghost pre = out.deep_view();
        out.push(h);
        proof {
            assert(out.deep_view() =~~= pre.push(h@));
            assert(lines@[i as int]@ == lines.deep_view()[i as int]);
        }
    }
    out
}

/// Hashes each line with a registry-selected algorithm.
pub fn hash_lines_dyn(alg: DigestAlg, lines: &Vec<Vec<u8>>) -> (r: Vec<Vec<u8>>)
    ensures
        r.deep_view().len() == lines.deep_view().len(),
        forall|i: int|
            0 <= i < lines.deep_view().len() ==> #[trigger] r.deep_view()[i] == digest_of(
                alg,
                lines.deep_view()[i],
            ),
{
    let mut out: Vec<Vec<u8>> = Vec::new();
    let n = lines.len();
    for i in 0..n
        invariant
            n == lines@.len(),
            out@.len() == i,
            forall|j: int|
                0 <= j < i ==> #[trigger] out.deep_view()[j] == digest_of(
                    alg,
                    lines.deep_view()[j],
                ),
    {
        let h = hash_dyn(alg, lines[i].as_slice());
        let ghost pre = out.deep_view();
        out.push(h);
        proof {
            assert(out.deep_view() =~~= pre.push(h@));
            assert(lines@[i as int]@ == lines.deep_view()[i as int]);
        }
    }
    out
}

// ---------------------------------------------------------------------------
// Hex encoding of hashes.
//
// Hashes are referenced externally as lowercase hexadecimal: two digits per
// byte, so twice the digest length in characters.
// ---------------------------------------------------------------------------

/// The lowercase hex digit for a value below 16.
pub open spec fn hex_digit_char(n: u8) -> char {
    if n == 0 {
        '0'
    } else if n == 1 {
        '1'
    } else if n == 2 {
        '2'
    } else if n == 3 {
        '3'
    } else if n == 4 {
        '4'
    } else if n == 5 {
        '5'
    } else if n == 6 {
        '6'
    } else if n == 7 {
        '7'
    } else if n == 8 {
        '8'
    } else if n == 9 {
        '9'
    } else if n == 10 {
        'a'
    } else if n == 11 {
        'b'
    } else if n == 12 {
        'c'
    } else if n == 13 {
        'd'
    } else if n == 14 {
        'e'
    } else {
        'f'
    }
}

/// The lowercase hex encoding of a byte sequence.
pub open spec fn hex_of(data: Seq<u8>) -> Seq<char>
    decreases data.len(),
{
    if data.len() == 0 {
        Seq::empty()
    } else {
        seq![hex_digit_char(data.first() / 16), hex_digit_char(data.first() % 16)] + hex_of(
            data.drop_first(),
        )
    }
}

pub proof fn lemma_hex_of_push(data: Seq<u8>, b: u8)
    ensures
        hex_of(data.push(b)) == hex_of(data) + seq![
            hex_digit_char(b / 16),
            hex_digit_char(b % 16),
        ],
    decreases data.len(),
{
    let ext = data.push(b);
    if data.len() == 0 {
        assert(ext.first() == b);
        assert(ext.drop_first() =~= Seq::<u8>::empty());
        assert(data =~= Seq::<u8>::empty());
        assert(hex_of(Seq::<u8>::empty()) == Seq::<char>::empty());
        assert(hex_of(ext) =~= hex_of(data) + seq![
            hex_digit_char(b / 16),
            hex_digit_char(b % 16),
        ]);
    } else {
        assert(ext.first() == data.first());
        assert(ext.drop_first() =~= data.drop_first().push(b));
        lemma_hex_of_push(data.drop_first(), b);
        assert(hex_of(ext) =~= hex_of(data) + seq![
            hex_digit_char(b / 16),
            hex_digit_char(b % 16),
        ]);
    }
}

pub proof fn lemma_hex_of_len(data: Seq<u8>)
    ensures
        hex_of(data).len() == 2 * data.len(),
    decreases data.len(),
{
    if data.len() != 0 {
        lemma_hex_of_len(data.drop_first());
    }
}

fn hex_digit(n: u8) -> (c: char)
    requires
        n < 16,
    ensures
        c == hex_digit_char(n),
{
    match n {
        0 => '0',
        1 => '1',
        2 => '2',
        3 => '3',
        4 => '4',
        5 => '5',
        6 => '6',
        7 => '7',
        8 => '8',
        9 => '9',
        10 => 'a',
        11 => 'b',
        12 => 'c',
        13 => 'd',
        14 => 'e',
        _ => 'f',
    }
}

/// Encodes a digest as lowercase hexadecimal.
pub fn hash_to_hex_string(digest: &[u8]) -> (r: String)
    ensures
        r@ == hex_of(digest@),
        r@.len() == 2 * digest@.len(),
{
    let mut r = String::new();
    for i in 0..digest.len()
        invariant
            r@ == hex_of(digest@.subrange(0, i as int)),
    {
        let b = digest[i];
        string_push(&mut r, hex_digit(b / 16));
        string_push(&mut r, hex_digit(b % 16));
        proof {
            let pre = digest@.subrange(0, i as int);
            lemma_hex_of_push(pre, digest@[i as int]);
            assert(pre.push(digest@[i as int]) =~= digest@.subrange(0, i + 1));
            assert(r@ =~= hex_of(digest@.subrange(0, i + 1)));
        }
    }
    proof {
        assert(digest@.subrange(0, digest@.len() as int) =~= digest@);
        lemma_hex_of_len(digest@);
    }
    r
}

/// Whether a character is a lowercase hexadecimal digit.
pub open spec fn is_lower_hex_digit(c: char) -> bool {
    ('0' <= c && c <= '9') || ('a' <= c && c <= 'f')
}

/// Whether a string is a well-formed lowercase hex encoding.
pub open spec fn is_lower_hex_str(s: Seq<char>) -> bool {
    s.len() % 2 == 0 && forall|i: int| 0 <= i < s.len() ==> is_lower_hex_digit(#[trigger] s[i])
}

/// Whether a character is a hexadecimal digit (either case).
pub open spec fn is_hex_digit(c: char) -> bool {
    ('0' <= c && c <= '9') || ('a' <= c && c <= 'f') || ('A' <= c && c <= 'F')
}

/// The value of a hexadecimal digit.
pub open spec fn hex_val(c: char) -> u8 {
    if '0' <= c && c <= '9' {
        ((c as u32) - ('0' as u32)) as u8
    } else if 'a' <= c && c <= 'f' {
        ((c as u32) - ('a' as u32) + 10) as u8
    } else {
        ((c as u32) - ('A' as u32) + 10) as u8
    }
}

/// Whether a string is a well-formed hex encoding: even length, hex digits
/// throughout.
pub open spec fn is_hex_str(s: Seq<char>) -> bool {
    s.len() % 2 == 0 && forall|i: int| 0 <= i < s.len() ==> is_hex_digit(#[trigger] s[i])
}

/// The bytes a hex string encodes, two digits at a time.
pub open spec fn hex_to_bytes(s: Seq<char>) -> Seq<u8>
    decreases s.len(),
{
    if s.len() < 2 {
        Seq::empty()
    } else {
        seq![(16 * hex_val(s[0]) + hex_val(s[1])) as u8] + hex_to_bytes(s.skip(2))
    }
}

pub proof fn lemma_hex_to_bytes_push2(s: Seq<char>, c1: char, c2: char)
    requires
        s.len() % 2 == 0,
        is_hex_digit(c1),
        is_hex_digit(c2),
    ensures
        hex_to_bytes(s + seq![c1, c2]) == hex_to_bytes(s).push(
            (16 * hex_val(c1) + hex_val(c2)) as u8,
        ),
    decreases s.len(),
{
    let ext = s + seq![c1, c2];
    if s.len() == 0 {
        assert(ext[0] == c1 && ext[1] == c2);
        assert(ext.skip(2) =~= Seq::<char>::empty());
        assert(s =~= Seq::<char>::empty());
        assert(hex_to_bytes(Seq::<char>::empty()) == Seq::<u8>::empty());
        assert(hex_to_bytes(ext) =~= hex_to_bytes(s).push((16 * hex_val(c1) + hex_val(c2)) as u8));
    } else {
        assert(ext[0] == s[0] && ext[1] == s[1]);
        assert(ext.skip(2) =~= s.skip(2) + seq![c1, c2]);
        lemma_hex_to_bytes_push2(s.skip(2), c1, c2);
        assert(hex_to_bytes(ext) =~= hex_to_bytes(s).push((16 * hex_val(c1) + hex_val(c2)) as u8));
    }
}

fn hex_val_exec(c: char) -> (r: Option<u8>)
    ensures
        match r {
            Some(v) => is_hex_digit(c) && v == hex_val(c) && v < 16,
            None => !is_hex_digit(c),
        },
{
    if '0' <= c && c <= '9' {
        Some(((c as u32) - ('0' as u32)) as u8)
    } else if 'a' <= c && c <= 'f' {
        Some(((c as u32) - ('a' as u32) + 10) as u8)
    } else if 'A' <= c && c <= 'F' {
        Some(((c as u32) - ('A' as u32) + 10) as u8)
    } else {
        None
    }
}

/// Decodes a hex string into its bytes.  Fails exactly on strings of odd
/// length or with a character that is no hex digit.
pub fn hex_string_to_hash_vec(s: &str) -> (r: Result<Vec<u8>, VcError>)
    ensures
        match r {
            Ok(v) => is_hex_str(s@) && v@ == hex_to_bytes(s@) && v@.len() == s@.len() / 2,
            Err(e) => e == VcError::ParseError && !is_hex_str(s@),
        },
{
    let len = s.unicode_len();
    if len % 2 != 0 {
        return Err(VcError::ParseError);
    }
    let mut out: Vec<u8> = Vec::new();
    let mut i: usize = 0;
    while i < len
        invariant
            i <= len,
            i % 2 == 0,
            len % 2 == 0,
            len == s@.len(),
            forall|j: int| 0 <= j < i ==> is_hex_digit(#[trigger] s@[j]),
            out@ == hex_to_bytes(s@.subrange(0, i as int)),
            out@.len() == i / 2,
        decreases len - i,
    {
        let c1 = s.get_char(i);
        let c2 = s.get_char(i + 1);
        let v1 = match hex_val_exec(c1) {
            Some(v) => v,
            None => {
                return Err(VcError::ParseError);
            },
        };
        let v2 = match hex_val_exec(c2) {
            Some(v) => v,
            None => {
                return Err(VcError::ParseError);
            },
        };
        out.push(16 * v1 + v2);
        proof {
            let pre = s@.subrange(0, i as int);
            lemma_hex_to_bytes_push2(pre, c1, c2);
            assert(pre + seq![c1, c2] =~= s@.subrange(0, i + 2));
        }
        i = i + 2;
    }
    proof {
        assert(s@.subrange(0, len as int) =~= s@);
    }
    Ok(out)
}

/// Decodes a hex string that must name a full digest of the content
/// hasher: exactly 64 hex characters.
pub fn hex_string_to_hash(s: &str) -> (r: Result<Vec<u8>, VcError>)
    ensures
        match r {
            Ok(v) => is_hex_str(s@) && s@.len() == 64 && v@ == hex_to_bytes(s@) && v@.len() == 32,
            Err(e) => e == VcError::ParseError && !(is_hex_str(s@) && s@.len() == 64),
        },
{
    let bytes = hex_string_to_hash_vec(s)?;
    if bytes.len() != 32 {
        return Err(VcError::ParseError);
    }
    Ok(bytes)
}

/// Round trip: decoding an encoded byte sequence gives the bytes back.
///
/// Law: for every byte sequence, its lowercase hex encoding is a
/// well-formed hex string of twice its length, and decodes to the original
/// bytes.
pub proof fn lemma_hex_round_trip(data: Seq<u8>)
    ensures
        is_hex_str(hex_of(data)),
        is_lower_hex_str(hex_of(data)),
        hex_of(data).len() == 2 * data.len(),
        hex_to_bytes(hex_of(data)) == data,
    decreases data.len(),
{
    lemma_hex_of_len(data);
    if data.len() == 0 {
    } else {
        let b = data.first();
        let rest = data.drop_first();
        lemma_hex_round_trip(rest);
        let enc = hex_of(data);
        assert(enc[0] == hex_digit_char(b / 16));
        assert(enc[1] == hex_digit_char(b % 16));
        assert(is_hex_digit(hex_digit_char(b / 16)) && hex_val(hex_digit_char(b / 16)) == b / 16);
        assert(is_hex_digit(hex_digit_char(b % 16)) && hex_val(hex_digit_char(b % 16)) == b % 16);
        assert(enc.skip(2) =~= hex_of(rest));
        assert forall|i: int| 0 <= i < enc.len() implies is_hex_digit(#[trigger] enc[i])
            && is_lower_hex_digit(#[trigger] enc[i]) by {
            if i >= 2 {
                assert(enc[i] == hex_of(rest)[i - 2]);
                assert(is_lower_hex_digit(hex_of(rest)[i - 2]));
            }
        }
        assert(hex_to_bytes(enc) =~= data);
    }
}

} // verus!
