//! Byte-level record formats for persisted objects.
//!
//! A blob is persisted as its raw payload.  A tree is persisted as a
//! newline-delimited listing with one `<kind> <name> <hex-hash>` line per
//! child.  A commit is persisted as a line-based record with explicit
//! fields.  Every format has a parser proved to invert the encoder.

use vstd::prelude::*;
use vstd::utf8::{decode_utf8, encode_utf8, valid_utf8};

use crate::merkle::VcError;

verus! {

// ---------------------------------------------------------------------------
// Lowercase hex, at the byte (ASCII) level.
// ---------------------------------------------------------------------------

/// The ASCII code of the lowercase hex digit for a value below 16.
pub open spec fn hexb_digit(n: u8) -> u8 {
    if n < 10 {
        (0x30 + n) as u8
    } else {
        (0x61 + (n - 10)) as u8
    }
}

/// The lowercase-hex ASCII bytes of a byte sequence.
pub open spec fn hexb_of(data: Seq<u8>) -> Seq<u8>
    decreases data.len(),
{
    if data.len() == 0 {
        Seq::empty()
    } else {
        seq![hexb_digit(data.first() / 16), hexb_digit(data.first() % 16)] + hexb_of(
            data.drop_first(),
        )
    }
}

/// Whether an ASCII byte is a hex digit (either case).
pub open spec fn is_hexb_digit(b: u8) -> bool {
    (0x30 <= b && b <= 0x39) || (0x61 <= b && b <= 0x66) || (0x41 <= b && b <= 0x46)
}

/// The value of a hex-digit ASCII byte.
pub open spec fn hexb_val(b: u8) -> u8 {
    if 0x30 <= b && b <= 0x39 {
        (b - 0x30) as u8
    } else if 0x61 <= b && b <= 0x66 {
        (b - 0x61 + 10) as u8
    } else {
        (b - 0x41 + 10) as u8
    }
}

/// Whether a byte sequence is a well-formed hex encoding.
pub open spec fn is_hexb_str(s: Seq<u8>) -> bool {
    s.len() % 2 == 0 && forall|i: int| 0 <= i < s.len() ==> is_hexb_digit(#[trigger] s[i])
}

/// The bytes a hex byte sequence encodes.
pub open spec fn hexb_to_bytes(s: Seq<u8>) -> Seq<u8>
    decreases s.len(),
{
    if s.len() < 2 {
        Seq::empty()
    } else {
        seq![(16 * hexb_val(s[0]) + hexb_val(s[1])) as u8] + hexb_to_bytes(s.skip(2))
    }
}

pub proof fn lemma_hexb_of_push(data: Seq<u8>, b: u8)
    ensures
        hexb_of(data.push(b)) == hexb_of(data) + seq![hexb_digit(b / 16), hexb_digit(b % 16)],
    decreases data.len(),
{
    let ext = data.push(b);
    if data.len() == 0 {
        assert(ext.first() == b);
        assert(ext.drop_first() =~= Seq::<u8>::empty());
        assert(data =~= Seq::<u8>::empty());
        assert(hexb_of(Seq::<u8>::empty()) == Seq::<u8>::empty());
        assert(hexb_of(ext) =~= hexb_of(data) + seq![hexb_digit(b / 16), hexb_digit(b % 16)]);
    } else {
        assert(ext.first() == data.first());
        assert(ext.drop_first() =~= data.drop_first().push(b));
        lemma_hexb_of_push(data.drop_first(), b);
        assert(hexb_of(ext) =~= hexb_of(data) + seq![hexb_digit(b / 16), hexb_digit(b % 16)]);
    }
}

pub proof fn lemma_hexb_of_len(data: Seq<u8>)
    ensures
        hexb_of(data).len() == 2 * data.len(),
    decreases data.len(),
{
    if data.len() != 0 {
        lemma_hexb_of_len(data.drop_first());
    }
}

/// Round trip: byte-level hex decoding inverts encoding.
pub proof fn lemma_hexb_round_trip(data: Seq<u8>)
    ensures
        is_hexb_str(hexb_of(data)),
        hexb_of(data).len() == 2 * data.len(),
        hexb_to_bytes(hexb_of(data)) == data,
    decreases data.len(),
{
    lemma_hexb_of_len(data);
    if data.len() == 0 {
    } else {
        let b = data.first();
        let rest = data.drop_first();
        lemma_hexb_round_trip(rest);
        let enc = hexb_of(data);
        assert(enc[0] == hexb_digit(b / 16));
        assert(enc[1] == hexb_digit(b % 16));
        assert(enc.skip(2) =~= hexb_of(rest));
        assert forall|i: int| 0 <= i < enc.len() implies is_hexb_digit(#[trigger] enc[i]) by {
            if i >= 2 {
                assert(enc[i] == hexb_of(rest)[i - 2]);
            }
        }
        assert(hexb_to_bytes(enc) =~= data);
    }
}

/// Appends the lowercase hex encoding of `data` to `out`.
pub fn hexb_encode_into(out: &mut Vec<u8>, data: &[u8])
    ensures
        final(out)@ == old(out)@ + hexb_of(data@),
{
    let ghost base = out@;
    for i in 0..data.len()
        invariant
            out@ == base + hexb_of(data@.subrange(0, i as int)),
    {
        let b = data[i];
        let hi = b / 16;
        let lo = b % 16;
        out.push(if hi < 10 {
            0x30 + hi
        } else {
            0x61 + (hi - 10)
        });
        out.push(if lo < 10 {
            0x30 + lo
        } else {
            0x61 + (lo - 10)
        });
        proof {
            let pre = data@.subrange(0, i as int);
            lemma_hexb_of_push(pre, data@[i as int]);
            assert(pre.push(data@[i as int]) =~= data@.subrange(0, i + 1));
            assert(out@ =~= base + hexb_of(data@.subrange(0, i + 1)));
        }
    }
    proof {
        assert(data@.subrange(0, data@.len() as int) =~= data@);
    }
}

pub proof fn lemma_hexb_to_bytes_push2(s: Seq<u8>, c1: u8, c2: u8)
    requires
        s.len() % 2 == 0,
        is_hexb_digit(c1),
        is_hexb_digit(c2),
    ensures
        hexb_to_bytes(s + seq![c1, c2]) == hexb_to_bytes(s).push(
            (16 * hexb_val(c1) + hexb_val(c2)) as u8,
        ),
    decreases s.len(),
{
    let ext = s + seq![c1, c2];
    if s.len() == 0 {
        assert(ext[0] == c1 && ext[1] == c2);
        assert(ext.skip(2) =~= Seq::<u8>::empty());
        assert(s =~= Seq::<u8>::empty());
        assert(hexb_to_bytes(Seq::<u8>::empty()) == Seq::<u8>::empty());
        assert(hexb_to_bytes(ext) =~= hexb_to_bytes(s).push(
            (16 * hexb_val(c1) + hexb_val(c2)) as u8,
        ));
    } else {
        assert(ext[0] == s[0] && ext[1] == s[1]);
        assert(ext.skip(2) =~= s.skip(2) + seq![c1, c2]);
        lemma_hexb_to_bytes_push2(s.skip(2), c1, c2);
        assert(hexb_to_bytes(ext) =~= hexb_to_bytes(s).push(
            (16 * hexb_val(c1) + hexb_val(c2)) as u8,
        ));
    }
}

fn hexb_val_exec(b: u8) -> (r: Option<u8>)
    ensures
        match r {
            Some(v) => is_hexb_digit(b) && v == hexb_val(b) && v < 16,
            None => !is_hexb_digit(b),
        },
{
    if 0x30 <= b && b <= 0x39 {
        Some(b - 0x30)
    } else if 0x61 <= b && b <= 0x66 {
        Some(b - 0x61 + 10)
    } else if 0x41 <= b && b <= 0x46 {
        Some(b - 0x41 + 10)
    } else {
        None
    }
}

/// Decodes a run of hex ASCII bytes.  Fails exactly on odd length or a
/// byte that is no hex digit.
pub fn hexb_decode(s: &[u8]) -> (r: Result<Vec<u8>, VcError>)
    ensures
        match r {
            Ok(v) => is_hexb_str(s@) && v@ == hexb_to_bytes(s@) && v@.len() == s@.len() / 2,
            Err(e) => e == VcError::ParseError && !is_hexb_str(s@),
        },
{
    let len = s.len();
    if len % 2 != 0 {
        return Err(VcError::ParseError);
    }
    let mut out: Vec<u8> = Vec::new();
    let mut i: usize = 0;
    while i < len
        invariant
            i <= len,
            i % 2 == 0,
            len % 2 == 0,
            len == s@.len(),
            forall|j: int| 0 <= j < i ==> is_hexb_digit(#[trigger] s@[j]),
            out@ == hexb_to_bytes(s@.subrange(0, i as int)),
            out@.len() == i / 2,
        decreases len - i,
    {
        let v1 = match hexb_val_exec(s[i]) {
            Some(v) => v,
            None => {
                return Err(VcError::ParseError);
            },
        };
        let v2 = match hexb_val_exec(s[i + 1]) {
            Some(v) => v,
            None => {
                return Err(VcError::ParseError);
            },
        };
        out.push(16 * v1 + v2);
        proof {
            let pre = s@.subrange(0, i as int);
            lemma_hexb_to_bytes_push2(pre, s@[i as int], s@[i + 1]);
            assert(pre + seq![s@[i as int], s@[i + 1]] =~= s@.subrange(0, i + 2));
        }
        i = i + 2;
    }
    proof {
        assert(s@.subrange(0, len as int) =~= s@);
    }
    Ok(out)
}

// ---------------------------------------------------------------------------
// Bytes free of line feeds.
// ---------------------------------------------------------------------------

/// No byte of the sequence is a line feed.
pub open spec fn no_lf(bytes: Seq<u8>) -> bool {
    forall|j: int| 0 <= j < bytes.len() ==> (#[trigger] bytes[j]) != 10
}

/// No character of the sequence is a line feed.
pub open spec fn no_lf_chars(s: Seq<char>) -> bool {
    forall|j: int| 0 <= j < s.len() ==> (#[trigger] s[j]) != '\n'
}

proof fn lemma_encode_scalar_no_lf(c: char)
    requires
        c != '\n',
    ensures
        no_lf(vstd::utf8::encode_scalar(c as u32)),
{
    broadcast use vstd::utf8::char_is_scalar;
    broadcast use vstd::utf8::char_u32_cast;

    let v = c as u32;
    let enc = vstd::utf8::encode_scalar(v);
    if vstd::utf8::has_width_1_encoding(v) {
        assert((v & 0x7F) == v) by (bit_vector)
            requires
                v <= 0x7F,
        ;
        assert(v != 10) by {
            if v == 10 {
                assert((10u32 as char) == c);
                assert(('\n' as u32) == 10);
                assert((10u32 as char) == '\n');
            }
        }
        assert(enc[0] == (v & 0x7F) as u8);
        assert(enc[0] != 10);
    } else {
        assert(0xC0u8 | (((v >> 6u32) & 0x1F) as u8) >= 0x80) by (bit_vector);
        assert(0xE0u8 | (((v >> 12u32) & 0x0F) as u8) >= 0x80) by (bit_vector);
        assert(0xF0u8 | (((v >> 18u32) & 0x7) as u8) >= 0x80) by (bit_vector);
        assert(0x80u8 | ((v & 0x3F) as u8) >= 0x80) by (bit_vector);
        assert(0x80u8 | (((v >> 6u32) & 0x3F) as u8) >= 0x80) by (bit_vector);
        assert(0x80u8 | (((v >> 12u32) & 0x3F) as u8) >= 0x80) by (bit_vector);
        assert forall|j: int| 0 <= j < enc.len() implies (#[trigger] enc[j]) != 10 by {}
    }
}

/// The UTF-8 encoding of characters without line feeds holds no line feed
/// byte.
pub proof fn lemma_encode_utf8_no_lf(s: Seq<char>)
    requires
        no_lf_chars(s),
    ensures
        no_lf(encode_utf8(s)),
    decreases s.len(),
{
    if s.len() != 0 {
        lemma_encode_scalar_no_lf(s[0]);
        assert forall|j: int| 0 <= j < s.drop_first().len() implies (
        #[trigger] s.drop_first()[j]) != '\n' by {
            assert(s.drop_first()[j] == s[j + 1]);
        }
        lemma_encode_utf8_no_lf(s.drop_first());
        let head = vstd::utf8::encode_scalar(s[0] as u32);
        let tail = encode_utf8(s.drop_first());
        assert forall|j: int| 0 <= j < encode_utf8(s).len() implies (
        #[trigger] encode_utf8(s)[j]) != 10 by {
            if j < head.len() {
                assert(encode_utf8(s)[j] == head[j]);
            } else {
                assert(encode_utf8(s)[j] == tail[j - head.len()]);
            }
        }
    }
}

/// Splitting a payload that starts with a clean line: the line comes off
/// whole and the rest is split on its own.
pub proof fn lemma_split_lines_prefix(line: Seq<u8>, rest: Seq<u8>)
    requires
        no_lf(line),
        line.len() > 0 ==> line.last() != 13,
    ensures
        crate::util::split_lines_spec(line + seq![10u8] + rest) == seq![line]
            + crate::util::split_lines_spec(rest),
{
    let payload = line + seq![10u8] + rest;
    crate::util::lemma_find_line_feed(payload);
    let f = crate::util::find_line_feed(payload);
    assert(payload[line.len() as int] == 10);
    assert forall|j: int| 0 <= j < line.len() implies payload[j] != 10 by {
        assert(payload[j] == line[j]);
    }
    assert(f == line.len()) by {
        if f < line.len() {
            assert(payload[f] == 10);
        } else if f > line.len() {
            assert(payload[line.len() as int] != 10);
        }
    }
    assert(payload.take(f) =~= line);
    assert(crate::util::strip_cr(line) == line);
    assert(payload.skip(f + 1) =~= rest);
    assert(crate::util::split_lines_spec(payload) =~= seq![line] + crate::util::split_lines_spec(
        rest,
    ));
}

// ---------------------------------------------------------------------------
// The tree listing format: one `<kind> <name> <hex-hash>` line per child.
// ---------------------------------------------------------------------------

/// A parsed listing entry: name, kind, and the child's hash bytes.
pub type ListingEntry = (Seq<char>, crate::stubs::FsObjectType, Seq<u8>);

/// The four ASCII bytes naming an entry's kind.
pub open spec fn kind_bytes(kind: crate::stubs::FsObjectType) -> Seq<u8> {
    match kind {
        crate::stubs::FsObjectType::Blob => seq![0x62u8, 0x6cu8, 0x6fu8, 0x62u8],
        crate::stubs::FsObjectType::Tree => seq![0x74u8, 0x72u8, 0x65u8, 0x65u8],
    }
}

/// One listing line, without its terminating line feed.
pub open spec fn listing_line(e: ListingEntry) -> Seq<u8> {
    kind_bytes(e.1) + seq![0x20u8] + encode_utf8(e.0) + seq![0x20u8] + hexb_of(e.2)
}

/// The whole listing payload: each line terminated by a line feed.
pub open spec fn listing_payload(entries: Seq<ListingEntry>) -> Seq<u8>
    decreases entries.len(),
{
    if entries.len() == 0 {
        Seq::empty()
    } else {
        listing_line(entries.first()) + seq![10u8] + listing_payload(entries.drop_first())
    }
}

/// Whether a byte is a lowercase hex digit.
pub open spec fn is_lower_hexb_digit(b: u8) -> bool {
    (0x30 <= b && b <= 0x39) || (0x61 <= b && b <= 0x66)
}

/// What one listing line parses to, if anything: a fixed four-byte kind,
/// one space, the name (any bytes), one space, and exactly 64 lowercase
/// hex digits.
pub open spec fn parse_line_spec(line: Seq<u8>) -> Option<ListingEntry> {
    if line.len() < 70 {
        None::<ListingEntry>
    } else {
        let kind_part = line.subrange(0, 4);
        let name_part = line.subrange(5, line.len() - 65);
        let hex_part = line.subrange(line.len() - 64, line.len() as int);
        let kind_ok = kind_part == kind_bytes(crate::stubs::FsObjectType::Blob) || kind_part
            == kind_bytes(crate::stubs::FsObjectType::Tree);
        let hex_ok = forall|j: int|
            0 <= j < hex_part.len() ==> is_lower_hexb_digit(#[trigger] hex_part[j]);
        if kind_ok && line[4] == 0x20 && line[line.len() - 65] == 0x20 && hex_ok && valid_utf8(
            name_part,
        ) {
            let kind = if kind_part == kind_bytes(crate::stubs::FsObjectType::Blob) {
                crate::stubs::FsObjectType::Blob
            } else {
                crate::stubs::FsObjectType::Tree
            };
            Some((decode_utf8(name_part), kind, hexb_to_bytes(hex_part)))
        } else {
            None::<ListingEntry>
        }
    }
}

/// What a listing payload parses to, if anything: every line terminated
/// by a line feed and well-formed.
pub open spec fn parse_listing_spec(payload: Seq<u8>) -> Option<Seq<ListingEntry>>
    decreases payload.len(),
{
    if payload.len() == 0 {
        Some(Seq::<ListingEntry>::empty())
    } else {
        let i = crate::util::find_line_feed(payload);
        if 0 <= i && i < payload.len() {
            match parse_line_spec(payload.take(i)) {
                Some(e) => match parse_listing_spec(payload.skip(i + 1)) {
                    Some(rest) => Some(seq![e] + rest),
                    None => None::<Seq<ListingEntry>>,
                },
                None => None::<Seq<ListingEntry>>,
            }
        } else {
            None::<Seq<ListingEntry>>
        }
    }
}

/// Round trip for one line.
proof fn lemma_parse_line_round_trip(e: ListingEntry)
    requires
        no_lf_chars(e.0),
        e.2.len() == 32,
    ensures
        no_lf(listing_line(e)),
        listing_line(e).len() >= 70,
        parse_line_spec(listing_line(e)) == Some((e.0, e.1, e.2)),
{
    broadcast use vstd::utf8::encode_utf8_valid_utf8;
    broadcast use vstd::utf8::encode_utf8_decode_utf8;

    let line = listing_line(e);
    let nb = encode_utf8(e.0);
    let hx = hexb_of(e.2);
    lemma_hexb_round_trip(e.2);
    lemma_encode_utf8_no_lf(e.0);
    assert(line.len() == 4 + 1 + nb.len() + 1 + 64);
    assert forall|j: int| 0 <= j < line.len() implies (#[trigger] line[j]) != 10 by {
        if j < 4 {
            assert(line[j] == kind_bytes(e.1)[j]);
            assert(kind_bytes(e.1)[j] != 10);
        } else if j == 4 {
            assert(line[j] == 0x20);
        } else if j < 5 + nb.len() {
            assert(line[j] == nb[j - 5]);
        } else if j == 5 + nb.len() {
            assert(line[j] == 0x20);
        } else {
            assert(line[j] == hx[j - 6 - nb.len()]);
            assert(is_hexb_digit(hx[j - 6 - nb.len()]));
        }
    }
    assert(line.subrange(0, 4) =~= kind_bytes(e.1));
    assert(line[4] == 0x20);
    assert(line[line.len() - 65] == 0x20);
    assert(line.subrange(5, line.len() - 65) =~= nb);
    assert(line.subrange(line.len() - 64, line.len() as int) =~= hx);
    assert(kind_bytes(crate::stubs::FsObjectType::Blob) != kind_bytes(
        crate::stubs::FsObjectType::Tree,
    )) by {
        assert(kind_bytes(crate::stubs::FsObjectType::Blob)[0] == 0x62);
        assert(kind_bytes(crate::stubs::FsObjectType::Tree)[0] == 0x74);
    }
    assert forall|j: int| 0 <= j < hx.len() implies is_lower_hexb_digit(#[trigger] hx[j]) by {
        lemma_hexb_lower(e.2, j);
    }
    assert(decode_utf8(nb) == e.0);
    assert(hexb_to_bytes(hx) == e.2);
}

/// Every byte of a hex encoding is a lowercase hex digit.
proof fn lemma_hexb_lower(data: Seq<u8>, j: int)
    requires
        0 <= j < hexb_of(data).len(),
    ensures
        is_lower_hexb_digit(hexb_of(data)[j]),
    decreases data.len(),
{
    lemma_hexb_of_len(data);
    if data.len() != 0 {
        if j >= 2 {
            assert(hexb_of(data)[j] == hexb_of(data.drop_first())[j - 2]);
            lemma_hexb_lower(data.drop_first(), j - 2);
        }
    }
}

/// Round trip: parsing an encoded listing yields the entries back, as
/// long as no name holds a line feed and every hash is full length.
pub proof fn lemma_listing_round_trip(entries: Seq<ListingEntry>)
    requires
        forall|i: int| 0 <= i < entries.len() ==> no_lf_chars((#[trigger] entries[i]).0),
        forall|i: int| 0 <= i < entries.len() ==> (#[trigger] entries[i]).2.len() == 32,
    ensures
        parse_listing_spec(listing_payload(entries)) == Some(entries),
    decreases entries.len(),
{
    if entries.len() == 0 {
        assert(parse_listing_spec(listing_payload(entries)) =~= Some(entries));
    } else {
        let e = entries.first();
        let rest = entries.drop_first();
        lemma_parse_line_round_trip(e);
        let line = listing_line(e);
        assert(line.len() > 0 && line.last() != 13) by {
            lemma_hexb_round_trip(e.2);
            assert(line[line.len() - 1] == hexb_of(e.2)[63]);
            lemma_hexb_lower(e.2, 63);
        }
        lemma_split_lines_prefix(line, listing_payload(rest));
        let payload = listing_payload(entries);
        assert(payload =~= line + seq![10u8] + listing_payload(rest));
        crate::util::lemma_find_line_feed(payload);
        let f = crate::util::find_line_feed(payload);
        assert(payload[line.len() as int] == 10);
        assert forall|j: int| 0 <= j < line.len() implies payload[j] != 10 by {
            assert(payload[j] == line[j]);
        }
        assert(f == line.len()) by {
            if f < line.len() {
                assert(payload[f] == 10);
            } else if f > line.len() {
                assert(payload[line.len() as int] != 10);
            }
        }
        assert(payload.take(f) =~= line);
        assert(payload.skip(f + 1) =~= listing_payload(rest));
        lemma_listing_round_trip(rest);
        assert(parse_listing_spec(payload) =~= Some(entries));
    }
}

pub proof fn lemma_listing_payload_push(entries: Seq<ListingEntry>, e: ListingEntry)
    ensures
        listing_payload(entries.push(e)) == listing_payload(entries) + listing_line(e) + seq![
            10u8,
        ],
    decreases entries.len(),
{
    let ext = entries.push(e);
    if entries.len() == 0 {
        assert(ext.first() == e);
        assert(ext.drop_first() =~= Seq::<ListingEntry>::empty());
        assert(listing_payload(Seq::<ListingEntry>::empty()) == Seq::<u8>::empty());
        assert(entries =~= Seq::<ListingEntry>::empty());
        assert(listing_payload(ext) =~= listing_payload(entries) + listing_line(e) + seq![10u8]);
    } else {
        assert(ext.first() == entries.first());
        assert(ext.drop_first() =~= entries.drop_first().push(e));
        lemma_listing_payload_push(entries.drop_first(), e);
        assert(listing_payload(ext) =~= listing_payload(entries) + listing_line(e) + seq![10u8]);
    }
}

/// The listing entries a tree persists: each child's name, kind and
/// recorded hash.
pub open spec fn tree_entries(listings: Seq<(crate::vc::Name, crate::vc::FsObject)>) -> Seq<
    ListingEntry,
> {
    listings.map_values(
        |e: (crate::vc::Name, crate::vc::FsObject)|
            (
                e.0@,
                match e.1 {
                    crate::vc::FsObject::Blob(_) => crate::stubs::FsObjectType::Blob,
                    crate::vc::FsObject::Tree(_) => crate::stubs::FsObjectType::Tree,
                },
                e.1.hash_model(),
            ),
    )
}

/// Encodes a tree's listing, one line per child in listing order.
pub fn encode_tree_listing(tree: &crate::vc::Tree) -> (r: Vec<u8>)
    ensures
        r@ == listing_payload(tree_entries(tree.listings@)),
{
    let mut out: Vec<u8> = Vec::new();
    let n = tree.listings.len();
    for i in 0..n
        invariant
            n == tree.listings@.len(),
            out@ == listing_payload(tree_entries(tree.listings@).subrange(0, i as int)),
    {
        let ghost pre = tree_entries(tree.listings@).subrange(0, i as int);
        let ghost entry = tree_entries(tree.listings@)[i as int];
        let ghost before = out@;
        match &tree.listings[i].1 {
            crate::vc::FsObject::Blob(_) => {
                out.push(0x62);
                out.push(0x6c);
                out.push(0x6f);
                out.push(0x62);
            },
            crate::vc::FsObject::Tree(_) => {
                out.push(0x74);
                out.push(0x72);
                out.push(0x65);
                out.push(0x65);
            },
        }
        out.push(0x20);
        out.extend_from_slice(tree.listings[i].0.as_str().as_bytes());
        out.push(0x20);
        let ghost mid = out@;
        match &tree.listings[i].1 {
            crate::vc::FsObject::Blob(b) => hexb_encode_into(&mut out, b.hash.as_slice()),
            crate::vc::FsObject::Tree(t) => hexb_encode_into(&mut out, t.hash.as_slice()),
        }
        out.push(10);
        proof {
            assert(out@ =~= before + listing_line(entry) + seq![10u8]);
            lemma_listing_payload_push(pre, entry);
            assert(pre.push(entry) =~= tree_entries(tree.listings@).subrange(0, i + 1));
            assert(out@ =~= listing_payload(tree_entries(tree.listings@).subrange(0, i + 1)));
        }
    }
    proof {
        let all = tree_entries(tree.listings@);
        assert(all.subrange(0, all.len() as int) =~= all);
    }
    out
}

/// Finds the next line feed at or after `start`.
fn find_lf(payload: &[u8], start: usize) -> (r: Option<usize>)
    requires
        start <= payload@.len(),
    ensures
        match r {
            Some(e) => start <= e < payload@.len() && e - start == crate::util::find_line_feed(
                payload@.skip(start as int),
            ),
            None => crate::util::find_line_feed(payload@.skip(start as int)) == payload@.len()
                - start,
        },
{
    let len = payload.len();
    let mut end = start;
    while end < len && payload[end] != 10
        invariant
            start <= end <= len,
            len == payload@.len(),
            forall|j: int| start <= j < end ==> payload@[j] != 10,
        decreases len - end,
    {
        end = end + 1;
    }
    proof {
        let rest = payload@.skip(start as int);
        crate::util::lemma_find_line_feed(rest);
        assert forall|j: int| 0 <= j < end - start implies rest[j] != 10 by {
            assert(rest[j] == payload@[start + j]);
        }
        if end < len {
            assert(rest[end - start] == payload@[end as int]);
        }
        assert(crate::util::find_line_feed(rest) == end - start) by {
            let f = crate::util::find_line_feed(rest);
            if f < end - start {
                assert(rest[f] == 10);
                assert(payload@[start + f] != 10);
            } else if f > end - start {
                assert(end < len);
            }
        }
    }
    if end < len {
        Some(end)
    } else {
        None
    }
}

/// Copies `payload[start..end]` into a fresh buffer.
fn copy_range(payload: &[u8], start: usize, end: usize) -> (r: Vec<u8>)
    requires
        start <= end <= payload@.len(),
    ensures
        r@ == payload@.subrange(start as int, end as int),
{
    let mut out: Vec<u8> = Vec::new();
    let mut k = start;
    while k < end
        invariant
            start <= k <= end,
            end <= payload@.len(),
            out@ =~= payload@.subrange(start as int, k as int),
        decreases end - k,
    {
        out.push(payload[k]);
        proof {
            assert(out@ =~= payload@.subrange(start as int, k + 1));
        }
        k = k + 1;
    }
    out
}

/// Parses one listing line into its name, kind and hash bytes.
fn parse_listing_line(line: &[u8]) -> (r: Result<
    (crate::vc::Name, crate::stubs::FsObjectType, Vec<u8>),
    VcError,
>)
    ensures
        match r {
            Ok(v) => parse_line_spec(line@) == Some((v.0@, v.1, v.2@)),
            Err(e) => e == VcError::ParseError && parse_line_spec(line@) is None,
        },
{
    let len = line.len();
    if len < 70 {
        return Err(VcError::ParseError);
    }
    let kind = if line[0] == 0x62 && line[1] == 0x6c && line[2] == 0x6f && line[3] == 0x62 {
        crate::stubs::FsObjectType::Blob
    } else if line[0] == 0x74 && line[1] == 0x72 && line[2] == 0x65 && line[3] == 0x65 {
        crate::stubs::FsObjectType::Tree
    } else {
        proof {
            let kp = line@.subrange(0, 4);
            assert(kp[0] == line@[0] && kp[1] == line@[1] && kp[2] == line@[2] && kp[3]
                == line@[3]);
            assert(kp != kind_bytes(crate::stubs::FsObjectType::Blob));
            assert(kp != kind_bytes(crate::stubs::FsObjectType::Tree));
        }
        return Err(VcError::ParseError);
    };
    proof {
        let kp = line@.subrange(0, 4);
        assert(kp[0] == line@[0] && kp[1] == line@[1] && kp[2] == line@[2] && kp[3] == line@[3]);
        assert(kp =~= kind_bytes(kind));
        assert(kind_bytes(crate::stubs::FsObjectType::Blob) != kind_bytes(
            crate::stubs::FsObjectType::Tree,
        )) by {
            assert(kind_bytes(crate::stubs::FsObjectType::Blob)[0] == 0x62);
            assert(kind_bytes(crate::stubs::FsObjectType::Tree)[0] == 0x74);
        }
    }
    if line[4] != 0x20 || line[len - 65] != 0x20 {
        return Err(VcError::ParseError);
    }
    // the hash: exactly 64 lowercase hex digits
    let mut j = len - 64;
    while j < len
        invariant
            len - 64 <= j <= len,
            len == line@.len(),
            len >= 70,
            forall|t: int| len - 64 <= t < j ==> is_lower_hexb_digit(#[trigger] line@[t]),
        decreases len - j,
    {
        let b = line[j];
        if !((0x30 <= b && b <= 0x39) || (0x61 <= b && b <= 0x66)) {
            proof {
                let hp = line@.subrange(len - 64, len as int);
                assert(hp[j - (len - 64)] == line@[j as int]);
            }
            return Err(VcError::ParseError);
        }
        j = j + 1;
    }
    let hex_part = copy_range(line, len - 64, len);
    let hash = match hexb_decode(hex_part.as_slice()) {
        Ok(h) => h,
        Err(_) => {
            proof {
                let hp = line@.subrange(len - 64, len as int);
                assert forall|t: int| 0 <= t < hp.len() implies is_hexb_digit(
                    #[trigger] hp[t],
                ) by {
                    assert(hp[t] == line@[len - 64 + t]);
                    assert(is_lower_hexb_digit(line@[len - 64 + t]));
                }
                assert(is_hexb_str(hp));
            }
            vstd::pervasive::unreached()
        },
    };
    let name_bytes = copy_range(line, 5, len - 65);
    let ghost nb = name_bytes@;
    let name = match crate::util::utf8_exact(name_bytes) {
        Ok(s) => s,
        Err(_) => {
            return Err(VcError::ParseError);
        },
    };
    proof {
        let hp = line@.subrange(len - 64, len as int);
        assert forall|t: int| 0 <= t < hp.len() implies is_lower_hexb_digit(#[trigger] hp[t]) by {
            assert(hp[t] == line@[len - 64 + t]);
        }
        assert forall|t: int| 0 <= t < hp.len() implies is_hexb_digit(#[trigger] hp[t]) by {
            assert(hp[t] == line@[len - 64 + t]);
            assert(is_lower_hexb_digit(line@[len - 64 + t]));
        }
        assert(hex_part@ == hp);
        broadcast use vstd::utf8::encode_utf8_decode_utf8;

        assert(decode_utf8(nb) == name@);
    }
    Ok((name, kind, hash))
}

/// Parses a tree listing payload into its entries, with each child's hash
/// as bytes.  Fails exactly where [`parse_listing_spec`] does.
pub fn parse_tree_listing(payload: &[u8]) -> (r: Result<
    Vec<(crate::vc::Name, crate::stubs::FsObjectType, Vec<u8>)>,
    VcError,
>)
    ensures
        match r {
            Ok(v) => {
                &&& parse_listing_spec(payload@) is Some
                &&& {
                    let m = parse_listing_spec(payload@)->Some_0;
                    &&& v@.len() == m.len()
                    &&& forall|i: int|
                        0 <= i < m.len() ==> {
                            &&& (#[trigger] v@[i]).0@ == m[i].0
                            &&& v@[i].1 == m[i].1
                            &&& v@[i].2@ == m[i].2
                        }
                }
            },
            Err(e) => e == VcError::ParseError && parse_listing_spec(payload@) is None,
        },
{
    let len = payload.len();
    let mut out: Vec<(crate::vc::Name, crate::stubs::FsObjectType, Vec<u8>)> = Vec::new();
    let mut start: usize = 0;
    proof {
        assert(payload@.skip(0) =~= payload@);
    }
    while start < len
        invariant
            start <= len,
            len == payload@.len(),
            (parse_listing_spec(payload@) is Some) == (parse_listing_spec(
                payload@.skip(start as int),
            ) is Some),
            parse_listing_spec(payload@.skip(start as int)) is Some ==> parse_listing_spec(
                payload@,
            )->Some_0 == entries_model(out@) + parse_listing_spec(
                payload@.skip(start as int),
            )->Some_0,
        decreases len - start,
    {
        let ghost rest_payload = payload@.skip(start as int);
        let end = match find_lf(payload, start) {
            Some(e) => e,
            None => {
                proof {
                    assert(parse_listing_spec(rest_payload) is None);
                }
                return Err(VcError::ParseError);
            },
        };
        let line = copy_range(payload, start, end);
        proof {
            assert(rest_payload.take(crate::util::find_line_feed(rest_payload)) =~= line@);
        }
        let entry = match parse_listing_line(line.as_slice()) {
            Ok(e) => e,
            Err(_) => {
                proof {
                    assert(parse_listing_spec(rest_payload) is None);
                }
                return Err(VcError::ParseError);
            },
        };
        let ghost pre_model = entries_model(out@);
        let ghost entry_model = (entry.0@, entry.1, entry.2@);
        out.push(entry);
        proof {
            assert(entries_model(out@) =~= pre_model.push(entry_model));
            assert(rest_payload.skip(crate::util::find_line_feed(rest_payload) + 1)
                =~= payload@.skip(end + 1));
            assert(parse_line_spec(rest_payload.take(crate::util::find_line_feed(rest_payload)))
                == Some(entry_model));
            if parse_listing_spec(payload@.skip(end + 1)) is Some {
                let rest1 = parse_listing_spec(payload@.skip(end + 1))->Some_0;
                assert(parse_listing_spec(rest_payload) == Some(seq![entry_model] + rest1));
                if parse_listing_spec(payload@) is Some {
                    assert(pre_model + (seq![entry_model] + rest1) =~= entries_model(out@)
                        + rest1);
                }
            } else {
                assert(parse_listing_spec(rest_payload) is None);
            }
        }
        start = end + 1;
    }
    proof {
        assert(payload@.skip(len as int) =~= Seq::<u8>::empty());
        assert(parse_listing_spec(payload@.skip(len as int)) == Some(Seq::<ListingEntry>::empty()));
        let m = parse_listing_spec(payload@)->Some_0;
        assert(entries_model(out@) + Seq::<ListingEntry>::empty() =~= entries_model(out@));
        assert(parse_listing_spec(payload@) == Some(entries_model(out@)));
    }
    Ok(out)
}

/// The model of parsed entries.
pub open spec fn entries_model(
    v: Seq<(crate::vc::Name, crate::stubs::FsObjectType, Vec<u8>)>,
) -> Seq<ListingEntry> {
    v.map_values(
        |e: (crate::vc::Name, crate::stubs::FsObjectType, Vec<u8>)| (e.0@, e.1, e.2@),
    )
}

/// Half the length: how many bytes a hex run decodes to.
pub proof fn lemma_hexb_to_bytes_len(s: Seq<u8>)
    ensures
        hexb_to_bytes(s).len() == s.len() / 2,
    decreases s.len(),
{
    if s.len() >= 2 {
        lemma_hexb_to_bytes_len(s.skip(2));
    }
}

/// Every hash in a parsed listing is full length.
pub proof fn lemma_parse_listing_hash_lens(payload: Seq<u8>)
    requires
        parse_listing_spec(payload) is Some,
    ensures
        forall|i: int|
            0 <= i < parse_listing_spec(payload)->Some_0.len() ==> (
            #[trigger] parse_listing_spec(payload)->Some_0[i]).2.len() == 32,
    decreases payload.len(),
{
    if payload.len() != 0 {
        let f = crate::util::find_line_feed(payload);
        let line = payload.take(f);
        let e = parse_line_spec(line)->Some_0;
        assert(e.2.len() == 32) by {
            lemma_hexb_to_bytes_len(line.subrange(line.len() - 64, line.len() as int));
        }
        lemma_parse_listing_hash_lens(payload.skip(f + 1));
        let rest = parse_listing_spec(payload.skip(f + 1))->Some_0;
        let whole = parse_listing_spec(payload)->Some_0;
        assert forall|i: int| 0 <= i < whole.len() implies (#[trigger] whole[i]).2.len()
            == 32 by {
            if i == 0 {
                assert(whole[0] == e);
            } else {
                assert(whole[i] == rest[i - 1]);
            }
        }
    }
}

/// The hashes of a run of listing entries, in order.
pub open spec fn entry_hashes(entries: Seq<ListingEntry>) -> Seq<Seq<u8>> {
    entries.map_values(|e: ListingEntry| e.2)
}

// ---------------------------------------------------------------------------
// The commit record format: five lines — tree hash, parent hash or `-`,
// author, message (both hex of their UTF-8 bytes), and the timestamp as
// hex of its little-endian bytes.
// ---------------------------------------------------------------------------

/// What a commit record parses to: tree hash, optional parent hash,
/// author, message and timestamp.
pub type CommitModel = (Seq<u8>, Option<Seq<u8>>, Seq<char>, Seq<char>, u64);

/// The value of eight little-endian bytes.
pub open spec fn le_val(b: Seq<u8>) -> u64
    recommends
        b.len() == 8,
{
    (b[0] as u64) | ((b[1] as u64) << 8u64) | ((b[2] as u64) << 16u64) | ((b[3] as u64) << 24u64)
        | ((b[4] as u64) << 32u64) | ((b[5] as u64) << 40u64) | ((b[6] as u64) << 48u64) | ((
    b[7] as u64) << 56u64)
}

/// Reading back the little-endian bytes of a u64 gives the value.
pub proof fn lemma_u64_le_round_trip(n: u64)
    ensures
        le_val(crate::vc::u64_le_bytes(n)) == n,
{
    let b = crate::vc::u64_le_bytes(n);
    assert(b[0] == ((n >> 0u64) & 0xff) as u8);
    assert(b[1] == ((n >> 8u64) & 0xff) as u8);
    assert(b[2] == ((n >> 16u64) & 0xff) as u8);
    assert(b[3] == ((n >> 24u64) & 0xff) as u8);
    assert(b[4] == ((n >> 32u64) & 0xff) as u8);
    assert(b[5] == ((n >> 40u64) & 0xff) as u8);
    assert(b[6] == ((n >> 48u64) & 0xff) as u8);
    assert(b[7] == ((n >> 56u64) & 0xff) as u8);
    assert(((((n >> 0u64) & 0xff) as u8) as u64) | (((((n >> 8u64) & 0xff) as u8) as u64)
        << 8u64) | (((((n >> 16u64) & 0xff) as u8) as u64) << 16u64) | (((((n >> 24u64)
        & 0xff) as u8) as u64) << 24u64) | (((((n >> 32u64) & 0xff) as u8) as u64) << 32u64) | ((((
    (n >> 40u64) & 0xff) as u8) as u64) << 40u64) | (((((n >> 48u64) & 0xff) as u8) as u64)
        << 48u64) | (((((n >> 56u64) & 0xff) as u8) as u64) << 56u64) == n) by (bit_vector);
}

/// Whether every byte is a lowercase hex digit.
pub open spec fn all_lower_hexb(s: Seq<u8>) -> bool {
    forall|j: int| 0 <= j < s.len() ==> is_lower_hexb_digit(#[trigger] s[j])
}

/// The first line of a payload and what follows it, if the payload has a
/// line feed.
pub open spec fn take_line(payload: Seq<u8>) -> Option<(Seq<u8>, Seq<u8>)> {
    let f = crate::util::find_line_feed(payload);
    if 0 <= f && f < payload.len() {
        Some((payload.take(f), payload.skip(f + 1)))
    } else {
        None
    }
}

proof fn lemma_take_line(line: Seq<u8>, rest: Seq<u8>)
    requires
        no_lf(line),
    ensures
        take_line(line + seq![10u8] + rest) == Some((line, rest)),
{
    let payload = line + seq![10u8] + rest;
    crate::util::lemma_find_line_feed(payload);
    let f = crate::util::find_line_feed(payload);
    assert(payload[line.len() as int] == 10);
    assert forall|j: int| 0 <= j < line.len() implies payload[j] != 10 by {
        assert(payload[j] == line[j]);
    }
    assert(f == line.len()) by {
        if f < line.len() {
            assert(payload[f] == 10);
        } else if f > line.len() {
            assert(payload[line.len() as int] != 10);
        }
    }
    assert(payload.take(f) =~= line);
    assert(payload.skip(f + 1) =~= rest);
}

/// The record a commit persists as.
pub open spec fn commit_record(
    tree_hash: Seq<u8>,
    parent: Option<Seq<u8>>,
    author: Seq<char>,
    message: Seq<char>,
    timestamp: u64,
) -> Seq<u8> {
    hexb_of(tree_hash) + seq![10u8] + (match parent {
        Some(p) => hexb_of(p),
        None => seq![0x2du8],
    }) + seq![10u8] + hexb_of(encode_utf8(author)) + seq![10u8] + hexb_of(encode_utf8(message))
        + seq![10u8] + hexb_of(crate::vc::u64_le_bytes(timestamp)) + seq![10u8]
}

/// What a commit record payload parses to, if anything.
pub open spec fn parse_commit_record_spec(payload: Seq<u8>) -> Option<CommitModel> {
    match take_line(payload) {
        None => None::<CommitModel>,
        Some((l1, r1)) => match take_line(r1) {
            None => None::<CommitModel>,
            Some((l2, r2)) => match take_line(r2) {
                None => None::<CommitModel>,
                Some((l3, r3)) => match take_line(r3) {
                    None => None::<CommitModel>,
                    Some((l4, r4)) => match take_line(r4) {
                        None => None::<CommitModel>,
                        Some((l5, r5)) => {
                            if r5.len() == 0 && l1.len() == 64 && all_lower_hexb(l1) && (l2
                                == seq![0x2du8] || (l2.len() == 64 && all_lower_hexb(l2)))
                                && l3.len() % 2 == 0 && all_lower_hexb(l3) && valid_utf8(
                                hexb_to_bytes(l3),
                            ) && l4.len() % 2 == 0 && all_lower_hexb(l4) && valid_utf8(
                                hexb_to_bytes(l4),
                            ) && l5.len() == 16 && all_lower_hexb(l5) {
                                Some(
                                    (
                                        hexb_to_bytes(l1),
                                        if l2 == seq![0x2du8] {
                                            None::<Seq<u8>>
                                        } else {
                                            Some(hexb_to_bytes(l2))
                                        },
                                        decode_utf8(hexb_to_bytes(l3)),
                                        decode_utf8(hexb_to_bytes(l4)),
                                        le_val(hexb_to_bytes(l5)),
                                    ),
                                )
                            } else {
                                None::<CommitModel>
                            }
                        },
                    },
                },
            },
        },
    }
}

/// Hex encodings hold no line feed.
proof fn lemma_hexb_no_lf(data: Seq<u8>)
    ensures
        no_lf(hexb_of(data)),
{
    assert forall|j: int| 0 <= j < hexb_of(data).len() implies (#[trigger] hexb_of(data)[j])
        != 10 by {
        lemma_hexb_lower(data, j);
    }
}

/// Round trip: parsing an encoded commit record yields its fields back.
pub proof fn lemma_commit_record_round_trip(
    tree_hash: Seq<u8>,
    parent: Option<Seq<u8>>,
    author: Seq<char>,
    message: Seq<char>,
    timestamp: u64,
)
    requires
        tree_hash.len() == 32,
        parent is Some ==> parent->0.len() == 32,
    ensures
        parse_commit_record_spec(commit_record(tree_hash, parent, author, message, timestamp))
            == Some((tree_hash, parent, author, message, timestamp)),
{
    broadcast use vstd::utf8::encode_utf8_valid_utf8;
    broadcast use vstd::utf8::encode_utf8_decode_utf8;

    let l1 = hexb_of(tree_hash);
    let l2 = match parent {
        Some(p) => hexb_of(p),
        None => seq![0x2du8],
    };
    let l3 = hexb_of(encode_utf8(author));
    let l4 = hexb_of(encode_utf8(message));
    let l5 = hexb_of(crate::vc::u64_le_bytes(timestamp));
    let payload = commit_record(tree_hash, parent, author, message, timestamp);
    lemma_hexb_round_trip(tree_hash);
    if parent is Some {
        lemma_hexb_round_trip(parent->0);
    }
    lemma_hexb_round_trip(encode_utf8(author));
    lemma_hexb_round_trip(encode_utf8(message));
    lemma_hexb_round_trip(crate::vc::u64_le_bytes(timestamp));
    lemma_hexb_no_lf(tree_hash);
    if parent is Some {
        lemma_hexb_no_lf(parent->0);
    }
    lemma_hexb_no_lf(encode_utf8(author));
    lemma_hexb_no_lf(encode_utf8(message));
    lemma_hexb_no_lf(crate::vc::u64_le_bytes(timestamp));
    assert(no_lf(l2)) by {
        if parent is None {
            assert(l2 =~= seq![0x2du8]);
            assert(l2[0] == 0x2d);
        }
    }
    let r1 = l2 + seq![10u8] + (l3 + seq![10u8] + (l4 + seq![10u8] + (l5 + seq![10u8]
        + Seq::<u8>::empty())));
    let r2 = l3 + seq![10u8] + (l4 + seq![10u8] + (l5 + seq![10u8] + Seq::<u8>::empty()));
    let r3 = l4 + seq![10u8] + (l5 + seq![10u8] + Seq::<u8>::empty());
    let r4 = l5 + seq![10u8] + Seq::<u8>::empty();
    assert(payload =~= l1 + seq![10u8] + r1);
    lemma_take_line(l1, r1);
    assert(r1 =~= l2 + seq![10u8] + r2);
    lemma_take_line(l2, r2);
    assert(r2 =~= l3 + seq![10u8] + r3);
    lemma_take_line(l3, r3);
    assert(r3 =~= l4 + seq![10u8] + r4);
    lemma_take_line(l4, r4);
    assert(r4 =~= l5 + seq![10u8] + Seq::<u8>::empty());
    lemma_take_line(l5, Seq::<u8>::empty());
    assert forall|j: int| 0 <= j < l1.len() implies is_lower_hexb_digit(#[trigger] l1[j]) by {
        lemma_hexb_lower(tree_hash, j);
    }
    assert forall|j: int| 0 <= j < l3.len() implies is_lower_hexb_digit(#[trigger] l3[j]) by {
        lemma_hexb_lower(encode_utf8(author), j);
    }
    assert forall|j: int| 0 <= j < l4.len() implies is_lower_hexb_digit(#[trigger] l4[j]) by {
        lemma_hexb_lower(encode_utf8(message), j);
    }
    assert forall|j: int| 0 <= j < l5.len() implies is_lower_hexb_digit(#[trigger] l5[j]) by {
        lemma_hexb_lower(crate::vc::u64_le_bytes(timestamp), j);
    }
    match parent {
        Some(p) => {
            assert forall|j: int| 0 <= j < l2.len() implies is_lower_hexb_digit(
                #[trigger] l2[j],
            ) by {
                lemma_hexb_lower(p, j);
            }
            assert(l2.len() == 64);
            assert(l2 != seq![0x2du8]);
        },
        None => {
            assert(l2 == seq![0x2du8]) by {
                assert(l2 =~= seq![0x2du8]);
            }
        },
    }
    lemma_u64_le_round_trip(timestamp);
    assert(parse_commit_record_spec(payload) == Some(
        (tree_hash, parent, author, message, timestamp),
    ));
}

/// Encodes a commit's persistent record.
pub fn encode_commit_record(c: &crate::vc::Commit) -> (r: Vec<u8>)
    ensures
        r@ == commit_record(c.tree.hash@, c.parent_model(), c.author@, c.message@, c.timestamp),
{
    let mut out: Vec<u8> = Vec::new();
    hexb_encode_into(&mut out, c.tree.hash.as_slice());
    out.push(10);
    match &c.parent {
        Some(p) => {
            hexb_encode_into(&mut out, p.as_slice());
        },
        None => {
            out.push(0x2d);
        },
    }
    out.push(10);
    let author_bytes = c.author.as_str().as_bytes();
    hexb_encode_into(&mut out, author_bytes);
    out.push(10);
    let message_bytes = c.message.as_str().as_bytes();
    hexb_encode_into(&mut out, message_bytes);
    out.push(10);
    let tsb = u64_le_vec(c.timestamp);
    hexb_encode_into(&mut out, tsb.as_slice());
    out.push(10);
    proof {
        assert(out@ =~= commit_record(
            c.tree.hash@,
            c.parent_model(),
            c.author@,
            c.message@,
            c.timestamp,
        ));
    }
    out
}

/// The little-endian bytes of a u64.
pub fn u64_le_vec(n: u64) -> (r: Vec<u8>)
    ensures
        r@ == crate::vc::u64_le_bytes(n),
{
    let mut tsb: Vec<u8> = Vec::new();
    tsb.push(((n >> 0u64) & 0xff) as u8);
    tsb.push(((n >> 8u64) & 0xff) as u8);
    tsb.push(((n >> 16u64) & 0xff) as u8);
    tsb.push(((n >> 24u64) & 0xff) as u8);
    tsb.push(((n >> 32u64) & 0xff) as u8);
    tsb.push(((n >> 40u64) & 0xff) as u8);
    tsb.push(((n >> 48u64) & 0xff) as u8);
    tsb.push(((n >> 56u64) & 0xff) as u8);
    proof {
        assert(tsb@ =~= crate::vc::u64_le_bytes(n));
    }
    tsb
}

/// Checks that every byte is a lowercase hex digit.
fn check_lower_hexb(s: &[u8]) -> (r: bool)
    ensures
        r == all_lower_hexb(s@),
{
    for i in 0..s.len()
        invariant
            forall|j: int| 0 <= j < i ==> is_lower_hexb_digit(#[trigger] s@[j]),
    {
        let b = s[i];
        if !((0x30 <= b && b <= 0x39) || (0x61 <= b && b <= 0x66)) {
            return false;
        }
    }
    true
}

/// Parses a commit record payload.  Fails exactly where
/// [`parse_commit_record_spec`] does.
#[verifier::rlimit(60)]
pub fn parse_commit_record(payload: &[u8]) -> (r: Result<
    (Vec<u8>, Option<Vec<u8>>, String, String, u64),
    VcError,
>)
    ensures
        match r {
            Ok(v) => parse_commit_record_spec(payload@) == Some(
                (
                    v.0@,
                    match v.1 {
                        Some(p) => Some(p@),
                        None => None::<Seq<u8>>,
                    },
                    v.2@,
                    v.3@,
                    v.4,
                ),
            ),
            Err(e) => e == VcError::ParseError && parse_commit_record_spec(payload@) is None,
        },
{
    let len = payload.len();
    proof {
        assert(payload@.skip(0) =~= payload@);
    }
    let ghost p0 = payload@;
    // line 1: the tree hash
    let e1 = match find_lf(payload, 0) {
        Some(e) => e,
        None => {
            return Err(VcError::ParseError);
        },
    };
    let l1 = copy_range(payload, 0, e1);
    proof {
        assert(p0.take(crate::util::find_line_feed(p0)) =~= l1@);
        assert(p0.skip(crate::util::find_line_feed(p0) + 1) =~= payload@.skip(e1 + 1));
    }
    // line 2: the parent hash or `-`
    let ghost p1 = payload@.skip(e1 + 1);
    let e2 = match find_lf(payload, e1 + 1) {
        Some(e) => e,
        None => {
            return Err(VcError::ParseError);
        },
    };
    let l2 = copy_range(payload, e1 + 1, e2);
    proof {
        assert(p1.take(crate::util::find_line_feed(p1)) =~= l2@);
        assert(p1.skip(crate::util::find_line_feed(p1) + 1) =~= payload@.skip(e2 + 1));
    }
    // line 3: the author
    let ghost p2 = payload@.skip(e2 + 1);
    let e3 = match find_lf(payload, e2 + 1) {
        Some(e) => e,
        None => {
            return Err(VcError::ParseError);
        },
    };
    let l3 = copy_range(payload, e2 + 1, e3);
    proof {
        assert(p2.take(crate::util::find_line_feed(p2)) =~= l3@);
        assert(p2.skip(crate::util::find_line_feed(p2) + 1) =~= payload@.skip(e3 + 1));
    }
    // line 4: the message
    let ghost p3 = payload@.skip(e3 + 1);
    let e4 = match find_lf(payload, e3 + 1) {
        Some(e) => e,
        None => {
            return Err(VcError::ParseError);
        },
    };
    let l4 = copy_range(payload, e3 + 1, e4);
    proof {
        assert(p3.take(crate::util::find_line_feed(p3)) =~= l4@);
        assert(p3.skip(crate::util::find_line_feed(p3) + 1) =~= payload@.skip(e4 + 1));
    }
    // line 5: the timestamp
    let ghost p4 = payload@.skip(e4 + 1);
    let e5 = match find_lf(payload, e4 + 1) {
        Some(e) => e,
        None => {
            return Err(VcError::ParseError);
        },
    };
    let l5 = copy_range(payload, e4 + 1, e5);
    proof {
        assert(p4.take(crate::util::find_line_feed(p4)) =~= l5@);
        assert(p4.skip(crate::util::find_line_feed(p4) + 1) =~= payload@.skip(e5 + 1));
    }
    let ghost p5 = payload@.skip(e5 + 1);
    if e5 + 1 != len {
        proof {
            assert(p5.len() > 0);
        }
        return Err(VcError::ParseError);
    }
    proof {
        assert(p5.len() == 0);
    }
    // validate and decode the fields
    if l1.len() != 64 || !check_lower_hexb(l1.as_slice()) {
        return Err(VcError::ParseError);
    }
    let tree_hash = match hexb_decode(l1.as_slice()) {
        Ok(h) => h,
        Err(_) => vstd::pervasive::unreached(),
    };
    let parent: Option<Vec<u8>> = if l2.len() == 1 && l2[0] == 0x2d {
        proof {
            assert(l2@ =~= seq![0x2du8]);
        }
        None
    } else {
        proof {
            assert(l2@ != seq![0x2du8]) by {
                if l2@ =~= seq![0x2du8] {
                    assert(l2@.len() == 1 && l2@[0] == 0x2d);
                }
            }
        }
        if l2.len() != 64 || !check_lower_hexb(l2.as_slice()) {
            return Err(VcError::ParseError);
        }
        match hexb_decode(l2.as_slice()) {
            Ok(h) => Some(h),
            Err(_) => vstd::pervasive::unreached(),
        }
    };
    if !check_lower_hexb(l3.as_slice()) {
        return Err(VcError::ParseError);
    }
    let author_bytes = match hexb_decode(l3.as_slice()) {
        Ok(b) => b,
        Err(_) => {
            return Err(VcError::ParseError);
        },
    };
    let ghost ab = author_bytes@;
    let author = match crate::util::utf8_exact(author_bytes) {
        Ok(s) => s,
        Err(_) => {
            return Err(VcError::ParseError);
        },
    };
    proof {
        vstd::utf8::encode_utf8_decode_utf8(author@);
        assert(decode_utf8(ab) == author@);
    }
    if !check_lower_hexb(l4.as_slice()) {
        return Err(VcError::ParseError);
    }
    let message_bytes = match hexb_decode(l4.as_slice()) {
        Ok(b) => b,
        Err(_) => {
            return Err(VcError::ParseError);
        },
    };
    let ghost mb = message_bytes@;
    let message = match crate::util::utf8_exact(message_bytes) {
        Ok(s) => s,
        Err(_) => {
            return Err(VcError::ParseError);
        },
    };
    proof {
        vstd::utf8::encode_utf8_decode_utf8(message@);
        assert(decode_utf8(mb) == message@);
    }
    if l5.len() != 16 || !check_lower_hexb(l5.as_slice()) {
        return Err(VcError::ParseError);
    }
    let tsb = match hexb_decode(l5.as_slice()) {
        Ok(b) => b,
        Err(_) => vstd::pervasive::unreached(),
    };
    let timestamp = (tsb[0] as u64) | ((tsb[1] as u64) << 8u64) | ((tsb[2] as u64) << 16u64) | ((
    tsb[3] as u64) << 24u64) | ((tsb[4] as u64) << 32u64) | ((tsb[5] as u64) << 40u64) | ((
    tsb[6] as u64) << 48u64) | ((tsb[7] as u64) << 56u64);
    Ok((tree_hash, parent, author, message, timestamp))
}

} // verus!
