//! Small helpers around std strings and byte buffers: a trusted wrapper for
//! pushing a character onto a `String`, lossy UTF-8 decoding, and the
//! splitting of a byte payload into lines.

use vstd::prelude::*;

verus! {

/// Relies on String::push: appends exactly the given character.
#[verifier::external_body]
pub(crate) fn string_push(s: &mut String, c: char)
    ensures
        final(s)@ == old(s)@.push(c),
{
    s.push(c)
}

/// Relies on String::from_utf8_lossy: on well-formed UTF-8 input it returns
/// the decoded string unchanged (its UTF-8 encoding is the input).
#[verifier::external_body]
pub(crate) fn utf8_lossy(data: &[u8]) -> (r: String)
    ensures
        vstd::utf8::valid_utf8(data@) ==> vstd::utf8::encode_utf8(r@) == data@,
{
    String::from_utf8_lossy(data).to_string()
}

/// Relies on String::from_utf8: succeeds exactly on well-formed UTF-8,
/// returning the string it encodes.
#[verifier::external_body]
pub(crate) fn utf8_exact(data: Vec<u8>) -> (r: Result<String, crate::merkle::VcError>)
    ensures
        match r {
            Ok(s) => vstd::utf8::valid_utf8(data@) && vstd::utf8::encode_utf8(s@) == data@,
            Err(e) => e == crate::merkle::VcError::ParseError && !vstd::utf8::valid_utf8(data@),
        },
{
    match String::from_utf8(data) {
        Ok(s) => Ok(s),
        Err(_) => Err(crate::merkle::VcError::ParseError),
    }
}

/// Byte-for-byte equality of two buffers.
pub fn bytes_eq(a: &[u8], b: &[u8]) -> (r: bool)
    ensures
        r == (a@ == b@),
{
    if a.len() != b.len() {
        return false;
    }
    for i in 0..a.len()
        invariant
            a@.len() == b@.len(),
            forall|j: int| 0 <= j < i ==> a@[j] == b@[j],
    {
        if a[i] != b[i] {
            return false;
        }
    }
    proof {
        assert(a@ =~= b@);
    }
    true
}

/// The position of the first line feed in `data`, or its length.
pub open spec fn find_line_feed(data: Seq<u8>) -> int
    decreases data.len(),
{
    if data.len() == 0 {
        0
    } else if data.first() == 10 {
        0
    } else {
        1 + find_line_feed(data.drop_first())
    }
}

pub proof fn lemma_find_line_feed(data: Seq<u8>)
    ensures
        0 <= find_line_feed(data) <= data.len(),
        forall|j: int| 0 <= j < find_line_feed(data) ==> data[j] != 10,
        find_line_feed(data) < data.len() ==> data[find_line_feed(data)] == 10,
    decreases data.len(),
{
    if data.len() != 0 && data.first() != 10 {
        lemma_find_line_feed(data.drop_first());
        let f = find_line_feed(data);
        assert forall|j: int| 0 <= j < f implies data[j] != 10 by {
            if j > 0 {
                assert(data.drop_first()[j - 1] != 10);
            }
        }
        if f < data.len() {
            assert(data.drop_first()[f - 1] == 10);
        }
    }
}

/// A line with one trailing carriage return removed.
pub open spec fn strip_cr(line: Seq<u8>) -> Seq<u8> {
    if line.len() > 0 && line.last() == 13 {
        line.drop_last()
    } else {
        line
    }
}

/// The lines of a byte payload, separated by line feeds, each stripped of
/// one trailing carriage return; a final line feed ends the last line
/// rather than opening an empty one.
pub open spec fn split_lines_spec(data: Seq<u8>) -> Seq<Seq<u8>>
    decreases data.len(),
{
    if data.len() == 0 {
        Seq::empty()
    } else {
        let i = find_line_feed(data);
        if 0 <= i && i < data.len() {
            seq![strip_cr(data.take(i))] + split_lines_spec(data.skip(i + 1))
        } else {
            seq![strip_cr(data)]
        }
    }
}

/// Splits a payload into lines as [`split_lines_spec`] describes.
pub fn split_lines(data: &[u8]) -> (r: Vec<Vec<u8>>)
    ensures
        r.deep_view() == split_lines_spec(data@),
{
    let mut out: Vec<Vec<u8>> = Vec::new();
    let mut start: usize = 0;
    let len = data.len();
    proof {
        assert(data@.skip(0) =~= data@);
    }
    while start < len
        invariant
            start <= len,
            len == data@.len(),
            out.deep_view() + split_lines_spec(data@.skip(start as int)) =~= split_lines_spec(
                data@,
            ),
        decreases len - start,
    {
        let ghost rest = data@.skip(start as int);
        // find the next line feed
        let mut end: usize = start;
        while end < len && data[end] != 10
            invariant
                start <= end <= len,
                len == data@.len(),
                forall|j: int| start <= j < end ==> data@[j] != 10,
            decreases len - end,
        {
            end = end + 1;
        }
        proof {
            lemma_find_line_feed(rest);
            assert forall|j: int| 0 <= j < end - start implies rest[j] != 10 by {
                assert(rest[j] == data@[start + j]);
            }
            if end < len {
                assert(rest[end - start] == data@[end as int]);
            }
            assert(find_line_feed(rest) == end - start) by {
                let f = find_line_feed(rest);
                if f < end - start {
                    assert(rest[f] == 10);
                    assert(data@[start + f] != 10);
                } else if f > end - start {
                    assert(end < len);
                }
            }
        }
        // copy the line, without a trailing carriage return
        let mut stop = end;
        if stop > start && data[stop - 1] == 13 {
            stop = stop - 1;
        }
        let mut line: Vec<u8> = Vec::new();
        let mut k = start;
        while k < stop
            invariant
                start <= k <= stop,
                stop <= len,
                len == data@.len(),
                line@ =~= data@.subrange(start as int, k as int),
            decreases stop - k,
        {
            line.push(data[k]);
            proof {
                assert(line@ =~= data@.subrange(start as int, k + 1));
            }
            k = k + 1;
        }
        proof {
            let i = end - start;
            if end < len {
                assert(strip_cr(rest.take(i)) =~= line@) by {
                    assert(rest.take(i) =~= data@.subrange(start as int, end as int));
                    if end > start && data@[end - 1] == 13 {
                        assert(rest.take(i).last() == 13);
                        assert(rest.take(i).drop_last() =~= data@.subrange(
                            start as int,
                            stop as int,
                        ));
                    } else {
                        if rest.take(i).len() > 0 && rest.take(i).last() == 13 {
                            assert(data@[end - 1] == 13);
                        }
                    }
                }
                assert(rest.skip(i + 1) =~= data@.skip(end + 1));
            } else {
                assert(strip_cr(rest) =~= line@) by {
                    assert(rest =~= data@.subrange(start as int, end as int));
                    if end > start && data@[end - 1] == 13 {
                        assert(rest.last() == 13);
                        assert(rest.drop_last() =~= data@.subrange(start as int, stop as int));
                    } else {
                        if rest.len() > 0 && rest.last() == 13 {
                            assert(data@[end - 1] == 13);
                        }
                    }
                }
            }
        }
        let ghost old_out = out.deep_view();
        out.push(line);
        proof {
            assert(out.deep_view() =~~= old_out.push(line@));
        }
        if end < len {
            start = end + 1;
            proof {
                assert(out.deep_view() + split_lines_spec(data@.skip(start as int))
                    =~= split_lines_spec(data@));
            }
        } else {
            start = len;
            proof {
                assert(split_lines_spec(data@.skip(len as int)) =~= Seq::<Seq<u8>>::empty());
                assert(out.deep_view() + split_lines_spec(data@.skip(len as int))
                    =~= split_lines_spec(data@));
            }
        }
    }
    proof {
        assert(data@.skip(len as int) =~= Seq::<u8>::empty());
        assert(split_lines_spec(data@.skip(start as int)) =~= Seq::<Seq<u8>>::empty());
        assert(out.deep_view() =~= split_lines_spec(data@));
    }
    out
}

} // verus!
