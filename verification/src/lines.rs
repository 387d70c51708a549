//! Splitting a byte stream into text lines.
//!
//! A buffered line reader walks the stream once: a line feed ends the
//! current line, a carriage return directly before that line feed is
//! dropped with it, and input that ends without a terminator still yields
//! its last line — but a terminated last line yields no trailing empty
//! entry. [`spec_lines`] states that behaviour over mathematical sequences;
//! [`split_lines`] and [`lines_text`] are proved against it.

use vstd::prelude::*;
use vstd::utf8::decode_utf8;
use vstd::utf8::valid_utf8;

use crate::text::decode_text;
use crate::text::InvalidData;

verus! {

/// One trailing carriage return is dropped from a line that a line feed
/// ended, so that both `\n` and `\r\n` delimit lines.
pub open spec fn chomp_cr(line: Seq<u8>) -> Seq<u8> {
    if line.len() > 0 && line.last() == 13u8 {
        line.drop_last()
    } else {
        line
    }
}

/// The lines still to come when `rest` is the unread part of the stream and
/// `cur` holds the bytes of the current line read so far. A line feed ends
/// the current line; input that runs out without one still yields the
/// current line, except that an empty current line at the end of input is
/// no line at all.
pub open spec fn split_rest(rest: Seq<u8>, cur: Seq<u8>) -> Seq<Seq<u8>>
    decreases rest.len(),
{
    if rest.len() == 0 {
        if cur.len() == 0 {
            seq![]
        } else {
            seq![cur]
        }
    } else if rest[0] == 10u8 {
        seq![chomp_cr(cur)] + split_rest(rest.drop_first(), seq![])
    } else {
        split_rest(rest.drop_first(), cur.push(rest[0]))
    }
}

/// The lines of a byte stream, in stream order: the stream is split at each
/// line feed, every line loses its terminator (`\n` or `\r\n`), and a final
/// line feed produces no trailing empty line.
pub open spec fn spec_lines(bytes: Seq<u8>) -> Seq<Seq<u8>> {
    split_rest(bytes, seq![])
}

/// Split a byte buffer into its lines, as raw byte segments: exactly
/// [`spec_lines`] of the buffer.
pub fn split_lines(bytes: &[u8]) -> (r: Vec<Vec<u8>>)
    ensures
        r.deep_view() == spec_lines(bytes@),
{
    let mut r: Vec<Vec<u8>> = Vec::new();
    let mut cur: Vec<u8> = Vec::new();
    let mut i: usize = 0;
    proof {
        assert(bytes@.subrange(0, bytes@.len() as int) =~= bytes@);
        assert(r.deep_view() + split_rest(bytes@, cur@) =~= spec_lines(bytes@));
    }
    while i < bytes.len()
        invariant
            i <= bytes@.len(),
            spec_lines(bytes@) == r.deep_view() + split_rest(
                bytes@.subrange(i as int, bytes@.len() as int),
                cur@,
            ),
        decreases bytes@.len() - i,
    {
        let ghost prev_rest = bytes@.subrange(i as int, bytes@.len() as int);
        let ghost prev_cur = cur@;
        let ghost prev_r = r.deep_view();
        let b = bytes[i];
        proof {
            assert(prev_rest[0] == b);
            assert(prev_rest.drop_first() =~= bytes@.subrange(i + 1, bytes@.len() as int));
        }
        if b == 10 {
            if cur.len() > 0 && cur[cur.len() - 1] == 13 {
                cur.pop();
            }
            proof {
                assert(cur@ =~= chomp_cr(prev_cur));
            }
            r.push(cur);
            cur = Vec::new();
            proof {
                assert(r.deep_view() =~~= prev_r.push(chomp_cr(prev_cur)));
                assert(prev_r + split_rest(prev_rest, prev_cur) =~= r.deep_view() + split_rest(
                    prev_rest.drop_first(),
                    seq![],
                ));
            }
        } else {
            cur.push(b);
        }
        i = i + 1;
    }
    proof {
        assert(bytes@.subrange(i as int, bytes@.len() as int) =~= Seq::<u8>::empty());
    }
    let ghost prev_r = r.deep_view();
    let ghost prev_cur = cur@;
    if cur.len() > 0 {
        r.push(cur);
        proof {
            assert(r.deep_view() =~~= prev_r.push(prev_cur));
            assert(prev_r + split_rest(Seq::<u8>::empty(), prev_cur) =~= r.deep_view());
        }
    } else {
        proof {
            assert(prev_r + split_rest(Seq::<u8>::empty(), prev_cur) =~= r.deep_view());
        }
    }
    r
}

proof fn lemma_split_rest_nonempty(rest: Seq<u8>, cur: Seq<u8>)
    requires
        rest.len() > 0 || cur.len() > 0,
    ensures
        split_rest(rest, cur).len() > 0,
    decreases rest.len(),
{
    if rest.len() > 0 && rest[0] != 10u8 {
        lemma_split_rest_nonempty(rest.drop_first(), cur.push(rest[0]));
    }
}

proof fn lemma_split_rest_trailing_newline(s: Seq<u8>, cur: Seq<u8>)
    requires
        s.len() > 0,
        s.last() != 10u8,
    ensures
        split_rest(s, cur).len() > 0,
        split_rest(s.push(10u8), cur) == split_rest(s, cur).update(
            split_rest(s, cur).len() - 1,
            chomp_cr(split_rest(s, cur).last()),
        ),
    decreases s.len(),
{
    lemma_split_rest_nonempty(s, cur);
    let t = s.push(10u8);
    let b = s[0];
    if s.len() == 1 {
        assert(s.drop_first() =~= Seq::<u8>::empty());
        assert(t.drop_first() =~= seq![10u8]);
        assert(seq![10u8].drop_first() =~= Seq::<u8>::empty());
        assert(t[0] == b);
        assert(split_rest(s, cur) == split_rest(Seq::<u8>::empty(), cur.push(b)));
        assert(split_rest(Seq::<u8>::empty(), cur.push(b)) =~= seq![cur.push(b)]);
        assert(split_rest(t, cur) == split_rest(seq![10u8], cur.push(b)));
        assert(split_rest(seq![10u8], cur.push(b)) == seq![chomp_cr(cur.push(b))] + split_rest(
            Seq::<u8>::empty(),
            seq![],
        ));
        assert(split_rest(Seq::<u8>::empty(), seq![]) =~= Seq::<Seq<u8>>::empty());
        assert(split_rest(t, cur) =~= seq![chomp_cr(cur.push(b))]);
        assert(split_rest(t, cur) =~= split_rest(s, cur).update(
            0,
            chomp_cr(split_rest(s, cur).last()),
        ));
    } else if b == 10u8 {
        assert(t.drop_first() =~= s.drop_first().push(10u8));
        assert(s.drop_first().last() == s.last());
        lemma_split_rest_trailing_newline(s.drop_first(), seq![]);
        let u = split_rest(s.drop_first(), seq![]);
        let x = chomp_cr(cur);
        assert(split_rest(s, cur) == seq![x] + u);
        assert(split_rest(t, cur) == seq![x] + u.update(u.len() - 1, chomp_cr(u.last())));
        assert((seq![x] + u).last() == u.last());
        assert(seq![x] + u.update(u.len() - 1, chomp_cr(u.last())) =~= (seq![x] + u).update(
            (seq![x] + u).len() - 1,
            chomp_cr((seq![x] + u).last()),
        ));
    } else {
        assert(t.drop_first() =~= s.drop_first().push(10u8));
        assert(s.drop_first().last() == s.last());
        lemma_split_rest_trailing_newline(s.drop_first(), cur.push(b));
    }
}

/// Law: a byte stream that does not already end in a line feed yields
/// exactly as many lines after one is appended — a final terminator makes
/// no trailing empty entry. Only the last line changes at all, and only by
/// losing a trailing carriage return, as every terminated line does.
pub proof fn lemma_trailing_newline(bytes: Seq<u8>)
    requires
        bytes.len() > 0,
        bytes.last() != 10u8,
    ensures
        spec_lines(bytes).len() > 0,
        spec_lines(bytes.push(10u8)) == spec_lines(bytes).update(
            spec_lines(bytes).len() - 1,
            chomp_cr(spec_lines(bytes).last()),
        ),
        spec_lines(bytes.push(10u8)).len() == spec_lines(bytes).len(),
{
    lemma_split_rest_trailing_newline(bytes, seq![]);
}

/// Decode the lines of a byte buffer as UTF-8 text, in order. Succeeds
/// exactly when every line is valid UTF-8; a single malformed line turns
/// the whole result into an invalid-data error rather than a crash.
pub fn lines_text(bytes: &[u8]) -> (r: Result<Vec<String>, InvalidData>)
    ensures
        r is Ok <==> (forall|j: int|
            0 <= j < spec_lines(bytes@).len() ==> valid_utf8(#[trigger] spec_lines(bytes@)[j])),
        r matches Ok(lines) ==> lines.deep_view() == spec_lines(bytes@).map_values(
            |line: Seq<u8>| decode_utf8(line),
        ),
{
    let segments = split_lines(bytes);
    let mut lines: Vec<String> = Vec::new();
    let mut i: usize = 0;
    while i < segments.len()
        invariant
            i <= segments@.len(),
            segments.deep_view() == spec_lines(bytes@),
            lines@.len() == i,
            forall|j: int| 0 <= j < i ==> valid_utf8(#[trigger] spec_lines(bytes@)[j]),
            forall|j: int|
                0 <= j < i ==> lines.deep_view()[j] == decode_utf8(
                    #[trigger] spec_lines(bytes@)[j],
                ),
        decreases segments@.len() - i,
    {
        proof {
            assert(segments.deep_view()[i as int] == segments@[i as int]@);
        }
        match decode_text(segments[i].as_slice()) {
            Ok(text) => {
                lines.push(text);
            },
            Err(e) => {
                proof {
                    assert(!valid_utf8(spec_lines(bytes@)[i as int]));
                }
                return Err(e);
            },
        }
        i = i + 1;
    }
    proof {
        assert(lines.deep_view() =~= spec_lines(bytes@).map_values(
            |line: Seq<u8>| decode_utf8(line),
        ));
    }
    Ok(lines)
}

} // verus!
