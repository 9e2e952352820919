//! Splitting text into lines, as `str::lines` does: a line ends at `\n`,
//! a `\r` just before that `\n` is dropped, and a final line need not end
//! with `\n`.
use vstd::prelude::*;
use vstd::string::StringSliceAdditionalSpecFns;
use vstd::utf8::*;

verus! {

broadcast use vstd::utf8::group_utf8_lib;

/// The line feed byte.
pub open spec fn is_line_feed(b: u8) -> bool {
    b == 10u8
}

/// The index of the first line feed in `bytes` at or after `from`, or the
/// length of `bytes` when there is none.
pub open spec fn next_line_feed(bytes: Seq<u8>, from: int) -> int
    decreases bytes.len() - from,
{
    if from >= bytes.len() {
        bytes.len() as int
    } else if is_line_feed(bytes[from]) {
        from
    } else {
        next_line_feed(bytes, from + 1)
    }
}

/// A line without its trailing carriage return, if it has one.
pub open spec fn strip_carriage_return(line: Seq<u8>) -> Seq<u8> {
    if line.len() > 0 && line.last() == 13u8 {
        line.drop_last()
    } else {
        line
    }
}

pub proof fn lemma_next_line_feed_bounds(bytes: Seq<u8>, from: int)
    requires
        0 <= from,
    ensures
        from <= next_line_feed(bytes, from) <= bytes.len() || (from > bytes.len()
            && next_line_feed(bytes, from) == bytes.len()),
        next_line_feed(bytes, from) < bytes.len() ==> is_line_feed(
            bytes[next_line_feed(bytes, from)],
        ),
        forall|k: int| from <= k < next_line_feed(bytes, from) ==> !is_line_feed(#[trigger] bytes[k]),
    decreases bytes.len() - from,
{
    if from < bytes.len() && !is_line_feed(bytes[from]) {
        lemma_next_line_feed_bounds(bytes, from + 1);
    }
}

/// The lines of `bytes` that start at or after offset `start`, where
/// `start` is the beginning of a line.
pub open spec fn lines_from(bytes: Seq<u8>, start: int) -> Seq<Seq<u8>>
    decreases bytes.len() - start,
{
    if start < 0 || start >= bytes.len() {
        seq![]
    } else {
        let end = next_line_feed(bytes, start);
        proof {
            lemma_next_line_feed_bounds(bytes, start);
        }
        if end >= bytes.len() {
            seq![bytes.subrange(start, bytes.len() as int)]
        } else {
            seq![strip_carriage_return(bytes.subrange(start, end))] + lines_from(bytes, end + 1)
        }
    }
}

/// The lines of a UTF-8 text, each given by its bytes, without line endings.
pub open spec fn lines_of(bytes: Seq<u8>) -> Seq<Seq<u8>> {
    lines_from(bytes, 0)
}

proof fn lemma_lines_from_have_no_line_feed(bytes: Seq<u8>, start: int)
    requires
        0 <= start,
    ensures
        forall|k: int, i: int|
            0 <= k < lines_from(bytes, start).len() && 0 <= i < lines_from(bytes, start)[k].len()
                ==> !is_line_feed(#[trigger] lines_from(bytes, start)[k][i]),
    decreases bytes.len() - start,
{
    if start < bytes.len() {
        let end = next_line_feed(bytes, start);
        lemma_next_line_feed_bounds(bytes, start);
        let lines = lines_from(bytes, start);
        if end < bytes.len() {
            lemma_lines_from_have_no_line_feed(bytes, end + 1);
            let rest = lines_from(bytes, end + 1);
            assert forall|k: int, i: int|
                0 <= k < lines.len() && 0 <= i < lines[k].len() implies !is_line_feed(
                #[trigger] lines[k][i],
            ) by {
                if k == 0 {
                    assert(lines[0][i] == bytes[start + i]);
                } else {
                    assert(lines[k] == rest[k - 1]);
                }
            }
        } else {
            assert forall|k: int, i: int|
                0 <= k < lines.len() && 0 <= i < lines[k].len() implies !is_line_feed(
                #[trigger] lines[k][i],
            ) by {
                assert(lines[0][i] == bytes[start + i]);
            }
        }
    }
}

/// The text made by putting each line after another, each followed by its
/// terminator.
pub open spec fn join_lines(lines: Seq<Seq<u8>>, terminators: Seq<Seq<u8>>) -> Seq<u8>
    decreases lines.len(),
{
    if lines.len() == 0 {
        seq![]
    } else {
        lines[0] + terminators[0] + join_lines(lines.drop_first(), terminators.drop_first())
    }
}

/// A line terminator: `\n` or `\r\n`.
pub open spec fn is_line_terminator(terminator: Seq<u8>) -> bool {
    terminator == seq![10u8] || terminator == seq![13u8, 10u8]
}

/// The terminators of the lines from `start` on, as `lines_from` splits them.
spec fn terminators_from(bytes: Seq<u8>, start: int) -> Seq<Seq<u8>>
    decreases bytes.len() - start,
{
    if start < 0 || start >= bytes.len() {
        seq![]
    } else {
        let end = next_line_feed(bytes, start);
        proof {
            lemma_next_line_feed_bounds(bytes, start);
        }
        if end >= bytes.len() {
            seq![seq![]]
        } else {
            let terminator = if end > start && bytes[end - 1] == 13u8 {
                seq![13u8, 10u8]
            } else {
                seq![10u8]
            };
            seq![terminator] + terminators_from(bytes, end + 1)
        }
    }
}

proof fn lemma_lines_from_rebuild(bytes: Seq<u8>, start: int)
    requires
        0 <= start <= bytes.len(),
    ensures
        ({
            let lines = lines_from(bytes, start);
            let terms = terminators_from(bytes, start);
            &&& terms.len() == lines.len()
            &&& join_lines(lines, terms) == bytes.subrange(start, bytes.len() as int)
            &&& forall|k: int|
                0 <= k < terms.len() ==> is_line_terminator(#[trigger] terms[k]) || (k
                    == terms.len() - 1 && terms[k].len() == 0 && lines[k].len() > 0)
            &&& forall|k: int|
                0 <= k < terms.len() && #[trigger] terms[k] == seq![10u8] ==> lines[k].len() == 0
                    || lines[k].last() != 13u8
        }),
    decreases bytes.len() - start,
{
    let lines = lines_from(bytes, start);
    let terms = terminators_from(bytes, start);
    if start >= bytes.len() {
        assert(bytes.subrange(start, bytes.len() as int) =~= Seq::<u8>::empty());
    } else {
        let end = next_line_feed(bytes, start);
        lemma_next_line_feed_bounds(bytes, start);
        if end >= bytes.len() {
            assert(join_lines(lines, terms) =~= bytes.subrange(start, bytes.len() as int)) by {
                assert(lines.drop_first() =~= Seq::<Seq<u8>>::empty());
                assert(join_lines(lines.drop_first(), terms.drop_first()) =~= Seq::<u8>::empty());
                assert(terms[0] =~= Seq::<u8>::empty());
                assert(lines[0] =~= bytes.subrange(start, bytes.len() as int));
            }
        } else {
            lemma_lines_from_rebuild(bytes, end + 1);
            let rest_lines = lines_from(bytes, end + 1);
            let rest_terms = terminators_from(bytes, end + 1);
            assert(lines.drop_first() =~= rest_lines);
            assert(terms.drop_first() =~= rest_terms);
            assert(lines[0] + terms[0] =~= bytes.subrange(start, end + 1));
            assert(join_lines(lines, terms) =~= bytes.subrange(start, bytes.len() as int));
            assert forall|k: int|
                0 <= k < terms.len() implies is_line_terminator(#[trigger] terms[k]) || (k
                == terms.len() - 1 && terms[k].len() == 0 && lines[k].len() > 0) by {
                if k > 0 {
                    assert(terms[k] == rest_terms[k - 1]);
                    assert(lines[k] == rest_lines[k - 1]);
                }
            }
            assert forall|k: int|
                0 <= k < terms.len() && #[trigger] terms[k] == seq![10u8] implies lines[k].len()
                == 0 || lines[k].last() != 13u8 by {
                if k > 0 {
                    assert(terms[k] == rest_terms[k - 1]);
                    assert(lines[k] == rest_lines[k - 1]);
                } else if end > start && bytes[end - 1] == 13u8 {
                    assert(terms[0] =~= seq![13u8, 10u8]);
                    assert(terms[0] != seq![10u8]);
                }
            }
        }
    }
}

/// Splitting removes nothing but the line terminators: the text is its
/// lines put back together, each followed by `\n` or `\r\n` (the last one
/// possibly by nothing, when it is not empty), and a `\r` right before a
/// `\n` always belongs to the terminator.
pub proof fn lemma_lines_rebuild_text(bytes: Seq<u8>)
    ensures
        exists|terms: Seq<Seq<u8>>|
            {
                &&& terms.len() == lines_of(bytes).len()
                &&& join_lines(lines_of(bytes), terms) == bytes
                &&& forall|k: int|
                    0 <= k < terms.len() ==> is_line_terminator(#[trigger] terms[k]) || (k
                        == terms.len() - 1 && terms[k].len() == 0 && lines_of(bytes)[k].len() > 0)
                &&& forall|k: int|
                    0 <= k < terms.len() && #[trigger] terms[k] == seq![10u8] ==> lines_of(
                        bytes,
                    )[k].len() == 0 || lines_of(bytes)[k].last() != 13u8
            },
{
    lemma_lines_from_rebuild(bytes, 0);
    assert(bytes.subrange(0, bytes.len() as int) =~= bytes);
    let terms = terminators_from(bytes, 0);
    assert(terms.len() == lines_of(bytes).len());
}

/// No line holds a line feed.
pub proof fn lemma_lines_have_no_line_feed(bytes: Seq<u8>)
    ensures
        forall|k: int, i: int|
            0 <= k < lines_of(bytes).len() && 0 <= i < lines_of(bytes)[k].len() ==> !is_line_feed(
                #[trigger] lines_of(bytes)[k][i],
            ),
{
    lemma_lines_from_have_no_line_feed(bytes, 0);
}


/// In valid UTF-8, the byte after a one-byte character starts a character.
pub proof fn lemma_boundary_after_ascii(bytes: Seq<u8>, i: int)
    requires
        valid_utf8(bytes),
        0 <= i < bytes.len(),
        is_char_boundary(bytes, i),
        bytes[i] <= 0x7f,
    ensures
        is_char_boundary(bytes, i + 1),
    decreases bytes.len(),
{
    reveal_with_fuel(is_char_boundary, 2);
    let first = length_of_first_scalar(bytes);
    let tail = pop_first_scalar(bytes);
    assert(valid_first_scalar(bytes) && valid_utf8(tail));
    if i == 0 {
        assert(first == 1);
    } else {
        assert(is_char_boundary(tail, i - first));
        assert(tail[i - first] == bytes[i]);
        lemma_boundary_after_ascii(tail, i - first);
    }
}

/// A character boundary of `bytes` at or after `start` is one of the bytes
/// from `start` on, when `start` is itself a boundary.
pub proof fn lemma_boundary_in_suffix(bytes: Seq<u8>, start: int, index: int)
    requires
        valid_utf8(bytes),
        0 <= start <= index <= bytes.len(),
        is_char_boundary(bytes, start),
        is_char_boundary(bytes, index),
    ensures
        valid_utf8(bytes.subrange(start, bytes.len() as int)),
        is_char_boundary(bytes.subrange(start, bytes.len() as int), index - start),
{
    let rest = bytes.subrange(start, bytes.len() as int);
    valid_utf8_split(bytes, start);
    if index < bytes.len() {
        is_char_boundary_iff_not_is_continuation_byte(bytes, index);
        assert(rest[index - start] == bytes[index]);
        is_char_boundary_iff_not_is_continuation_byte(rest, index - start);
    } else {
        is_char_boundary_start_end_of_seq(rest);
    }
}

/// The part of `s` between two character boundaries, given as byte offsets.
pub fn slice_between(s: &str, start: usize, end: usize) -> (part: &str)
    requires
        start <= end <= s.spec_bytes().len(),
        is_char_boundary(s.spec_bytes(), start as int),
        is_char_boundary(s.spec_bytes(), end as int),
    ensures
        part.spec_bytes() == s.spec_bytes().subrange(start as int, end as int),
{
    let ghost bytes = s.spec_bytes();
    let (_, rest) = s.split_at(start);
    proof {
        lemma_boundary_in_suffix(bytes, start as int, end as int);
    }
    let (part, _) = rest.split_at(end - start);
    assert(part.spec_bytes() =~= bytes.subrange(start as int, end as int));
    part
}


/// Splits `content` into its lines, as `str::lines` does.
pub fn split_lines(content: &str) -> (lines: Vec<&str>)
    ensures
        lines@.len() == lines_of(content.spec_bytes()).len(),
        forall|k: int|
            0 <= k < lines@.len() ==> #[trigger] lines@[k].spec_bytes() == lines_of(
                content.spec_bytes(),
            )[k],
        lines@.len() <= content.spec_bytes().len() <= usize::MAX,
        forall|k: int|
            0 <= k < lines@.len() ==> (#[trigger] lines@[k]).spec_bytes().len()
                <= content.spec_bytes().len(),
{
    let bytes = content.as_bytes();
    let n = bytes.len();
    let ghost b = content.spec_bytes();
    let mut lines: Vec<&str> = Vec::new();
    let mut start: usize = 0;
    let mut i: usize = 0;
    let ghost mut done: Seq<Seq<u8>> = seq![];
    proof {
        is_char_boundary_start_end_of_seq(b);
    }
    while i < n
        invariant
            bytes@ == b,
            b == content.spec_bytes(),
            n == b.len(),
            valid_utf8(b),
            start <= i <= n,
            is_char_boundary(b, start as int),
            next_line_feed(b, start as int) == next_line_feed(b, i as int),
            done + lines_from(b, start as int) == lines_of(b),
            lines@.len() == done.len(),
            forall|k: int| 0 <= k < done.len() ==> #[trigger] lines@[k].spec_bytes() == done[k],
            forall|k: int| 0 <= k < done.len() ==> (#[trigger] done[k]).len() <= n,
            done.len() <= start,
        decreases n - i,
    {
        if bytes[i] == 10 {
            let end = if i > start && bytes[i - 1] == 13 {
                i - 1
            } else {
                i
            };
            proof {
                is_char_boundary_iff_not_is_continuation_byte(b, i as int);
                is_char_boundary_iff_not_is_continuation_byte(b, end as int);
                lemma_boundary_after_ascii(b, i as int);
                assert(next_line_feed(b, i as int) == i);
                assert(strip_carriage_return(b.subrange(start as int, i as int)) =~= b.subrange(
                    start as int,
                    end as int,
                ));
            }
            let line = slice_between(content, start, end);
            let ghost old_lines = lines@;
            lines.push(line);
            proof {
                assert(lines_from(b, start as int) == seq![b.subrange(start as int, end as int)]
                    + lines_from(b, i + 1));
                done = done.push(b.subrange(start as int, end as int));
                assert(done + lines_from(b, i + 1) =~= lines_of(b));
                assert forall|k: int| 0 <= k < done.len() implies #[trigger] lines@[k].spec_bytes()
                    == done[k] by {
                    if k < old_lines.len() {
                        assert(lines@[k] == old_lines[k]);
                    }
                }
            }
            start = i + 1;
        }
        i += 1;
    }
    if start < n {
        let line = slice_between(content, start, n);
        lines.push(line);
        proof {
            assert(next_line_feed(b, n as int) == n);
            assert(lines_from(b, start as int) == seq![b.subrange(start as int, n as int)]);
            done = done.push(b.subrange(start as int, n as int));
            assert(done =~= lines_of(b));
        }
    } else {
        assert(done =~= lines_of(b));
    }
    lines
}

} // verus!
