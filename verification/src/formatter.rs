//! What is printed for each line of a search: the file name and the line
//! number when asked for, then the line, with the matched part set apart.
use vstd::prelude::*;
use vstd::string::StringSliceAdditionalSpecFns;
use vstd::utf8::*;

use crate::search::lines::{lemma_boundary_in_suffix, slice_between};
use crate::search::utils::{has_valid_bounds, SearchLine};
use crate::search::SearchResult;

verus! {

broadcast use vstd::utf8::group_utf8_lib;

/// The text of a printed line.
#[derive(Debug, PartialEq)]
pub enum LineBody {
    /// A context line, printed as it is.
    Plain(String),
    /// A selected line, with the matched part to be highlighted.
    Highlighted { before: String, matched: String, after: String },
}

/// A printed line: the file name and line number shown in front of it,
/// when they are shown, and its text.
#[derive(Debug, PartialEq)]
pub struct DisplayLine {
    pub file_name: Option<String>,
    pub line_number: Option<usize>,
    pub body: LineBody,
}

/// `shown` is how `line` of the file `file_name` is printed.
pub open spec fn is_display_of(
    shown: DisplayLine,
    line: SearchLine,
    file_name: Seq<char>,
    show_file: bool,
    show_number: bool,
) -> bool {
    &&& (shown.file_name is Some) == show_file
    &&& shown.file_name matches Some(name) ==> name@ == file_name
    &&& shown.line_number == (if show_number {
        Some(line.line_number_of())
    } else {
        None
    })
    &&& match line {
        SearchLine::ContextLine { content, .. } => shown.body matches LineBody::Plain(text)
            && text@ == content@,
        SearchLine::Match { content, start, end, .. } => {
            let bytes = encode_utf8(content@);
            &&& shown.body matches LineBody::Highlighted { before, matched, after }
            &&& encode_utf8(before@) == bytes.subrange(0, start as int)
            &&& encode_utf8(matched@) == bytes.subrange(start as int, end as int)
            &&& encode_utf8(after@) == bytes.subrange(end as int, bytes.len() as int)
            &&& before@ + matched@ + after@ == content@
        },
    }
}

/// Lays out one line of a search's output.
pub fn display_line(line: &SearchLine, file_name: &str, show_file: bool, show_number: bool) -> (shown:
    DisplayLine)
    requires
        has_valid_bounds(*line),
    ensures
        is_display_of(shown, *line, file_name@, show_file, show_number),
{
    let shown_name = if show_file {
        Some(file_name.to_owned())
    } else {
        None
    };
    let shown_number = if show_number {
        Some(line.get_line_number())
    } else {
        None
    };
    let body = match line {
        SearchLine::ContextLine { content, .. } => LineBody::Plain(content.clone()),
        SearchLine::Match { content, start, end, .. } => {
            let text = content.as_str();
            let ghost bytes = text.spec_bytes();
            let length = text.as_bytes().len();
            proof {
                is_char_boundary_start_end_of_seq(bytes);
            }
            let before = slice_between(text, 0, *start);
            let matched = slice_between(text, *start, *end);
            let after = slice_between(text, *end, length);
            proof {
                let rest = bytes.subrange(*start as int, bytes.len() as int);
                lemma_boundary_in_suffix(bytes, *start as int, *end as int);
                decode_utf8_split(bytes, *start as int);
                decode_utf8_split(rest, *end - *start);
                assert(bytes.subrange(0, *start as int) == before.spec_bytes());
                assert(rest.subrange(0, *end - *start) =~= matched.spec_bytes());
                assert(rest.subrange(*end - *start, rest.len() as int) =~= after.spec_bytes());
                assert(before@ == decode_utf8(before.spec_bytes()));
                assert(matched@ == decode_utf8(matched.spec_bytes()));
                assert(after@ == decode_utf8(after.spec_bytes()));
                assert(content@ == decode_utf8(bytes));
                assert(before@ + matched@ + after@ =~= content@);
            }
            LineBody::Highlighted {
                before: before.to_owned(),
                matched: matched.to_owned(),
                after: after.to_owned(),
            }
        },
    };
    DisplayLine { file_name: shown_name, line_number: shown_number, body }
}

/// Lays out every line of a search result.
pub fn display_lines(result: &SearchResult, show_file: bool, show_number: bool) -> (shown: Vec<
    DisplayLine,
>)
    requires
        forall|j: int| 0 <= j < result.lines@.len() ==> has_valid_bounds(#[trigger] result.lines@[j]),
    ensures
        shown@.len() == result.lines@.len(),
        forall|j: int|
            0 <= j < shown@.len() ==> is_display_of(
                #[trigger] shown@[j],
                result.lines@[j],
                result.file_name@,
                show_file,
                show_number,
            ),
{
    let mut shown: Vec<DisplayLine> = Vec::new();
    let mut j: usize = 0;
    while j < result.lines.len()
        invariant
            j <= result.lines@.len(),
            shown@.len() == j,
            forall|i: int|
                0 <= i < result.lines@.len() ==> has_valid_bounds(#[trigger] result.lines@[i]),
            forall|i: int|
                0 <= i < j ==> is_display_of(
                    #[trigger] shown@[i],
                    result.lines@[i],
                    result.file_name@,
                    show_file,
                    show_number,
                ),
        decreases result.lines@.len() - j,
    {
        let line = display_line(&result.lines[j], result.file_name.as_str(), show_file, show_number);
        shown.push(line);
        j += 1;
    }
    shown
}


/// A piece of a printed line, by the style it is printed in.
#[derive(Debug, PartialEq)]
pub enum Segment {
    /// The file name.
    FileName(String),
    /// The line number.
    LineNumber(usize),
    /// Text printed as it is.
    Plain(String),
    /// The matched part of a selected line.
    Highlight(String),
}

/// What follows the file name and the line number.
pub open spec fn separator() -> Seq<char> {
    seq![':', ' ']
}

/// `segments` are the pieces of the printed line `shown`, in order: the file
/// name and a separator, the line number and a separator, each when shown,
/// then the line's text with the matched part on its own.
pub open spec fn is_printed_as(segments: Seq<Segment>, shown: DisplayLine) -> bool {
    let name_end: int = if shown.file_name is Some {
        2
    } else {
        0
    };
    let head: int = name_end + if shown.line_number is Some {
        2int
    } else {
        0int
    };
    &&& shown.file_name matches Some(name) ==> {
        &&& segments[0] matches Segment::FileName(text) && text@ == name@
        &&& segments[1] matches Segment::Plain(text) && text@ == separator()
    }
    &&& shown.line_number matches Some(number) ==> {
        &&& segments[name_end] matches Segment::LineNumber(n) && n == number
        &&& segments[name_end + 1] matches Segment::Plain(text) && text@ == separator()
    }
    &&& match shown.body {
        LineBody::Plain(line) => {
            &&& segments.len() == head + 1
            &&& segments[head] matches Segment::Plain(text) && text@ == line@
        },
        LineBody::Highlighted { before, matched, after } => {
            &&& segments.len() == head + 3
            &&& segments[head] matches Segment::Plain(text) && text@ == before@
            &&& segments[head + 1] matches Segment::Highlight(text) && text@ == matched@
            &&& segments[head + 2] matches Segment::Plain(text) && text@ == after@
        },
    }
}

fn separator_text() -> (text: String)
    ensures
        text@ == separator(),
{
    let text = String::from_str(": ");
    proof {
        reveal_strlit(": ");
    }
    text
}

/// Splits a printed line into the pieces that are printed in each style.
pub fn printed_segments(shown: &DisplayLine) -> (segments: Vec<Segment>)
    ensures
        is_printed_as(segments@, *shown),
{
    let mut segments: Vec<Segment> = Vec::new();
    if let Some(name) = &shown.file_name {
        segments.push(Segment::FileName(name.clone()));
        segments.push(Segment::Plain(separator_text()));
    }
    if let Some(number) = shown.line_number {
        segments.push(Segment::LineNumber(number));
        segments.push(Segment::Plain(separator_text()));
    }
    match &shown.body {
        LineBody::Plain(line) => {
            segments.push(Segment::Plain(line.clone()));
        },
        LineBody::Highlighted { before, matched, after } => {
            segments.push(Segment::Plain(before.clone()));
            segments.push(Segment::Highlight(matched.clone()));
            segments.push(Segment::Plain(after.clone()));
        },
    }
    segments
}

} // verus!
