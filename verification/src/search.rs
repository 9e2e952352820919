//! Searching a file's text, and deciding which paths to search.
pub mod lines;
pub mod regex;
pub mod utils;

pub use self::regex::compile_regex;
pub use self::utils::SearchLine;

use self::regex::CompiledRegex;
use self::utils::{
    has_valid_bounds, is_search_output, line_matches, line_texts, search_content_checked,
    window_ends_fit,
};
use vstd::prelude::*;
use vstd::string::StringSliceAdditionalSpecFns;

verus! {

/// The lines found in one file.
#[derive(Debug, PartialEq)]
pub struct SearchResult {
    pub file_name: String,
    pub lines: Vec<SearchLine>,
}

/// The number of context lines on one side of a selected line: the larger
/// of the count given for that side and the count given for both sides,
/// an absent count being 0.
pub open spec fn context_width_of(side: Option<usize>, both: Option<usize>) -> usize {
    let side_count = match side {
        Some(n) => n,
        None => 0,
    };
    let both_count = match both {
        Some(n) => n,
        None => 0,
    };
    if side_count >= both_count {
        side_count
    } else {
        both_count
    }
}

pub fn context_width(side: Option<usize>, both: Option<usize>) -> (width: usize)
    ensures
        width == context_width_of(side, both),
{
    let side_count = match side {
        Some(n) => n,
        None => 0,
    };
    let both_count = match both {
        Some(n) => n,
        None => 0,
    };
    if side_count >= both_count {
        side_count
    } else {
        both_count
    }
}

/// Searches the text of the file named `file_name`; `context` gives the
/// number of context lines on both sides, `before_context` and
/// `after_context` on one side, and the larger count wins. Gives `None`
/// when a selected line's context window end would overflow a `usize`.
pub fn search_file_content(
    regex: &CompiledRegex,
    file_name: String,
    file_content: &str,
    invert_match: bool,
    before_context: Option<usize>,
    after_context: Option<usize>,
    context: Option<usize>,
) -> (result: Option<SearchResult>)
    ensures
        result is Some <==> window_ends_fit(
            line_matches(regex@, line_texts(file_content.spec_bytes())),
            invert_match,
            context_width_of(after_context, context),
        ),
        result matches Some(found) ==> {
            &&& found.file_name == file_name
            &&& is_search_output(
                found.lines@,
                line_texts(file_content.spec_bytes()),
                line_matches(regex@, line_texts(file_content.spec_bytes())),
                invert_match,
                context_width_of(before_context, context),
                context_width_of(after_context, context),
            )
            &&& forall|j: int|
                0 <= j < found.lines@.len() ==> has_valid_bounds(#[trigger] found.lines@[j])
        },
{
    let after = context_width(after_context, context);
    let before = context_width(before_context, context);
    match search_content_checked(file_content, regex, invert_match, before, after) {
        Some(lines) => Some(SearchResult { file_name, lines }),
        None => None,
    }
}

/// A context count given for both sides is the same as that count given
/// for each side, next to the counts given for one side; and no count is
/// the same as a count of 0 everywhere.
pub proof fn lemma_context_options_equivalent(side: Option<usize>, both: usize)
    ensures
        context_width_of(side, Some(both)) == context_width_of(
            Some(context_width_of(side, Some(both))),
            None,
        ),
        context_width_of(side, Some(both)) == (match side {
            Some(n) => if n >= both {
                n
            } else {
                both
            },
            None => both,
        }),
        context_width_of(None, None) == context_width_of(Some(0), Some(0)),
        context_width_of(None, None) == 0,
{
}

/// What a path given on the command line is.
#[derive(Debug, Clone, Copy, PartialEq, Eq, Structural)]
pub enum PathKind {
    File,
    Directory,
    Other,
}

/// What to do with a path given on the command line.
#[derive(Debug, Clone, Copy, PartialEq, Eq, Structural)]
pub enum PathAction {
    /// Search the file.
    Include,
    /// Search every file under the directory.
    Walk,
    /// Tell the user that the directory is searched only with `-r`.
    ReportDirectory,
    /// Leave the path out.
    Skip,
}

/// Files are searched; directories are walked only when the search is
/// recursive; anything else is left out.
pub fn path_action(kind: PathKind, recursive: bool) -> (action: PathAction)
    ensures
        action == (match kind {
            PathKind::File => PathAction::Include,
            PathKind::Directory => if recursive {
                PathAction::Walk
            } else {
                PathAction::ReportDirectory
            },
            PathKind::Other => PathAction::Skip,
        }),
{
    match kind {
        PathKind::File => PathAction::Include,
        PathKind::Directory => if recursive {
            PathAction::Walk
        } else {
            PathAction::ReportDirectory
        },
        PathKind::Other => PathAction::Skip,
    }
}

} // verus!
