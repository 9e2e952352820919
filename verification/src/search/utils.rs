//! Selecting the lines of a text that a regular expression matches (or,
//! inverted, does not match), together with the context lines around them.
use vstd::prelude::*;
use vstd::string::StringSliceAdditionalSpecFns;
use vstd::utf8::*;

use super::lines::{lines_of, split_lines};
use super::regex::{regex_find, CompiledRegex};

verus! {

broadcast use vstd::utf8::group_utf8_lib;

/// A line of a search's output: either a selected line, with the byte
/// range that is to be highlighted, or a context line shown around one.
#[derive(Debug, PartialEq)]
pub enum SearchLine {
    ContextLine { line_number: usize, content: String },
    Match { line_number: usize, content: String, start: usize, end: usize },
}

impl SearchLine {
    /// The 1-based number of the line in the searched text.
    pub open spec fn line_number_of(self) -> usize {
        match self {
            SearchLine::ContextLine { line_number, .. } => line_number,
            SearchLine::Match { line_number, .. } => line_number,
        }
    }

    pub fn get_line_number(&self) -> (number: usize)
        ensures
            number == self.line_number_of(),
    {
        match self {
            SearchLine::ContextLine { line_number, .. } => *line_number,
            SearchLine::Match { line_number, .. } => *line_number,
        }
    }
}

/// First line shown for a selected line `m`: `before` lines earlier, or the
/// first line of the text.
pub open spec fn window_start(m: usize, before: usize) -> int {
    if m >= before {
        m - before
    } else {
        0
    }
}

/// One past the last line shown for a selected line `m`: `after` lines
/// later, or the end of the text.
pub open spec fn window_end(m: usize, total: usize, after: usize) -> int {
    if m + after + 1 <= total {
        m + after + 1
    } else {
        total as int
    }
}

/// The ranges of lines to show for the selected lines `indices`, taken in
/// order: each line's window joins the last range when it starts inside or
/// right after it, and opens a new range otherwise.
pub open spec fn merged_ranges(indices: Seq<usize>, total: usize, before: usize, after: usize) -> Seq<
    (usize, usize),
>
    decreases indices.len(),
{
    if indices.len() == 0 {
        seq![]
    } else {
        let prev = merged_ranges(indices.drop_last(), total, before, after);
        let m = indices.last();
        let start = window_start(m, before);
        let end = window_end(m, total, after);
        if prev.len() > 0 && start <= prev.last().1 {
            let last = prev.last();
            prev.drop_last().push(
                (
                    last.0,
                    if end > last.1 {
                        end as usize
                    } else {
                        last.1
                    },
                ),
            )
        } else {
            prev.push((start as usize, end as usize))
        }
    }
}

/// Merges the context windows of the selected line indices into ranges
/// `(start, end)` of lines, `end` exclusive. For indices in ascending order
/// and within the text, the ranges are non-empty, ascending with a gap
/// between any two, and hold exactly the lines of the windows.
pub fn calculate_merged_ranges(
    match_indices: &[usize],
    total_lines: usize,
    before: usize,
    after: usize,
) -> (merged: Vec<(usize, usize)>)
    requires
        forall|i: int|
            0 <= i < match_indices@.len() ==> #[trigger] match_indices@[i] + after < usize::MAX,
    ensures
        merged@ == merged_ranges(match_indices@, total_lines, before, after),
        is_ascending(match_indices@) && (forall|t: int|
            0 <= t < match_indices@.len() ==> #[trigger] match_indices@[t] < total_lines) ==> {
            &&& merged@.len() <= match_indices@.len()
            &&& forall|i: int|
                0 <= i < merged@.len() ==> #[trigger] merged@[i].0 < merged@[i].1 <= total_lines
            &&& forall|i: int, j: int|
                0 <= i < j < merged@.len() ==> #[trigger] merged@[i].1 < #[trigger] merged@[j].0
            &&& forall|k: int|
                in_some_range(merged@, k) <==> in_some_window(
                    match_indices@,
                    total_lines,
                    before,
                    after,
                    k,
                )
        },
{
    let mut merged_ranges_so_far: Vec<(usize, usize)> = Vec::new();
    let mut i: usize = 0;
    while i < match_indices.len()
        invariant
            i <= match_indices@.len(),
            forall|j: int|
                0 <= j < match_indices@.len() ==> #[trigger] match_indices@[j] + after < usize::MAX,
            merged_ranges_so_far@ == merged_ranges(
                match_indices@.take(i as int),
                total_lines,
                before,
                after,
            ),
        decreases match_indices@.len() - i,
    {
        let m = match_indices[i];
        let start = m.saturating_sub(before);
        let end = if m + after + 1 <= total_lines {
            m + after + 1
        } else {
            total_lines
        };
        let count = merged_ranges_so_far.len();
        if count > 0 && start <= merged_ranges_so_far[count - 1].1 {
            let last = merged_ranges_so_far[count - 1];
            let new_end = if end > last.1 {
                end
            } else {
                last.1
            };
            merged_ranges_so_far.set(count - 1, (last.0, new_end));
        } else {
            merged_ranges_so_far.push((start, end));
        }
        proof {
            assert(match_indices@.take(i + 1).drop_last() =~= match_indices@.take(i as int));
        }
        i += 1;
        proof {
            assert(merged_ranges_so_far@ =~= merged_ranges(
                match_indices@.take(i as int),
                total_lines,
                before,
                after,
            ));
        }
    }
    assert(match_indices@.take(i as int) =~= match_indices@);
    proof {
        if is_ascending(match_indices@) && (forall|t: int|
            0 <= t < match_indices@.len() ==> #[trigger] match_indices@[t] < total_lines) {
            lemma_merged_ranges_partition(match_indices@, total_lines, before, after);
        }
    }
    merged_ranges_so_far
}


/// The indices are in ascending order.
pub open spec fn is_ascending(indices: Seq<usize>) -> bool {
    forall|i: int, j: int| 0 <= i <= j < indices.len() ==> indices[i] <= indices[j]
}

/// Line `k` lies in one of the ranges.
pub open spec fn in_some_range(ranges: Seq<(usize, usize)>, k: int) -> bool {
    exists|i: int| 0 <= i < ranges.len() && (#[trigger] ranges[i]).0 <= k < ranges[i].1
}

/// Line `k` lies in the context window of one of the selected lines.
pub open spec fn in_some_window(
    indices: Seq<usize>,
    total: usize,
    before: usize,
    after: usize,
    k: int,
) -> bool {
    exists|t: int|
        0 <= t < indices.len() && window_start(#[trigger] indices[t], before) <= k < window_end(
            indices[t],
            total,
            after,
        )
}

proof fn lemma_windows_of_prefix(
    indices: Seq<usize>,
    total: usize,
    before: usize,
    after: usize,
    k: int,
)
    requires
        indices.len() > 0,
    ensures
        in_some_window(indices, total, before, after, k) <==> (in_some_window(
            indices.drop_last(),
            total,
            before,
            after,
            k,
        ) || (window_start(indices.last(), before) <= k < window_end(
            indices.last(),
            total,
            after,
        ))),
{
    let pre = indices.drop_last();
    if in_some_window(indices, total, before, after, k) {
        let t = choose|t: int|
            0 <= t < indices.len() && window_start(#[trigger] indices[t], before) <= k
                < window_end(indices[t], total, after);
        if t < pre.len() {
            assert(pre[t] == indices[t]);
        }
    }
    if in_some_window(pre, total, before, after, k) {
        let t = choose|t: int|
            0 <= t < pre.len() && window_start(#[trigger] pre[t], before) <= k < window_end(
                pre[t],
                total,
                after,
            );
        assert(indices[t] == pre[t]);
    }
    if window_start(indices.last(), before) <= k < window_end(indices.last(), total, after) {
        assert(indices[indices.len() - 1] == indices.last());
    }
}

/// For selected lines in ascending order, the merged ranges are non-empty,
/// in ascending order with a gap between any two of them, and hold exactly
/// the lines that lie in the context window of some selected line.
pub proof fn lemma_merged_ranges_partition(
    indices: Seq<usize>,
    total: usize,
    before: usize,
    after: usize,
)
    requires
        is_ascending(indices),
        forall|t: int| 0 <= t < indices.len() ==> #[trigger] indices[t] < total,
    ensures
        ({
            let ranges = merged_ranges(indices, total, before, after);
            &&& ranges.len() <= indices.len()
            &&& forall|i: int| 0 <= i < ranges.len() ==> #[trigger] ranges[i].0 < ranges[i].1 <= total
            &&& forall|i: int, j: int|
                0 <= i < j < ranges.len() ==> #[trigger] ranges[i].1 < #[trigger] ranges[j].0
            &&& forall|k: int|
                in_some_range(ranges, k) <==> in_some_window(indices, total, before, after, k)
            &&& indices.len() > 0 ==> ranges.len() > 0 && ranges.last().1 == window_end(
                indices.last(),
                total,
                after,
            ) && ranges.last().0 <= window_start(indices.last(), before)
        }),
    decreases indices.len(),
{
    if indices.len() > 0 {
        let pre = indices.drop_last();
        assert forall|t: int| 0 <= t < pre.len() implies #[trigger] pre[t] < total by {
            assert(pre[t] == indices[t]);
        }
        assert(is_ascending(pre)) by {
            assert forall|i: int, j: int| 0 <= i <= j < pre.len() implies pre[i] <= pre[j] by {
                assert(pre[i] == indices[i] && pre[j] == indices[j]);
            }
        }
        lemma_merged_ranges_partition(pre, total, before, after);
        let p = merged_ranges(pre, total, before, after);
        let r = merged_ranges(indices, total, before, after);
        let m = indices.last();
        let s = window_start(m, before);
        let e = window_end(m, total, after);
        assert(indices[indices.len() - 1] == m);
        assert(s <= m < e <= total);
        if pre.len() > 0 {
            assert(indices[pre.len() - 1] == pre.last());
            assert(pre.last() <= m);
            assert(window_end(pre.last(), total, after) <= e);
            assert(window_start(pre.last(), before) <= s);
        }
        if p.len() > 0 && s <= p.last().1 {
            let last = p.last();
            assert(r == p.drop_last().push((last.0, e as usize)));
            assert forall|i: int| 0 <= i < r.len() implies #[trigger] r[i].0 < r[i].1 <= total by {
                if i < r.len() - 1 {
                    assert(r[i] == p[i]);
                }
            }
            assert forall|i: int, j: int| 0 <= i < j < r.len() implies #[trigger] r[i].1
                < #[trigger] r[j].0 by {
                assert(r[i] == p[i]);
                if j < r.len() - 1 {
                    assert(r[j] == p[j]);
                } else {
                    assert(p[p.len() - 1] == last);
                }
            }
            assert forall|k: int|
                in_some_range(r, k) <==> in_some_window(indices, total, before, after, k) by {
                lemma_windows_of_prefix(indices, total, before, after, k);
                assert(p[p.len() - 1] == last);
                assert(r[r.len() - 1] == (last.0, e as usize));
                if in_some_range(r, k) {
                    let i = choose|i: int| 0 <= i < r.len() && (#[trigger] r[i]).0 <= k < r[i].1;
                    if i < r.len() - 1 {
                        assert(r[i] == p[i]);
                        assert(in_some_range(p, k));
                    } else if k < last.1 {
                        assert(in_some_range(p, k));
                    }
                }
                if in_some_range(p, k) {
                    let i = choose|i: int| 0 <= i < p.len() && (#[trigger] p[i]).0 <= k < p[i].1;
                    if i < p.len() - 1 {
                        assert(r[i] == p[i]);
                    } else {
                        assert(last.0 <= k < e);
                    }
                    assert(in_some_range(r, k));
                }
                if s <= k < e {
                    assert(in_some_range(r, k));
                }
            }
        } else {
            assert(r == p.push((s as usize, e as usize)));
            assert forall|i: int| 0 <= i < r.len() implies #[trigger] r[i].0 < r[i].1 <= total by {
                if i < r.len() - 1 {
                    assert(r[i] == p[i]);
                }
            }
            assert forall|i: int, j: int| 0 <= i < j < r.len() implies #[trigger] r[i].1
                < #[trigger] r[j].0 by {
                assert(r[i] == p[i]);
                if j < r.len() - 1 {
                    assert(r[j] == p[j]);
                } else {
                    assert(p[p.len() - 1] == p.last());
                    if i < p.len() - 1 {
                        assert(p[i].1 < p[p.len() - 1].0);
                    }
                }
            }
            assert forall|k: int|
                in_some_range(r, k) <==> in_some_window(indices, total, before, after, k) by {
                lemma_windows_of_prefix(indices, total, before, after, k);
                assert(r[r.len() - 1] == (s as usize, e as usize));
                if in_some_range(r, k) {
                    let i = choose|i: int| 0 <= i < r.len() && (#[trigger] r[i]).0 <= k < r[i].1;
                    if i < r.len() - 1 {
                        assert(r[i] == p[i]);
                        assert(in_some_range(p, k));
                    }
                }
                if in_some_range(p, k) {
                    let i = choose|i: int| 0 <= i < p.len() && (#[trigger] p[i]).0 <= k < p[i].1;
                    assert(r[i] == p[i]);
                    assert(in_some_range(r, k));
                }
                if s <= k < e {
                    assert(in_some_range(r, k));
                }
            }
        }
    }
}


/// Whether line `k` is selected: it matches, or, inverted, it does not.
pub open spec fn is_selected(found: Seq<Option<(usize, usize)>>, invert_match: bool, k: int) -> bool {
    invert_match != (found[k] is Some)
}

/// The byte range reported for a selected line: that of the match, or the
/// whole line when the selection is inverted.
pub open spec fn reported_bounds(
    found: Option<(usize, usize)>,
    invert_match: bool,
    text: Seq<char>,
) -> (usize, usize) {
    if !invert_match && found is Some {
        found.unwrap()
    } else {
        (0usize, encode_utf8(text).len() as usize)
    }
}

/// Line `k` is shown: it is within `before` lines before or `after` lines
/// after some selected line.
pub open spec fn in_context(
    found: Seq<Option<(usize, usize)>>,
    invert_match: bool,
    before: usize,
    after: usize,
    k: int,
) -> bool {
    &&& 0 <= k < found.len()
    &&& exists|m: int|
        0 <= m < found.len() && #[trigger] is_selected(found, invert_match, m) && m - before <= k
            <= m + after
}

/// `line` is the output for line `k` (0-based) of the text.
pub open spec fn reports_line(
    line: SearchLine,
    texts: Seq<Seq<char>>,
    found: Seq<Option<(usize, usize)>>,
    invert_match: bool,
    k: int,
) -> bool {
    match line {
        SearchLine::ContextLine { line_number, content } => {
            &&& line_number == k + 1
            &&& content@ == texts[k]
            &&& !is_selected(found, invert_match, k)
        },
        SearchLine::Match { line_number, content, start, end } => {
            &&& line_number == k + 1
            &&& content@ == texts[k]
            &&& is_selected(found, invert_match, k)
            &&& (start, end) == reported_bounds(found[k], invert_match, texts[k])
        },
    }
}

/// `out` is the search output for a text whose lines are `texts` and whose
/// match on each line is `found`: one entry for each shown line, in the
/// order of the text, each a match exactly when its line is selected.
pub open spec fn is_search_output(
    out: Seq<SearchLine>,
    texts: Seq<Seq<char>>,
    found: Seq<Option<(usize, usize)>>,
    invert_match: bool,
    before: usize,
    after: usize,
) -> bool {
    &&& forall|j: int|
        0 <= j < out.len() ==> in_context(
            found,
            invert_match,
            before,
            after,
            (#[trigger] out[j]).line_number_of() - 1,
        ) && reports_line(out[j], texts, found, invert_match, out[j].line_number_of() - 1)
    &&& forall|i: int, j: int|
        0 <= i < j < out.len() ==> (#[trigger] out[i]).line_number_of() < (
        #[trigger] out[j]).line_number_of()
    &&& forall|k: int|
        #[trigger] in_context(found, invert_match, before, after, k) ==> exists|j: int|
            0 <= j < out.len() && (#[trigger] out[j]).line_number_of() == k + 1
}

/// The texts of the given lines.
pub open spec fn line_views(lines: Seq<&str>) -> Seq<Seq<char>> {
    lines.map_values(|line: &str| line@)
}

/// The output so far holds every shown line before `pos`, and nothing else.
spec fn output_until(
    out: Seq<SearchLine>,
    texts: Seq<Seq<char>>,
    found: Seq<Option<(usize, usize)>>,
    invert_match: bool,
    before: usize,
    after: usize,
    pos: int,
) -> bool {
    &&& forall|j: int|
        0 <= j < out.len() ==> in_context(
            found,
            invert_match,
            before,
            after,
            (#[trigger] out[j]).line_number_of() - 1,
        ) && reports_line(out[j], texts, found, invert_match, out[j].line_number_of() - 1)
            && out[j].line_number_of() <= pos
    &&& forall|i: int, j: int|
        0 <= i < j < out.len() ==> (#[trigger] out[i]).line_number_of() < (
        #[trigger] out[j]).line_number_of()
    &&& forall|k: int|
        0 <= k < pos && #[trigger] in_context(found, invert_match, before, after, k) ==> exists|
            j: int,
        | 0 <= j < out.len() && (#[trigger] out[j]).line_number_of() == k + 1
}

/// `matches` lists the selected lines in order, with their reported bounds.
spec fn lists_selected(
    matches: Seq<(usize, (usize, usize))>,
    texts: Seq<Seq<char>>,
    found: Seq<Option<(usize, usize)>>,
    invert_match: bool,
    upto: int,
) -> bool {
    &&& forall|t: int|
        0 <= t < matches.len() ==> (#[trigger] matches[t]).0 < upto && is_selected(
            found,
            invert_match,
            matches[t].0 as int,
        ) && matches[t].1 == reported_bounds(
            found[matches[t].0 as int],
            invert_match,
            texts[matches[t].0 as int],
        )
    &&& forall|s: int, t: int|
        0 <= s < t < matches.len() ==> (#[trigger] matches[s]).0 < (#[trigger] matches[t]).0
    &&& forall|k: int|
        0 <= k < upto && #[trigger] is_selected(found, invert_match, k) ==> exists|t: int|
            0 <= t < matches.len() && (#[trigger] matches[t]).0 == k
}

/// Every selected line's context window ends (line index + `after` + 1)
/// without overflowing a `usize`.
pub open spec fn window_ends_fit(
    found: Seq<Option<(usize, usize)>>,
    invert_match: bool,
    after: usize,
) -> bool {
    forall|k: int|
        0 <= k < found.len() && #[trigger] is_selected(found, invert_match, k) ==> k + after
            < usize::MAX
}

/// Builds the search output from the lines of a text and the match that
/// the regular expression found on each of them.
pub fn search_lines(
    lines: &Vec<&str>,
    found: &Vec<Option<(usize, usize)>>,
    invert_match: bool,
    before: usize,
    after: usize,
) -> (results: Vec<SearchLine>)
    requires
        found@.len() == lines@.len(),
        window_ends_fit(found@, invert_match, after),
    ensures
        is_search_output(results@, line_views(lines@), found@, invert_match, before, after),
{
    let ghost texts = line_views(lines@);
    let total = lines.len();

    // The selected lines, with the byte range to report for each.
    let mut matches: Vec<(usize, (usize, usize))> = Vec::new();
    let mut index: usize = 0;
    while index < total
        invariant
            total == lines@.len() == found@.len() == texts.len(),
            texts == line_views(lines@),
            index <= total,
            lists_selected(matches@, texts, found@, invert_match, index as int),
        decreases total - index,
    {
        let is_match = found[index].is_some();
        if invert_match != is_match {
            let bounds = if !invert_match && is_match {
                found[index].unwrap()
            } else {
                (0, lines[index].as_bytes().len())
            };
            let ghost old_matches = matches@;
            matches.push((index, bounds));
            proof {
                assert(texts[index as int] == lines@[index as int]@);
                assert forall|t: int| 0 <= t < old_matches.len() implies matches@[t] == old_matches[t] by {}
                assert(matches@[old_matches.len() as int] == (index, bounds));
            }
        }
        index += 1;
    }

    let mut match_indices: Vec<usize> = Vec::new();
    let mut t: usize = 0;
    while t < matches.len()
        invariant
            t <= matches@.len(),
            match_indices@.len() == t,
            forall|u: int| 0 <= u < t ==> #[trigger] match_indices@[u] == matches@[u].0,
        decreases matches@.len() - t,
    {
        match_indices.push(matches[t].0);
        t += 1;
    }

    let ghost indices = match_indices@;
    proof {
        assert(is_ascending(indices)) by {
            assert forall|i: int, j: int| 0 <= i <= j < indices.len() implies indices[i]
                <= indices[j] by {
                assert(indices[i] == matches@[i].0 && indices[j] == matches@[j].0);
                if i < j {
                    assert(matches@[i].0 < matches@[j].0);
                }
            }
        }
        assert forall|u: int| 0 <= u < indices.len() implies #[trigger] indices[u] < total
            && indices[u] + after < usize::MAX by {
            assert(indices[u] == matches@[u].0);
            assert(is_selected(found@, invert_match, indices[u] as int));
        }
        lemma_merged_ranges_partition(indices, total, before, after);
    }
    let merged = calculate_merged_ranges(match_indices.as_slice(), total, before, after);
    let ghost ranges = merged@;
    proof {
        assert forall|k: int| in_some_range(ranges, k) <==> #[trigger] in_context(
            found@,
            invert_match,
            before,
            after,
            k,
        ) by {
            if in_some_range(ranges, k) {
                let i = choose|i: int| 0 <= i < ranges.len() && (#[trigger] ranges[i]).0 <= k
                    < ranges[i].1;
                assert(ranges[i].1 <= total);
                assert(in_some_window(indices, total, before, after, k));
                let u = choose|u: int|
                    0 <= u < indices.len() && window_start(#[trigger] indices[u], before) <= k
                        < window_end(indices[u], total, after);
                assert(indices[u] == matches@[u].0);
                assert(is_selected(found@, invert_match, indices[u] as int));
            }
            if in_context(found@, invert_match, before, after, k) {
                let m = choose|m: int|
                    0 <= m < found@.len() && #[trigger] is_selected(found@, invert_match, m) && m
                        - before <= k <= m + after;
                let u = choose|u: int| 0 <= u < matches@.len() && (#[trigger] matches@[u]).0 == m;
                assert(indices[u] == m);
                assert(in_some_window(indices, total, before, after, k));
            }
        }
    }

    let mut results: Vec<SearchLine> = Vec::new();
    let mut cursor: usize = 0;
    let mut r: usize = 0;
    let mut pos: usize = 0;
    while r < merged.len()
        invariant
            total == lines@.len() == found@.len() == texts.len(),
            texts == line_views(lines@),
            merged@ == ranges,
            r <= ranges.len(),
            forall|i: int| 0 <= i < ranges.len() ==> #[trigger] ranges[i].0 < ranges[i].1 <= total,
            forall|i: int, j: int|
                0 <= i < j < ranges.len() ==> #[trigger] ranges[i].1 < #[trigger] ranges[j].0,
            forall|k: int|
                in_some_range(ranges, k) <==> #[trigger] in_context(
                    found@,
                    invert_match,
                    before,
                    after,
                    k,
                ),
            pos == (if r == 0 {
                0
            } else {
                ranges[r - 1].1 as int
            }),
            lists_selected(matches@, texts, found@, invert_match, total as int),
            cursor <= matches@.len(),
            forall|u: int| 0 <= u < cursor ==> (#[trigger] matches@[u]).0 < pos,
            forall|u: int| cursor <= u < matches@.len() ==> (#[trigger] matches@[u]).0 >= pos,
            output_until(results@, texts, found@, invert_match, before, after, pos as int),
        decreases ranges.len() - r,
    {
        let (start, end) = merged[r];
        proof {
            assert(ranges[r as int] == (start, end));
            if r > 0 {
                assert(ranges[r - 1].1 < ranges[r as int].0);
            }
            // No line between the previous range and this one is shown.
            assert forall|k: int| pos <= k < start implies !#[trigger] in_context(
                found@,
                invert_match,
                before,
                after,
                k,
            ) by {
                if in_some_range(ranges, k) {
                    let i = choose|i: int| 0 <= i < ranges.len() && (#[trigger] ranges[i]).0 <= k
                        < ranges[i].1;
                    if i < r {
                        if i < r - 1 {
                            assert(ranges[i].1 < ranges[r - 1].0);
                        }
                    } else if i > r {
                        assert(ranges[r as int].1 < ranges[i].0);
                    }
                }
            }
            assert forall|u: int| cursor <= u < matches@.len() implies (
            #[trigger] matches@[u]).0 >= start by {
                let m = matches@[u].0 as int;
                if m < start {
                    assert(is_selected(found@, invert_match, m));
                    assert(in_context(found@, invert_match, before, after, m));
                }
            }
        }
        let mut g: usize = start;
        while g < end
            invariant
                total == lines@.len() == found@.len() == texts.len(),
                texts == line_views(lines@),
                start <= g <= end <= total,
                forall|k: int| start <= k < end ==> #[trigger] in_context(
                    found@,
                    invert_match,
                    before,
                    after,
                    k,
                ),
                lists_selected(matches@, texts, found@, invert_match, total as int),
                cursor <= matches@.len(),
                forall|u: int| 0 <= u < cursor ==> (#[trigger] matches@[u]).0 < g,
                forall|u: int| cursor <= u < matches@.len() ==> (#[trigger] matches@[u]).0 >= g,
                output_until(results@, texts, found@, invert_match, before, after, g as int),
            decreases end - g,
        {
            let line = lines[g];
            let ghost old_results = results@;
            proof {
                assert(texts[g as int] == line@);
                assert(in_context(found@, invert_match, before, after, g as int));
            }
            if cursor < matches.len() && matches[cursor].0 == g {
                let bounds = matches[cursor].1;
                results.push(
                    SearchLine::Match {
                        line_number: g + 1,
                        content: line.to_owned(),
                        start: bounds.0,
                        end: bounds.1,
                    },
                );
                proof {
                    assert forall|u: int| cursor + 1 <= u < matches@.len() implies (
                    #[trigger] matches@[u]).0 >= g + 1 by {
                        assert(matches@[cursor as int].0 < matches@[u].0);
                    }
                }
                cursor += 1;
            } else {
                proof {
                    if is_selected(found@, invert_match, g as int) {
                        let u = choose|u: int|
                            0 <= u < matches@.len() && (#[trigger] matches@[u]).0 == g;
                        if u > cursor {
                            assert(matches@[cursor as int].0 < matches@[u].0);
                        }
                    }
                    assert forall|u: int| cursor <= u < matches@.len() implies (
                    #[trigger] matches@[u]).0 >= g + 1 by {
                        if matches@[u].0 == g {
                            if u > cursor {
                                assert(matches@[cursor as int].0 < matches@[u].0);
                            }
                        }
                    }
                }
                results.push(SearchLine::ContextLine { line_number: g + 1, content: line.to_owned() });
            }
            proof {
                let n = old_results.len();
                assert forall|j: int| 0 <= j < n implies results@[j] == old_results[j] by {}
                assert(results@[n as int].line_number_of() == g + 1);
                assert forall|k: int|
                    0 <= k < g + 1 && #[trigger] in_context(
                        found@,
                        invert_match,
                        before,
                        after,
                        k,
                    ) implies exists|j: int|
                    0 <= j < results@.len() && (#[trigger] results@[j]).line_number_of() == k
                        + 1 by {
                    if k < g {
                        let j = choose|j: int|
                            0 <= j < old_results.len() && (#[trigger] old_results[j]).line_number_of()
                                == k + 1;
                        assert(results@[j] == old_results[j]);
                    } else {
                        assert(results@[n as int].line_number_of() == k + 1);
                    }
                }
                assert forall|i: int, j: int| 0 <= i < j < results@.len() implies (
                #[trigger] results@[i]).line_number_of() < (
                #[trigger] results@[j]).line_number_of() by {
                    assert(results@[i] == old_results[i]);
                    if j < n {
                        assert(results@[j] == old_results[j]);
                    }
                }
            }
            g += 1;
        }
        pos = end;
        r += 1;
    }
    proof {
        assert forall|k: int| #[trigger] in_context(
            found@,
            invert_match,
            before,
            after,
            k,
        ) implies exists|j: int|
            0 <= j < results@.len() && (#[trigger] results@[j]).line_number_of() == k + 1 by {
            assert(in_some_range(ranges, k));
            let i = choose|i: int| 0 <= i < ranges.len() && (#[trigger] ranges[i]).0 <= k
                < ranges[i].1;
            if i < ranges.len() - 1 {
                assert(ranges[i].1 < ranges[ranges.len() - 1].0);
            }
        }
    }
    results
}


/// A match's byte range can slice its line: it is in order, within the
/// line, and on character boundaries. A context line has no range.
pub open spec fn has_valid_bounds(line: SearchLine) -> bool {
    match line {
        SearchLine::ContextLine { .. } => true,
        SearchLine::Match { content, start, end, .. } => {
            &&& start <= end <= encode_utf8(content@).len()
            &&& is_char_boundary(encode_utf8(content@), start as int)
            &&& is_char_boundary(encode_utf8(content@), end as int)
        },
    }
}

/// The text of each line of a UTF-8 text.
pub open spec fn line_texts(bytes: Seq<u8>) -> Seq<Seq<char>> {
    lines_of(bytes).map_values(|line: Seq<u8>| decode_utf8(line))
}

/// What the regular expression compiled from `pattern` finds on each line.
pub open spec fn line_matches(pattern: Seq<char>, texts: Seq<Seq<char>>) -> Seq<
    Option<(usize, usize)>,
> {
    texts.map_values(|text: Seq<char>| regex_find(pattern, text))
}

/// The texts of the lines that `split_lines` gives are the texts of the
/// lines of the content.
proof fn lemma_split_lines_texts(content: &str, lines: Seq<&str>)
    requires
        lines.len() == lines_of(content.spec_bytes()).len(),
        forall|k: int|
            0 <= k < lines.len() ==> #[trigger] lines[k].spec_bytes() == lines_of(
                content.spec_bytes(),
            )[k],
    ensures
        line_views(lines) == line_texts(content.spec_bytes()),
{
    let texts = line_texts(content.spec_bytes());
    assert forall|k: int| 0 <= k < lines.len() implies #[trigger] line_views(lines)[k]
        == texts[k] by {
        assert(lines[k].spec_bytes() == encode_utf8(lines[k]@));
        assert(decode_utf8(encode_utf8(lines[k]@)) == lines[k]@);
    }
    assert(line_views(lines) =~= texts);
}

/// Searches `content` line by line for `regex` (or, with `invert_match`,
/// for lines it does not match), and returns the selected lines with
/// `before` and `after` lines of context around each.
pub fn search_content(
    content: &str,
    regex: &CompiledRegex,
    invert_match: bool,
    before: usize,
    after: usize,
) -> (results: Vec<SearchLine>)
    requires
        window_ends_fit(
            line_matches(regex@, line_texts(content.spec_bytes())),
            invert_match,
            after,
        ),
    ensures
        is_search_output(
            results@,
            line_texts(content.spec_bytes()),
            line_matches(regex@, line_texts(content.spec_bytes())),
            invert_match,
            before,
            after,
        ),
        forall|j: int| 0 <= j < results@.len() ==> has_valid_bounds(#[trigger] results@[j]),
{
    let lines = split_lines(content);
    let ghost texts = line_texts(content.spec_bytes());
    let mut found: Vec<Option<(usize, usize)>> = Vec::new();
    let mut index: usize = 0;
    while index < lines.len()
        invariant
            index <= lines@.len(),
            found@.len() == index,
            content.spec_bytes().len() <= usize::MAX,
            forall|i: int|
                0 <= i < lines@.len() ==> (#[trigger] lines@[i]).spec_bytes().len()
                    <= content.spec_bytes().len(),
            forall|i: int|
                0 <= i < index ==> {
                    &&& #[trigger] found@[i] == regex_find(regex@, lines@[i]@)
                    &&& lines@[i].spec_bytes().len() <= usize::MAX
                    &&& found@[i] matches Some(b) ==> {
                        &&& b.0 <= b.1 <= lines@[i].spec_bytes().len()
                        &&& is_char_boundary(lines@[i].spec_bytes(), b.0 as int)
                        &&& is_char_boundary(lines@[i].spec_bytes(), b.1 as int)
                    }
                },
        decreases lines@.len() - index,
    {
        let bounds = regex.find_bounds(lines[index]);
        found.push(bounds);
        index += 1;
    }
    proof {
        lemma_split_lines_texts(content, lines@);
        assert(found@ =~= line_matches(regex@, texts));
    }
    let results = search_lines(&lines, &found, invert_match, before, after);
    proof {
        assert forall|j: int| 0 <= j < results@.len() implies has_valid_bounds(
            #[trigger] results@[j],
        ) by {
            let k = results@[j].line_number_of() - 1;
            assert(in_context(found@, invert_match, before, after, k));
            assert(reports_line(results@[j], line_views(lines@), found@, invert_match, k));
            assert(0 <= k < lines@.len());
            assert(line_views(lines@)[k] == lines@[k]@);
            if let SearchLine::Match { content, start, end, .. } = results@[j] {
                assert(content@ == lines@[k]@);
                assert(lines@[k].spec_bytes() == encode_utf8(content@));
                if !invert_match && found@[k] is Some {
                    let b = found@[k].unwrap();
                    assert(found@[k] == regex_find(regex@, lines@[k]@));
                    assert((start, end) == b);
                    assert(b.0 <= b.1 <= lines@[k].spec_bytes().len());
                    assert(is_char_boundary(lines@[k].spec_bytes(), b.0 as int));
                    assert(is_char_boundary(lines@[k].spec_bytes(), b.1 as int));
                } else {
                    is_char_boundary_start_end_of_seq(encode_utf8(content@));
                    assert((start, end) == (0usize, encode_utf8(content@).len() as usize));
                }
                assert(has_valid_bounds(results@[j]));
            }
        }
    }
    results
}


/// Line `k` has an entry in the output.
pub open spec fn is_shown(out: Seq<SearchLine>, k: int) -> bool {
    exists|j: int| 0 <= j < out.len() && (#[trigger] out[j]).line_number_of() == k + 1
}

/// Without context lines, the output holds exactly the selected lines, all
/// of them as matches.
pub proof fn lemma_no_context_shows_only_selected(
    out: Seq<SearchLine>,
    texts: Seq<Seq<char>>,
    found: Seq<Option<(usize, usize)>>,
    invert_match: bool,
)
    requires
        is_search_output(out, texts, found, invert_match, 0, 0),
    ensures
        forall|j: int| 0 <= j < out.len() ==> (#[trigger] out[j]) is Match,
        forall|k: int|
            0 <= k < found.len() ==> (is_shown(out, k) <==> is_selected(
                found,
                invert_match,
                k,
            )),
{
    assert forall|j: int| 0 <= j < out.len() implies (#[trigger] out[j]) is Match by {
        let k = out[j].line_number_of() - 1;
        assert(in_context(found, invert_match, 0, 0, k));
        let m = choose|m: int|
            0 <= m < found.len() && #[trigger] is_selected(found, invert_match, m) && m - 0 <= k
                <= m + 0;
        assert(m == k);
    }
    assert forall|k: int| 0 <= k < found.len() implies (is_shown(out, k) <==> is_selected(
        found,
        invert_match,
        k,
    )) by {
        if is_shown(out, k) {
            let j = choose|j: int| 0 <= j < out.len() && (#[trigger] out[j]).line_number_of() == k
                + 1;
            assert(in_context(found, invert_match, 0, 0, k));
            let m = choose|m: int|
                0 <= m < found.len() && #[trigger] is_selected(found, invert_match, m) && m - 0
                    <= k <= m + 0;
            assert(m == k);
        }
        if is_selected(found, invert_match, k) {
            assert(in_context(found, invert_match, 0, 0, k));
        }
    }
}

/// Without context lines, searching for the lines that match and searching
/// for the lines that do not match split the text between them: each line
/// is in exactly one of the two outputs.
pub proof fn lemma_inverted_search_complements(
    matching: Seq<SearchLine>,
    not_matching: Seq<SearchLine>,
    texts: Seq<Seq<char>>,
    found: Seq<Option<(usize, usize)>>,
)
    requires
        is_search_output(matching, texts, found, false, 0, 0),
        is_search_output(not_matching, texts, found, true, 0, 0),
    ensures
        forall|k: int|
            0 <= k < found.len() ==> (is_shown(matching, k) != is_shown(not_matching, k)),
{
    lemma_no_context_shows_only_selected(matching, texts, found, false);
    lemma_no_context_shows_only_selected(not_matching, texts, found, true);
}

/// With context, every selected line is shown, and as a match.
pub proof fn lemma_selected_lines_are_shown_as_matches(
    out: Seq<SearchLine>,
    texts: Seq<Seq<char>>,
    found: Seq<Option<(usize, usize)>>,
    invert_match: bool,
    before: usize,
    after: usize,
    k: int,
)
    requires
        is_search_output(out, texts, found, invert_match, before, after),
        0 <= k < found.len(),
        is_selected(found, invert_match, k),
    ensures
        exists|j: int|
            0 <= j < out.len() && (#[trigger] out[j]).line_number_of() == k + 1 && out[j] is Match,
{
    assert(in_context(found, invert_match, before, after, k));
    let j = choose|j: int| 0 <= j < out.len() && (#[trigger] out[j]).line_number_of() == k + 1;
    assert(reports_line(out[j], texts, found, invert_match, k));
}


/// Two output lines say the same: same line number, same kind, same text
/// and, for matches, the same byte range.
pub open spec fn same_report(a: SearchLine, b: SearchLine) -> bool {
    match (a, b) {
        (
            SearchLine::ContextLine { line_number: n1, content: c1 },
            SearchLine::ContextLine { line_number: n2, content: c2 },
        ) => n1 == n2 && c1@ == c2@,
        (
            SearchLine::Match { line_number: n1, content: c1, start: s1, end: e1 },
            SearchLine::Match { line_number: n2, content: c2, start: s2, end: e2 },
        ) => n1 == n2 && c1@ == c2@ && s1 == s2 && e1 == e2,
        _ => false,
    }
}

/// The output's line numbers increase strictly.
pub open spec fn lines_increase(out: Seq<SearchLine>) -> bool {
    forall|i: int, j: int|
        0 <= i < j < out.len() ==> (#[trigger] out[i]).line_number_of() < (
        #[trigger] out[j]).line_number_of()
}

/// The output has an entry for line `k` (0-based) exactly when `shown(k)`.
pub open spec fn lists_exactly(out: Seq<SearchLine>, shown: spec_fn(int) -> bool) -> bool {
    &&& forall|j: int| 0 <= j < out.len() ==> shown((#[trigger] out[j]).line_number_of() - 1)
    &&& forall|k: int| #[trigger] shown(k) ==> is_shown(out, k)
}

proof fn lemma_listing_numbers_agree(
    out1: Seq<SearchLine>,
    out2: Seq<SearchLine>,
    shown: spec_fn(int) -> bool,
    j: int,
)
    requires
        lines_increase(out1),
        lines_increase(out2),
        lists_exactly(out1, shown),
        lists_exactly(out2, shown),
        0 <= j,
    ensures
        forall|i: int|
            0 <= i <= j && i < out1.len() && i < out2.len() ==> (#[trigger] out1[i]).line_number_of()
                == out2[i].line_number_of(),
    decreases j,
{
    if j > 0 {
        lemma_listing_numbers_agree(out1, out2, shown, j - 1);
    }
    if j < out1.len() && j < out2.len() {
        let n1 = out1[j].line_number_of();
        let n2 = out2[j].line_number_of();
        if n1 < n2 {
            assert(shown(n1 - 1));
            let i = choose|i: int| 0 <= i < out2.len() && (#[trigger] out2[i]).line_number_of() == n1;
            if i >= j {
                if i > j {
                    assert(out2[j].line_number_of() < out2[i].line_number_of());
                }
            } else {
                assert(out1[i].line_number_of() < out1[j].line_number_of());
            }
        } else if n2 < n1 {
            assert(shown(n2 - 1));
            let i = choose|i: int| 0 <= i < out1.len() && (#[trigger] out1[i]).line_number_of() == n2;
            if i >= j {
                if i > j {
                    assert(out1[j].line_number_of() < out1[i].line_number_of());
                }
            } else {
                assert(out2[i].line_number_of() < out2[j].line_number_of());
            }
        }
    }
}

/// Two outputs in line order that list the same lines agree in length and,
/// entry by entry, in line number.
pub proof fn lemma_same_listing(
    out1: Seq<SearchLine>,
    out2: Seq<SearchLine>,
    shown: spec_fn(int) -> bool,
)
    requires
        lines_increase(out1),
        lines_increase(out2),
        lists_exactly(out1, shown),
        lists_exactly(out2, shown),
    ensures
        out1.len() == out2.len(),
        forall|j: int|
            0 <= j < out1.len() ==> (#[trigger] out1[j]).line_number_of()
                == out2[j].line_number_of(),
{
    let longest = if out1.len() > out2.len() {
        out1.len()
    } else {
        out2.len()
    };
    lemma_listing_numbers_agree(out1, out2, shown, longest as int);
    if out1.len() > out2.len() {
        let m = out2.len() as int;
        let n = out1[m].line_number_of();
        assert(shown(n - 1));
        let i = choose|i: int| 0 <= i < out2.len() && (#[trigger] out2[i]).line_number_of() == n;
        assert(out1[i].line_number_of() == out2[i].line_number_of());
        assert(out1[i].line_number_of() < out1[m].line_number_of());
    } else if out2.len() > out1.len() {
        let m = out1.len() as int;
        let n = out2[m].line_number_of();
        assert(shown(n - 1));
        let i = choose|i: int| 0 <= i < out1.len() && (#[trigger] out1[i]).line_number_of() == n;
        assert(out1[i].line_number_of() == out2[i].line_number_of());
        assert(out2[i].line_number_of() < out2[m].line_number_of());
    }
}

/// The search output is fully determined by the text's lines, the matches
/// found on them and the options: two outputs that meet `is_search_output`
/// for the same inputs report the same lines in the same order.
pub proof fn lemma_search_output_unique(
    out1: Seq<SearchLine>,
    out2: Seq<SearchLine>,
    texts: Seq<Seq<char>>,
    found: Seq<Option<(usize, usize)>>,
    invert_match: bool,
    before: usize,
    after: usize,
)
    requires
        is_search_output(out1, texts, found, invert_match, before, after),
        is_search_output(out2, texts, found, invert_match, before, after),
    ensures
        out1.len() == out2.len(),
        forall|j: int| 0 <= j < out1.len() ==> same_report(#[trigger] out1[j], out2[j]),
{
    let shown = |k: int| in_context(found, invert_match, before, after, k);
    assert(lists_exactly(out1, shown));
    assert(lists_exactly(out2, shown));
    lemma_same_listing(out1, out2, shown);
    assert forall|j: int| 0 <= j < out1.len() implies same_report(#[trigger] out1[j], out2[j]) by {
        let k = out1[j].line_number_of() - 1;
        assert(out1[j].line_number_of() == out2[j].line_number_of());
        assert(reports_line(out1[j], texts, found, invert_match, k));
        assert(reports_line(out2[j], texts, found, invert_match, k));
    }
}


/// Searches as `search_content` does when every selected line's window end
/// fits in a `usize`, and gives `None` otherwise (where computing a window
/// end would overflow).
pub fn search_content_checked(
    content: &str,
    regex: &CompiledRegex,
    invert_match: bool,
    before: usize,
    after: usize,
) -> (results: Option<Vec<SearchLine>>)
    ensures
        results is Some <==> window_ends_fit(
            line_matches(regex@, line_texts(content.spec_bytes())),
            invert_match,
            after,
        ),
        results matches Some(out) ==> {
            &&& is_search_output(
                out@,
                line_texts(content.spec_bytes()),
                line_matches(regex@, line_texts(content.spec_bytes())),
                invert_match,
                before,
                after,
            )
            &&& forall|j: int| 0 <= j < out@.len() ==> has_valid_bounds(#[trigger] out@[j])
        },
{
    let lines = split_lines(content);
    let ghost texts = line_texts(content.spec_bytes());
    let ghost found = line_matches(regex@, texts);
    proof {
        lemma_split_lines_texts(content, lines@);
    }
    let count = lines.len();
    if count > usize::MAX - after {
        // Only the lines from `first` on have a window end that overflows.
        let first = usize::MAX - after;
        let mut k = first;
        while k < count
            invariant
                first <= k <= count,
                count == lines@.len() == found.len(),
                first + after == usize::MAX,
                line_views(lines@) == texts,
                texts == line_texts(content.spec_bytes()),
                found == line_matches(regex@, texts),
                forall|i: int| first <= i < k ==> !#[trigger] is_selected(found, invert_match, i),
            decreases count - k,
        {
            let bounds = regex.find_bounds(lines[k]);
            proof {
                assert(texts[k as int] == lines@[k as int]@);
            }
            if invert_match != bounds.is_some() {
                assert(is_selected(found, invert_match, k as int));
                assert(k + after >= usize::MAX);
                assert(!window_ends_fit(found, invert_match, after));
                return None;
            }
            k += 1;
        }
    }
    Some(search_content(content, regex, invert_match, before, after))
}


/// The `Match` entries of an output, in order.
pub open spec fn match_entries(out: Seq<SearchLine>) -> Seq<SearchLine>
    decreases out.len(),
{
    if out.len() == 0 {
        seq![]
    } else {
        let rest = match_entries(out.drop_last());
        if out.last() is Match {
            rest.push(out.last())
        } else {
            rest
        }
    }
}

proof fn lemma_match_entries_from_output(out: Seq<SearchLine>)
    ensures
        forall|i: int|
            0 <= i < match_entries(out).len() ==> exists|j: int|
                0 <= j < out.len() && out[j] == #[trigger] match_entries(out)[i],
        forall|i: int| 0 <= i < match_entries(out).len() ==> (#[trigger] match_entries(out)[i]) is Match,
    decreases out.len(),
{
    if out.len() > 0 {
        let pre = out.drop_last();
        lemma_match_entries_from_output(pre);
        let rest = match_entries(pre);
        let me = match_entries(out);
        assert forall|i: int| 0 <= i < me.len() implies (#[trigger] me[i]) is Match by {
            if i < rest.len() {
                assert(me[i] == rest[i]);
            }
        }
        assert forall|i: int| 0 <= i < me.len() implies exists|j: int|
            0 <= j < out.len() && out[j] == #[trigger] me[i] by {
            if i < rest.len() {
                assert(me[i] == rest[i]);
                let j = choose|j: int| 0 <= j < pre.len() && pre[j] == rest[i];
                assert(out[j] == pre[j]);
            } else {
                assert(out[out.len() - 1] == me[i]);
            }
        }
    }
}

proof fn lemma_match_entries_cover_output(out: Seq<SearchLine>)
    ensures
        forall|j: int|
            0 <= j < out.len() && (#[trigger] out[j]) is Match ==> exists|i: int|
                0 <= i < match_entries(out).len() && match_entries(out)[i] == out[j],
    decreases out.len(),
{
    if out.len() > 0 {
        let pre = out.drop_last();
        lemma_match_entries_cover_output(pre);
        let rest = match_entries(pre);
        let me = match_entries(out);
        assert forall|j: int| 0 <= j < out.len() && (#[trigger] out[j]) is Match implies exists|
            i: int,
        | 0 <= i < me.len() && me[i] == out[j] by {
            if j < pre.len() {
                assert(pre[j] == out[j]);
                let i = choose|i: int| 0 <= i < rest.len() && rest[i] == pre[j];
                assert(me[i] == rest[i]);
            } else {
                assert(me[me.len() - 1] == out[j]);
            }
        }
    }
}

proof fn lemma_match_entries_increase(out: Seq<SearchLine>)
    requires
        lines_increase(out),
    ensures
        lines_increase(match_entries(out)),
    decreases out.len(),
{
    if out.len() > 0 {
        let pre = out.drop_last();
        assert(lines_increase(pre)) by {
            assert forall|i: int, j: int| 0 <= i < j < pre.len() implies (
            #[trigger] pre[i]).line_number_of() < (#[trigger] pre[j]).line_number_of() by {
                assert(pre[i] == out[i] && pre[j] == out[j]);
            }
        }
        lemma_match_entries_increase(pre);
        lemma_match_entries_from_output(pre);
        let rest = match_entries(pre);
        let me = match_entries(out);
        assert forall|i: int, j: int| 0 <= i < j < me.len() implies (
        #[trigger] me[i]).line_number_of() < (#[trigger] me[j]).line_number_of() by {
            assert(me[i] == rest[i]);
            if j < rest.len() {
                assert(me[j] == rest[j]);
            } else {
                let a = choose|a: int| 0 <= a < pre.len() && pre[a] == rest[i];
                assert(pre[a] == out[a]);
                assert(me[j] == out[out.len() - 1]);
            }
        }
    }
}

/// The selected lines of the text, as a predicate on 0-based line indices.
pub open spec fn selected_lines(found: Seq<Option<(usize, usize)>>, invert_match: bool) -> spec_fn(
    int,
) -> bool {
    |k: int| 0 <= k < found.len() && is_selected(found, invert_match, k)
}

/// The `Match` entries of a search output are the selected lines.
proof fn lemma_match_entries_list_selected(
    out: Seq<SearchLine>,
    texts: Seq<Seq<char>>,
    found: Seq<Option<(usize, usize)>>,
    invert_match: bool,
    before: usize,
    after: usize,
)
    requires
        is_search_output(out, texts, found, invert_match, before, after),
    ensures
        lists_exactly(match_entries(out), selected_lines(found, invert_match)),
{
    let selected = selected_lines(found, invert_match);
    lemma_match_entries_from_output(out);
    lemma_match_entries_cover_output(out);
    let me = match_entries(out);
    assert forall|i: int| 0 <= i < me.len() implies selected(
        (#[trigger] me[i]).line_number_of() - 1,
    ) by {
        let j = choose|j: int| 0 <= j < out.len() && out[j] == me[i];
        let k = out[j].line_number_of() - 1;
        assert(reports_line(out[j], texts, found, invert_match, k));
    }
    assert forall|k: int| #[trigger] selected(k) implies is_shown(me, k) by {
        assert(in_context(found, invert_match, before, after, k));
        let j = choose|j: int| 0 <= j < out.len() && (#[trigger] out[j]).line_number_of() == k + 1;
        assert(reports_line(out[j], texts, found, invert_match, k));
        let i = choose|i: int| 0 <= i < me.len() && me[i] == out[j];
        assert(me[i].line_number_of() == k + 1);
    }
}

/// More context only adds context lines: with at least as many lines before
/// and after, every line shown before is still shown, and the `Match`
/// entries are the same, in the same order.
pub proof fn lemma_more_context_adds_only_context_lines(
    narrow: Seq<SearchLine>,
    wide: Seq<SearchLine>,
    texts: Seq<Seq<char>>,
    found: Seq<Option<(usize, usize)>>,
    invert_match: bool,
    before1: usize,
    after1: usize,
    before2: usize,
    after2: usize,
)
    requires
        before1 <= before2,
        after1 <= after2,
        is_search_output(narrow, texts, found, invert_match, before1, after1),
        is_search_output(wide, texts, found, invert_match, before2, after2),
    ensures
        forall|j: int|
            0 <= j < narrow.len() ==> is_shown(wide, (#[trigger] narrow[j]).line_number_of() - 1),
        match_entries(narrow).len() == match_entries(wide).len(),
        forall|i: int|
            0 <= i < match_entries(narrow).len() ==> same_report(
                #[trigger] match_entries(narrow)[i],
                match_entries(wide)[i],
            ),
{
    assert forall|j: int| 0 <= j < narrow.len() implies is_shown(
        wide,
        (#[trigger] narrow[j]).line_number_of() - 1,
    ) by {
        let k = narrow[j].line_number_of() - 1;
        assert(in_context(found, invert_match, before1, after1, k));
        let m = choose|m: int|
            0 <= m < found.len() && #[trigger] is_selected(found, invert_match, m) && m - before1
                <= k <= m + after1;
        assert(in_context(found, invert_match, before2, after2, k));
    }
    let selected = selected_lines(found, invert_match);
    lemma_match_entries_list_selected(narrow, texts, found, invert_match, before1, after1);
    lemma_match_entries_list_selected(wide, texts, found, invert_match, before2, after2);
    lemma_match_entries_increase(narrow);
    lemma_match_entries_increase(wide);
    lemma_match_entries_from_output(narrow);
    lemma_match_entries_from_output(wide);
    let me1 = match_entries(narrow);
    let me2 = match_entries(wide);
    assert(lists_exactly(me1, selected));
    assert(lists_exactly(me2, selected));
    lemma_same_listing(me1, me2, selected);
    assert forall|i: int| 0 <= i < me1.len() implies same_report(#[trigger] me1[i], me2[i]) by {
        let j1 = choose|j: int| 0 <= j < narrow.len() && narrow[j] == me1[i];
        let j2 = choose|j: int| 0 <= j < wide.len() && wide[j] == me2[i];
        let k = me1[i].line_number_of() - 1;
        assert(reports_line(narrow[j1], texts, found, invert_match, k));
        assert(reports_line(wide[j2], texts, found, invert_match, k));
    }
}

/// Without context, the outputs of a search and of the inverted search
/// together have one entry per line of the text.
pub proof fn lemma_inverted_search_counts(
    matching: Seq<SearchLine>,
    not_matching: Seq<SearchLine>,
    texts: Seq<Seq<char>>,
    found: Seq<Option<(usize, usize)>>,
)
    requires
        is_search_output(matching, texts, found, false, 0, 0),
        is_search_output(not_matching, texts, found, true, 0, 0),
    ensures
        matching.len() + not_matching.len() == found.len(),
{
    broadcast use vstd::seq_lib::seq_to_set_is_finite;

    lemma_no_context_shows_only_selected(matching, texts, found, false);
    lemma_no_context_shows_only_selected(not_matching, texts, found, true);
    let q1 = matching.map_values(|l: SearchLine| l.line_number_of() - 1);
    let q2 = not_matching.map_values(|l: SearchLine| l.line_number_of() - 1);
    assert(q1.no_duplicates()) by {
        assert forall|i: int, j: int| 0 <= i < q1.len() && 0 <= j < q1.len() && i != j implies q1[i]
            != q1[j] by {
            if i < j {
                assert(matching[i].line_number_of() < matching[j].line_number_of());
            } else {
                assert(matching[j].line_number_of() < matching[i].line_number_of());
            }
        }
    }
    assert(q2.no_duplicates()) by {
        assert forall|i: int, j: int| 0 <= i < q2.len() && 0 <= j < q2.len() && i != j implies q2[i]
            != q2[j] by {
            if i < j {
                assert(not_matching[i].line_number_of() < not_matching[j].line_number_of());
            } else {
                assert(not_matching[j].line_number_of() < not_matching[i].line_number_of());
            }
        }
    }
    q1.unique_seq_to_set();
    q2.unique_seq_to_set();
    let s1 = q1.to_set();
    let s2 = q2.to_set();
    let n = found.len() as int;
    assert forall|k: int| s1.contains(k) <==> (0 <= k < n && is_selected(found, false, k)) by {
        if s1.contains(k) {
            let j = choose|j: int| 0 <= j < q1.len() && q1[j] == k;
            assert(in_context(found, false, 0, 0, matching[j].line_number_of() - 1));
            assert(is_shown(matching, k));
        }
        if 0 <= k < n && is_selected(found, false, k) {
            assert(is_shown(matching, k));
            let j = choose|j: int| 0 <= j < matching.len() && (#[trigger] matching[j]).line_number_of()
                == k + 1;
            assert(q1[j] == k);
        }
    }
    assert forall|k: int| s2.contains(k) <==> (0 <= k < n && is_selected(found, true, k)) by {
        if s2.contains(k) {
            let j = choose|j: int| 0 <= j < q2.len() && q2[j] == k;
            assert(in_context(found, true, 0, 0, not_matching[j].line_number_of() - 1));
            assert(is_shown(not_matching, k));
        }
        if 0 <= k < n && is_selected(found, true, k) {
            assert(is_shown(not_matching, k));
            let j = choose|j: int|
                0 <= j < not_matching.len() && (#[trigger] not_matching[j]).line_number_of() == k
                    + 1;
            assert(q2[j] == k);
        }
    }
    assert(s1.disjoint(s2));
    assert(s1 + s2 =~= vstd::set_lib::set_int_range(0, n));
    vstd::set_lib::lemma_int_range(0, n);
    vstd::set_lib::lemma_set_disjoint_lens(s1, s2);
}


/// What the regular expression finds decides the output, line by line: a
/// line is selected exactly when the regex finds a match on it, an empty
/// match included (inverted: exactly when it finds none); each shown line
/// carries its own text; a selected line is shown as a `Match` and any
/// other shown line as a context line; a `Match` reports the regex's byte
/// range, or, inverted, the whole line; every selected line is shown; and
/// without context only selected lines are shown.
pub proof fn lemma_selection_follows_the_regex(
    out: Seq<SearchLine>,
    texts: Seq<Seq<char>>,
    found: Seq<Option<(usize, usize)>>,
    invert_match: bool,
    before: usize,
    after: usize,
)
    requires
        is_search_output(out, texts, found, invert_match, before, after),
    ensures
        forall|j: int|
            0 <= j < out.len() ==> 1 <= (#[trigger] out[j]).line_number_of() <= found.len(),
        forall|j: int|
            0 <= j < out.len() ==> ((#[trigger] out[j]) is Match <==> (found[out[j].line_number_of()
                - 1] is Some) != invert_match),
        forall|j: int|
            0 <= j < out.len() ==> match #[trigger] out[j] {
                SearchLine::ContextLine { line_number, content } => content@ == texts[line_number
                    - 1],
                SearchLine::Match { line_number, content, start, end } => {
                    &&& content@ == texts[line_number - 1]
                    &&& invert_match ==> start == 0 && end == encode_utf8(texts[line_number - 1]).len() as usize
                    &&& !invert_match ==> found[line_number - 1] == Some((start, end))
                },
            },
        forall|k: int|
            0 <= k < found.len() && (#[trigger] found[k] is Some) != invert_match ==> exists|j: int|
                0 <= j < out.len() && (#[trigger] out[j]).line_number_of() == k + 1 && out[j] is Match,
        before == 0 && after == 0 ==> forall|j: int|
            0 <= j < out.len() ==> (found[(#[trigger] out[j]).line_number_of() - 1] is Some)
                != invert_match,
{
    assert forall|j: int| 0 <= j < out.len() implies {
        &&& 1 <= (#[trigger] out[j]).line_number_of() <= found.len()
        &&& (out[j] is Match <==> (found[out[j].line_number_of() - 1] is Some) != invert_match)
        &&& match out[j] {
            SearchLine::ContextLine { line_number, content } => content@ == texts[line_number - 1],
            SearchLine::Match { line_number, content, start, end } => {
                &&& content@ == texts[line_number - 1]
                &&& invert_match ==> start == 0 && end == encode_utf8(texts[line_number - 1]).len() as usize
                &&& !invert_match ==> found[line_number - 1] == Some((start, end))
            },
        }
        &&& before == 0 && after == 0 ==> (found[out[j].line_number_of() - 1] is Some)
            != invert_match
    } by {
        let k = out[j].line_number_of() - 1;
        assert(in_context(found, invert_match, before, after, k));
        assert(reports_line(out[j], texts, found, invert_match, k));
        assert(0 <= k < found.len());
        assert(out[j] is Match <==> is_selected(found, invert_match, k));
        if let SearchLine::Match { line_number, content, start, end } = out[j] {
            assert(line_number - 1 == k);
            assert((start, end) == reported_bounds(found[k], invert_match, texts[k]));
            if !invert_match {
                assert(found[k] is Some);
            }
        }
        if before == 0 && after == 0 {
            let m = choose|m: int|
                0 <= m < found.len() && #[trigger] is_selected(found, invert_match, m) && m - before
                    <= k <= m + after;
            assert(m == k);
        }
    }
    assert forall|k: int|
        0 <= k < found.len() && (#[trigger] found[k] is Some) != invert_match implies exists|j: int|
        0 <= j < out.len() && (#[trigger] out[j]).line_number_of() == k + 1 && out[j] is Match by {
        assert(is_selected(found, invert_match, k));
        assert(in_context(found, invert_match, before, after, k));
        let j = choose|j: int| 0 <= j < out.len() && (#[trigger] out[j]).line_number_of() == k + 1;
        assert(reports_line(out[j], texts, found, invert_match, k));
    }
}

} // verus!
