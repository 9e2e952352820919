use minigrep::search::regex::CompiledRegex;
use minigrep::search::{
    context_width, path_action, search_file_content, PathAction, PathKind, SearchLine,
    SearchResult,
};

#[test]
fn search_file_content_extracts_matches_with_correct_metadata() {
    let regex = CompiledRegex::new("banana").unwrap();
    let result = search_file_content(
        &regex,
        "fruits.txt".to_string(),
        "apple\nbanana\ncherry\n",
        false,
        None,
        None,
        None,
    )
    .unwrap();

    let expected = SearchResult {
        file_name: "fruits.txt".to_string(),
        lines: vec![SearchLine::Match {
            line_number: 2,
            content: "banana".to_string(),
            start: 0,
            end: 6,
        }],
    };

    assert_eq!(result, expected);
}

#[test]
fn search_file_content_uses_the_maximum_value_between_explicit_context_and_general_context() {
    let regex = CompiledRegex::new("match").unwrap();

    // context=2 dominates before_context=None and after_context=Some(1)
    let result = search_file_content(
        &regex,
        "f".to_string(),
        "line1\nline2\nmatch\nline4\nline5\n",
        false,
        None,
        Some(1),
        Some(2),
    )
    .unwrap();

    assert_eq!(result.lines.len(), 5);
    assert!(matches!(
        result.lines[0],
        SearchLine::ContextLine { line_number: 1, .. }
    ));
    assert!(matches!(
        result.lines[4],
        SearchLine::ContextLine { line_number: 5, .. }
    ));
}

#[test]
fn search_file_content_explicit_side_wins_when_larger() {
    let regex = CompiledRegex::new("match").unwrap();
    let result = search_file_content(
        &regex,
        "f".to_string(),
        "l1\nl2\nl3\nmatch\nl5",
        false,
        Some(3),
        None,
        Some(1),
    )
    .unwrap();
    let numbers: Vec<usize> = result.lines.iter().map(|l| l.get_line_number()).collect();
    assert_eq!(numbers, vec![1, 2, 3, 4, 5]);
}

#[test]
fn context_width_takes_the_larger_count() {
    assert_eq!(context_width(None, None), 0);
    assert_eq!(context_width(Some(3), None), 3);
    assert_eq!(context_width(None, Some(2)), 2);
    assert_eq!(context_width(Some(1), Some(4)), 4);
    assert_eq!(context_width(Some(5), Some(4)), 5);
}

#[test]
fn path_action_follows_kind_and_recursion() {
    assert_eq!(path_action(PathKind::File, false), PathAction::Include);
    assert_eq!(path_action(PathKind::File, true), PathAction::Include);
    assert_eq!(path_action(PathKind::Directory, true), PathAction::Walk);
    assert_eq!(path_action(PathKind::Directory, false), PathAction::ReportDirectory);
    assert_eq!(path_action(PathKind::Other, true), PathAction::Skip);
    assert_eq!(path_action(PathKind::Other, false), PathAction::Skip);
}

#[test]
fn search_file_content_reports_a_window_end_that_overflows() {
    let regex = CompiledRegex::new("b").unwrap();
    let result = search_file_content(
        &regex,
        "f".to_string(),
        "a\nb",
        false,
        None,
        Some(usize::MAX - 1),
        None,
    );
    assert_eq!(result, None);
}

#[test]
fn search_file_content_general_context_equals_explicit_maximum() {
    let regex = CompiledRegex::new("m").unwrap();
    let text = "a\nb\nm\nc\nd\ne";
    let general = search_file_content(&regex, "f".to_string(), text, false, Some(1), None, Some(2));
    let explicit =
        search_file_content(&regex, "f".to_string(), text, false, Some(2), Some(2), None);
    assert_eq!(general, explicit);
    let none = search_file_content(&regex, "f".to_string(), text, false, None, None, None);
    let zeros =
        search_file_content(&regex, "f".to_string(), text, false, Some(0), Some(0), Some(0));
    assert_eq!(none, zeros);
}
