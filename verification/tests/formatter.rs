use minigrep::formatter::{
    display_line, display_lines, printed_segments, DisplayLine, LineBody, Segment,
};
use minigrep::search::SearchLine;
use minigrep::search::SearchResult;
use minigrep::search::regex::CompiledRegex;
use minigrep::search::utils::search_content;

#[test]
fn display_line_splits_a_match_around_its_bytes() {
    let line = SearchLine::Match {
        line_number: 4,
        content: "héllo wörld!".to_string(),
        start: 7,
        end: 13,
    };
    assert_eq!(
        display_line(&line, "notes.txt", true, true),
        DisplayLine {
            file_name: Some("notes.txt".to_string()),
            line_number: Some(4),
            body: LineBody::Highlighted {
                before: "héllo ".to_string(),
                matched: "wörld".to_string(),
                after: "!".to_string(),
            },
        }
    );
}

#[test]
fn display_line_prints_context_lines_plainly_and_hides_what_is_not_asked() {
    let line = SearchLine::ContextLine {
        line_number: 2,
        content: "some context".to_string(),
    };
    assert_eq!(
        display_line(&line, "notes.txt", false, false),
        DisplayLine {
            file_name: None,
            line_number: None,
            body: LineBody::Plain("some context".to_string()),
        }
    );
}

#[test]
fn display_lines_lays_out_each_line_in_order() {
    let result = SearchResult {
        file_name: "a.txt".to_string(),
        lines: vec![
            SearchLine::Match {
                line_number: 1,
                content: "abc".to_string(),
                start: 0,
                end: 3,
            },
            SearchLine::ContextLine {
                line_number: 2,
                content: "def".to_string(),
            },
        ],
    };
    let shown = display_lines(&result, false, true);
    assert_eq!(
        shown,
        vec![
            DisplayLine {
                file_name: None,
                line_number: Some(1),
                body: LineBody::Highlighted {
                    before: String::new(),
                    matched: "abc".to_string(),
                    after: String::new(),
                },
            },
            DisplayLine {
                file_name: None,
                line_number: Some(2),
                body: LineBody::Plain("def".to_string()),
            },
        ]
    );
}

#[test]
fn display_of_search_output_rebuilds_each_line() {
    let content = "ünïcödé one\nplain\nörder two\n";
    let regex = CompiledRegex::new("[öü]").unwrap();
    let result = SearchResult {
        file_name: "u.txt".to_string(),
        lines: search_content(content, &regex, false, 1, 1),
    };
    let shown = display_lines(&result, true, false);
    let texts: Vec<String> = shown
        .iter()
        .map(|line| match &line.body {
            LineBody::Plain(text) => text.clone(),
            LineBody::Highlighted {
                before,
                matched,
                after,
            } => format!("{}{}{}", before, matched, after),
        })
        .collect();
    assert_eq!(texts, vec!["ünïcödé one", "plain", "örder two"]);
    assert!(matches!(
        &shown[0].body,
        LineBody::Highlighted { before, matched, .. } if before.is_empty() && matched == "ü"
    ));
    assert_eq!(shown[1].file_name, Some("u.txt".to_string()));
}

#[test]
fn printed_segments_put_separators_after_name_and_number() {
    let shown = DisplayLine {
        file_name: Some("a.txt".to_string()),
        line_number: Some(12),
        body: LineBody::Highlighted {
            before: "x".to_string(),
            matched: "yy".to_string(),
            after: "z".to_string(),
        },
    };
    assert_eq!(
        printed_segments(&shown),
        vec![
            Segment::FileName("a.txt".to_string()),
            Segment::Plain(": ".to_string()),
            Segment::LineNumber(12),
            Segment::Plain(": ".to_string()),
            Segment::Plain("x".to_string()),
            Segment::Highlight("yy".to_string()),
            Segment::Plain("z".to_string()),
        ]
    );
    let bare = DisplayLine {
        file_name: None,
        line_number: None,
        body: LineBody::Plain("ctx".to_string()),
    };
    assert_eq!(printed_segments(&bare), vec![Segment::Plain("ctx".to_string())]);
    let numbered = DisplayLine {
        file_name: None,
        line_number: Some(3),
        body: LineBody::Plain("ctx".to_string()),
    };
    assert_eq!(
        printed_segments(&numbered),
        vec![
            Segment::LineNumber(3),
            Segment::Plain(": ".to_string()),
            Segment::Plain("ctx".to_string()),
        ]
    );
}
