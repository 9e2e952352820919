use minigrep::search::regex::CompiledRegex;
use minigrep::search::utils::{
    calculate_merged_ranges, search_content, search_content_checked, search_lines, SearchLine,
};

const TOTAL_LINES: usize = 6;

#[test]
fn calculate_merged_ranges_should_return_individual_ranges_when_no_context_and_no_overlap() {
    let match_indices = vec![1, 3, 5];
    let after = 0;
    let before = 0;

    let expected_res = vec![(1, 2), (3, 4), (5, 6)];

    assert_eq!(
        calculate_merged_ranges(&match_indices, TOTAL_LINES, before, after),
        expected_res
    );
}

#[test]
fn calculate_merged_ranges_should_merge_adjacent_indices_when_no_context() {
    let match_indices = vec![1, 2, 5];
    let after = 0;
    let before = 0;

    let expected_res = vec![(1, 3), (5, 6)];

    assert_eq!(
        calculate_merged_ranges(&match_indices, TOTAL_LINES, before, after),
        expected_res
    );
}

#[test]
fn calculate_merged_ranges_should_expand_ranges_by_context_without_merging() {
    let match_indices = vec![1, 5];
    let after = 1;
    let before = 1;

    let expected_res = vec![(0, 3), (4, 6)];

    assert_eq!(
        calculate_merged_ranges(&match_indices, TOTAL_LINES, before, after),
        expected_res
    );
}

#[test]
fn calculate_merged_ranges_should_merge_into_single_range_when_context_overlaps() {
    let match_indices = vec![1, 4];
    let after = 1;
    let before = 1;

    let expected_res = vec![(0, 6)];

    assert_eq!(
        calculate_merged_ranges(&match_indices, TOTAL_LINES, before, after),
        expected_res
    );
}

#[test]
fn calculate_merged_ranges_no_match_index() {
    let match_indices = vec![];
    let after = 1;
    let before = 1;

    let expected_res: Vec<(usize, usize)> = vec![];

    assert_eq!(
        calculate_merged_ranges(&match_indices, TOTAL_LINES, before, after),
        expected_res
    );
}

#[test]
fn calculate_merged_ranges_clamps_windows_to_the_text() {
    assert_eq!(calculate_merged_ranges(&[0, 5], TOTAL_LINES, 3, 3), vec![(0, 6)]);
    assert_eq!(calculate_merged_ranges(&[0], TOTAL_LINES, 10, 10), vec![(0, 6)]);
}

#[test]
fn calculate_merged_ranges_merges_touching_windows() {
    // The window of line 3 starts right where the one of line 1 ends.
    assert_eq!(calculate_merged_ranges(&[1, 3], TOTAL_LINES, 1, 0), vec![(0, 4)]);
}

#[test]
fn search_content_should_return_exact_match_bounds_when_no_context_requested() {
    let content = "apple\nbanana\ncherry";
    let regex = CompiledRegex::new("anana").unwrap();

    let result = search_content(content, &regex, false, 0, 0);

    let expected = vec![SearchLine::Match {
        line_number: 2,
        content: "banana".to_string(),
        start: 1,
        end: 6,
    }];

    assert_eq!(result, expected);
}

#[test]
fn search_content_should_include_context_lines_when_before_and_after_are_set() {
    let content = "line1\nline2\nmatch_here\nline4\nline5";
    let regex = CompiledRegex::new("match").unwrap();

    // Request 1 line before and 1 line after
    let result = search_content(content, &regex, false, 1, 1);

    let expected = vec![
        SearchLine::ContextLine {
            line_number: 2,
            content: "line2".to_string(),
        },
        SearchLine::Match {
            line_number: 3,
            content: "match_here".to_string(),
            start: 0,
            end: 5,
        },
        SearchLine::ContextLine {
            line_number: 4,
            content: "line4".to_string(),
        },
    ];

    assert_eq!(result, expected);
}

#[test]
fn search_content_should_invert_matches_when_invert_match_is_true() {
    let content = "apple\nbanana";
    let regex = CompiledRegex::new("apple").unwrap();

    // Look for lines that DO NOT match "apple"
    let result = search_content(content, &regex, true, 0, 0);

    let expected = vec![SearchLine::Match {
        line_number: 2,
        content: "banana".to_string(),
        start: 0,
        end: 6,
    }];

    assert_eq!(result, expected);
}

#[test]
fn search_content_should_handle_overlapping_contexts_gracefully() {
    let content = "match1\ncontext\nmatch2";
    let regex = CompiledRegex::new("match").unwrap();

    // Context overlap! Both matches want line 2 as context.
    let result = search_content(content, &regex, false, 1, 1);

    let expected = vec![
        SearchLine::Match {
            line_number: 1,
            content: "match1".to_string(),
            start: 0,
            end: 5,
        },
        SearchLine::ContextLine {
            line_number: 2,
            content: "context".to_string(),
        },
        SearchLine::Match {
            line_number: 3,
            content: "match2".to_string(),
            start: 0,
            end: 5,
        },
    ];

    assert_eq!(result, expected);
}

#[test]
fn search_content_reports_byte_offsets_and_whole_line_byte_length() {
    let content = "héllo wörld\nnothing";
    let regex = CompiledRegex::new("wörld").unwrap();
    assert_eq!(
        search_content(content, &regex, false, 0, 0),
        vec![SearchLine::Match {
            line_number: 1,
            content: "héllo wörld".to_string(),
            start: 7,
            end: 13,
        }]
    );
    // Inverted, the whole line is reported, by its length in bytes.
    assert_eq!(
        search_content("añb\nzzz", &CompiledRegex::new("z").unwrap(), true, 0, 0),
        vec![SearchLine::Match {
            line_number: 1,
            content: "añb".to_string(),
            start: 0,
            end: 4,
        }]
    );
}

#[test]
fn search_content_strips_carriage_returns_and_ignores_final_newline() {
    let content = "one\r\ntwo\r\n";
    let regex = CompiledRegex::new("o$").unwrap();
    assert_eq!(
        search_content(content, &regex, false, 0, 0),
        vec![SearchLine::Match {
            line_number: 2,
            content: "two".to_string(),
            start: 2,
            end: 3,
        }]
    );
}

#[test]
fn search_content_on_empty_text_finds_nothing() {
    let regex = CompiledRegex::new("").unwrap();
    assert_eq!(search_content("", &regex, false, 2, 2), vec![]);
    assert_eq!(search_content("", &regex, true, 2, 2), vec![]);
}

#[test]
fn search_content_with_no_match_returns_nothing_even_with_context() {
    let regex = CompiledRegex::new("xyz").unwrap();
    assert_eq!(search_content("a\nb\nc", &regex, false, 5, 5), vec![]);
}

#[test]
fn search_content_without_context_and_inverted_split_the_lines() {
    let content = "a1\nb\nc2\nd";
    let regex = CompiledRegex::new(r"\d").unwrap();
    let matching: Vec<usize> = search_content(content, &regex, false, 0, 0)
        .iter()
        .map(|line| line.get_line_number())
        .collect();
    let not_matching: Vec<usize> = search_content(content, &regex, true, 0, 0)
        .iter()
        .map(|line| line.get_line_number())
        .collect();
    assert_eq!(matching, vec![1, 3]);
    assert_eq!(not_matching, vec![2, 4]);
}

#[test]
fn search_lines_uses_the_given_matches() {
    let lines = vec!["alpha", "beta", "gamma", "delta"];
    let found = vec![None, Some((1, 3)), None, None];
    assert_eq!(
        search_lines(&lines, &found, false, 0, 1),
        vec![
            SearchLine::Match {
                line_number: 2,
                content: "beta".to_string(),
                start: 1,
                end: 3,
            },
            SearchLine::ContextLine {
                line_number: 3,
                content: "gamma".to_string(),
            },
        ]
    );
    assert_eq!(
        search_lines(&lines, &found, true, 0, 0),
        vec![
            SearchLine::Match {
                line_number: 1,
                content: "alpha".to_string(),
                start: 0,
                end: 5,
            },
            SearchLine::Match {
                line_number: 3,
                content: "gamma".to_string(),
                start: 0,
                end: 5,
            },
            SearchLine::Match {
                line_number: 4,
                content: "delta".to_string(),
                start: 0,
                end: 5,
            },
        ]
    );
}

#[test]
fn get_line_number_reads_either_variant() {
    let context = SearchLine::ContextLine {
        line_number: 7,
        content: "x".to_string(),
    };
    let matched = SearchLine::Match {
        line_number: 9,
        content: "y".to_string(),
        start: 0,
        end: 1,
    };
    assert_eq!(context.get_line_number(), 7);
    assert_eq!(matched.get_line_number(), 9);
}

#[test]
fn search_content_checked_gives_none_only_when_a_window_end_overflows() {
    let content = "a\nb";
    let on_b = CompiledRegex::new("b").unwrap();
    assert_eq!(search_content_checked(content, &on_b, false, 0, usize::MAX - 1), None);
    assert_eq!(search_content_checked(content, &on_b, false, 0, usize::MAX - 2).map(|r| r.len()), Some(1));
    let on_a = CompiledRegex::new("a").unwrap();
    assert_eq!(
        search_content_checked(content, &on_a, false, 0, usize::MAX - 1),
        Some(vec![
            SearchLine::Match {
                line_number: 1,
                content: "a".to_string(),
                start: 0,
                end: 1,
            },
            SearchLine::ContextLine {
                line_number: 2,
                content: "b".to_string(),
            },
        ])
    );
    let on_nothing = CompiledRegex::new("z").unwrap();
    assert_eq!(search_content_checked(content, &on_nothing, false, 0, usize::MAX), Some(vec![]));
}

#[test]
fn search_content_plain_and_inverted_counts_add_up_to_the_line_count() {
    let content = "x1\ny\nx2\nz\n\nx3";
    let regex = CompiledRegex::new("x").unwrap();
    let plain = search_content(content, &regex, false, 0, 0);
    let inverted = search_content(content, &regex, true, 0, 0);
    assert_eq!(plain.len() + inverted.len(), content.lines().count());
    assert_eq!(plain.len(), 3);
}

#[test]
fn search_content_more_context_keeps_the_same_matches() {
    let content = "a\nm1\nb\nc\nd\nm2\ne";
    let regex = CompiledRegex::new("m").unwrap();
    let narrow = search_content(content, &regex, false, 0, 1);
    let wide = search_content(content, &regex, false, 2, 2);
    let matches_of = |out: &Vec<SearchLine>| -> Vec<SearchLine> {
        out.iter()
            .filter(|l| matches!(l, SearchLine::Match { .. }))
            .map(|l| match l {
                SearchLine::Match {
                    line_number,
                    content,
                    start,
                    end,
                } => SearchLine::Match {
                    line_number: *line_number,
                    content: content.clone(),
                    start: *start,
                    end: *end,
                },
                SearchLine::ContextLine { .. } => unreachable!(),
            })
            .collect()
    };
    assert_eq!(matches_of(&narrow), matches_of(&wide));
    let wide_numbers: Vec<usize> = wide.iter().map(|l| l.get_line_number()).collect();
    for line in &narrow {
        assert!(wide_numbers.contains(&line.get_line_number()));
    }
    assert_eq!(wide_numbers, vec![1, 2, 3, 4, 5, 6, 7]);
}
