use minigrep::search::lines::split_lines;

#[test]
fn split_lines_matches_str_lines() {
    for text in [
        "",
        "\n",
        "a",
        "a\n",
        "a\nb",
        "a\r\nb\r\n",
        "a\r",
        "a\r\r\nb",
        "\n\n",
        "é\nü\r\nß",
        "x\ry\nz",
    ] {
        let expected: Vec<&str> = text.lines().collect();
        assert_eq!(split_lines(text), expected, "text {:?}", text);
    }
}
