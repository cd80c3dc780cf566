use iprint::indent;

fn by_std_lines(text: &str, width: usize) -> String {
    text.lines()
        .map(|line| format!("{:width$}{}", "", line, width = width))
        .collect::<Vec<_>>()
        .join("\n")
}

#[test]
fn one_line_at_depth_zero_is_unchanged() {
    assert_eq!(indent::format("level1", 0, 4), "level1");
}

#[test]
fn one_line_is_prefixed() {
    assert_eq!(indent::format("level2", 1, 4), "    level2");
    assert_eq!(indent::format("x", 3, 4), "            x");
}

#[test]
fn width_is_depth_times_indent_width() {
    assert_eq!(indent::format("x", 2, 3), "      x");
    assert_eq!(indent::format("x", 3, 2), "      x");
    assert_eq!(indent::format("x", 5, 1), "     x");
    assert_eq!(indent::format("x", 1, 5), "     x");
    assert_eq!(indent::format("x", 7, 0), "x");
    assert_eq!(indent::format("x", 0, 7), "x");
}

#[test]
fn every_line_is_prefixed() {
    assert_eq!(indent::format("a\nb\nc", 1, 2), "  a\n  b\n  c");
}

#[test]
fn empty_text_stays_empty() {
    assert_eq!(indent::format("", 0, 4), "");
    assert_eq!(indent::format("", 3, 4), "");
}

#[test]
fn line_ending_at_the_end_is_not_written() {
    assert_eq!(indent::format("a\n", 1, 4), "    a");
    assert_eq!(indent::format("a\nb\n", 1, 1), " a\n b");
    assert_eq!(indent::format("a\r\n", 1, 1), " a");
}

#[test]
fn empty_lines_are_indented_too() {
    assert_eq!(indent::format("a\n\nb", 1, 2), "  a\n  \n  b");
    assert_eq!(indent::format("\n", 1, 2), "  ");
    assert_eq!(indent::format("\n\n", 1, 2), "  \n  ");
    assert_eq!(indent::format("\na", 1, 2), "  \n  a");
}

#[test]
fn empty_lines_without_indent() {
    assert_eq!(indent::format("\n", 0, 4), "");
    assert_eq!(indent::format("\n\n", 0, 4), "\n");
    assert_eq!(indent::format("a\n\n", 0, 4), "a\n");
}

#[test]
fn carriage_return_of_a_line_ending_is_dropped() {
    assert_eq!(indent::format("a\r\nb", 1, 1), " a\n b");
    assert_eq!(indent::format("a\r\nb\r\n", 0, 4), "a\nb");
    assert_eq!(indent::format("\r\n", 1, 1), " ");
}

#[test]
fn other_carriage_returns_stay() {
    assert_eq!(indent::format("a\rb", 1, 1), " a\rb");
    assert_eq!(indent::format("a\r", 1, 1), " a\r");
    assert_eq!(indent::format("\r", 1, 1), " \r");
    assert_eq!(indent::format("a\r\r\nb", 1, 1), " a\r\n b");
    assert_eq!(indent::format("\r\r", 0, 1), "\r\r");
    assert_eq!(indent::format("a\n\rb", 1, 1), " a\n \rb");
}

#[test]
fn characters_beyond_ascii_are_kept() {
    assert_eq!(indent::format("é\nλx\n—", 1, 2), "  é\n  λx\n  —");
    assert_eq!(indent::format("日本\r\n語", 1, 1), " 日本\n 語");
}

#[test]
fn spaces_and_tabs_in_the_text_are_kept() {
    assert_eq!(indent::format("  a \n\tb", 1, 2), "    a \n  \tb");
}

#[test]
fn agrees_with_std_lines() {
    let texts = [
        "",
        "a",
        "a\n",
        "\n",
        "\n\n",
        "\r",
        "\r\n",
        "\r\r\n",
        "\n\r",
        "a\r",
        "a\r\nb",
        "a\r\r\nb\r",
        "a\n\nb\n",
        "one\ntwo\r\nthree\n\r\nfour\r",
        "\n\n\na\n\n\n",
        " \n \n",
        "é\r\n—\n",
    ];
    for text in texts {
        for width in 0..4 {
            assert_eq!(indent::format(text, width, 1), by_std_lines(text, width), "{:?}", text);
            assert_eq!(indent::format(text, 1, width), by_std_lines(text, width), "{:?}", text);
            assert_eq!(
                indent::format(text, 2, width),
                by_std_lines(text, 2 * width),
                "{:?}",
                text
            );
        }
    }
}

#[test]
fn lines_are_preserved() {
    let texts = ["a", "a\nb", "a\n\nb", "first\r\nsecond\nthird", "x\n", "tail\r", "\n\nq"];
    for text in texts {
        for depth in 0..3 {
            let out = indent::format(text, depth, 4);
            let before: Vec<&str> = text.lines().collect();
            let after: Vec<&str> = out.lines().collect();
            assert_eq!(before.len(), after.len());
            for (old, new) in before.iter().zip(after.iter()) {
                assert_eq!(*new, format!("{}{}", " ".repeat(4 * depth), old));
            }
        }
    }
}

#[test]
fn lines_are_preserved_with_indent_when_the_last_is_empty() {
    let out = indent::format("a\n\n", 1, 4);
    assert_eq!(out, "    a\n    ");
    assert_eq!(out.lines().count(), 2);
}

#[test]
fn long_text_and_deep_indent() {
    let text = "line\n".repeat(1000);
    let out = indent::format(&text, 25, 4);
    assert_eq!(out.len(), 1000 * (100 + 4) + 999);
    assert!(out.lines().all(|line| line.len() == 104 && line.ends_with("line")));
}
