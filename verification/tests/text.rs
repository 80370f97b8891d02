use selva::text::{chars_of, contains, line_end, matches_at, push_range, split_lines, string_of};

fn chars(s: &str) -> Vec<char> {
    s.chars().collect()
}

fn lines_of(s: &str) -> Vec<String> {
    split_lines(&chars(s)).iter().map(|line| line.iter().collect()).collect()
}

const SAMPLES: [&str; 18] = [
    "",
    "a",
    "a\n",
    "a\r\n",
    "a\r",
    "\n",
    "\r\n",
    "\r",
    "\n\n",
    "a\n\nb",
    "a\r\r\n",
    "a\rb\n",
    "one\ntwo\nthree",
    "one\r\ntwo\r\nthree\r\n",
    "#version 150\nvoid main() {}\n",
    "\u{e9}t\u{e9}\n\u{1f600}\r\nz",
    "\n\nx\n\n",
    "a\n\r",
];

#[test]
fn characters_come_in_order() {
    assert_eq!(chars_of("h\u{e9}llo\n"), vec!['h', '\u{e9}', 'l', 'l', 'o', '\n']);
    assert_eq!(chars_of(""), Vec::<char>::new());
}

#[test]
fn string_holds_the_characters() {
    assert_eq!(string_of(&vec!['a', '\u{1f600}', '\n', 'b']), "a\u{1f600}\nb");
    assert_eq!(string_of(&Vec::new()), "");
}

#[test]
fn characters_and_back_is_the_same_text() {
    for sample in SAMPLES {
        assert_eq!(string_of(&chars_of(sample)), sample);
    }
}

#[test]
fn range_is_appended() {
    let mut out = vec!['x'];
    push_range(&mut out, &chars("abcdef"), 2, 5);
    assert_eq!(out, vec!['x', 'c', 'd', 'e']);
    push_range(&mut out, &chars("abcdef"), 3, 3);
    assert_eq!(out, vec!['x', 'c', 'd', 'e']);
}

#[test]
fn lines_are_those_of_the_standard_library() {
    for sample in SAMPLES {
        let expected: Vec<String> = sample.lines().map(|line| line.to_string()).collect();
        assert_eq!(lines_of(sample), expected, "text {:?}", sample);
    }
}

#[test]
fn empty_text_has_no_line() {
    assert_eq!(lines_of(""), Vec::<String>::new());
}

#[test]
fn carriage_return_goes_with_line_feed_only() {
    assert_eq!(lines_of("a\r\nb\r"), vec!["a".to_string(), "b\r".to_string()]);
    assert_eq!(lines_of("a\r\r\n"), vec!["a\r".to_string()]);
}

#[test]
fn last_line_feed_starts_no_line() {
    assert_eq!(lines_of("a\nb\n"), vec!["a".to_string(), "b".to_string()]);
    assert_eq!(lines_of("a\n\n"), vec!["a".to_string(), "".to_string()]);
}

#[test]
fn line_ends_at_line_feed_or_end() {
    let text = chars("ab\ncd");
    assert_eq!(line_end(&text, 0), 2);
    assert_eq!(line_end(&text, 2), 2);
    assert_eq!(line_end(&text, 3), 5);
    assert_eq!(line_end(&text, 5), 5);
}

#[test]
fn pattern_is_found_where_it_stands() {
    let text = chars("void mainImage(out vec4 c)");
    assert!(matches_at(&text, &chars("main"), 5));
    assert!(!matches_at(&text, &chars("main"), 4));
    assert!(matches_at(&text, &chars(""), 26));
}

#[test]
fn search_is_that_of_the_standard_library() {
    let patterns = ["", "a", "\n", "\r\n", "one", "three", "void main", "main() {}\n", "x\n\n", "zz"];
    for sample in SAMPLES {
        for pattern in patterns {
            assert_eq!(
                contains(&chars(sample), &chars(pattern)),
                sample.contains(pattern),
                "text {:?} pattern {:?}",
                sample,
                pattern
            );
        }
    }
}

#[test]
fn pattern_at_the_very_end_is_found() {
    assert!(contains(&chars("abc"), &chars("bc")));
    assert!(contains(&chars("abc"), &chars("abc")));
    assert!(!contains(&chars("abc"), &chars("abcd")));
    assert!(!contains(&chars("abc"), &chars("cb")));
}
