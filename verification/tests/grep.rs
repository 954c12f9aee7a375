use tomloper::grep::{find_matches, stretch_contains};
use tomloper::text::chars_of;

#[test]
fn find_a_match() {
    let result = find_matches("lorem ipsum\ndolor sit amet", "lorem");
    assert_eq!(result.as_bytes(), b"lorem ipsum\n");
}

#[test]
fn matches_keep_their_order() {
    let content = "one fish\ntwo fish\nred herring\nblue fish\n";
    assert_eq!(find_matches(content, "fish"), "one fish\ntwo fish\nblue fish\n");
    assert_eq!(find_matches(content, "red"), "red herring\n");
    assert_eq!(find_matches(content, "whale"), "");
}

#[test]
fn line_endings() {
    // a carriage return before the line feed goes with the line feed
    assert_eq!(find_matches("ab\r\ncd\r\n", "b"), "ab\n");
    assert_eq!(find_matches("ab\r\ncd\r\n", "\r"), "");
    // a carriage return that ends the text stays
    assert_eq!(find_matches("ab\ncd\r", "d"), "cd\r\n");
    // nothing follows the last line feed: no empty last line
    assert_eq!(find_matches("a\n", ""), "a\n");
    assert_eq!(find_matches("a\n\n", ""), "a\n\n");
    assert_eq!(find_matches("", ""), "");
    assert_eq!(find_matches("\n", ""), "\n");
    assert_eq!(find_matches("\r\n", ""), "\n");
}

#[test]
fn agrees_with_lines_and_contains() {
    let contents = ["", "a", "a\nb", "a\r\nb\n", "\n\nx\n", "h\u{e9}llo w\u{f6}rld\nfoo\r", "aXbXc\nXX\n"];
    let patterns = ["", "a", "X", "XX", "\u{e9}l", "foo\r", "\n"];
    for content in contents {
        for pattern in patterns {
            let mut expected = String::new();
            for line in content.lines() {
                if line.contains(pattern) {
                    expected.push_str(line);
                    expected.push('\n');
                }
            }
            assert_eq!(find_matches(content, pattern), expected);
        }
    }
}

#[test]
fn pattern_in_a_stretch() {
    let text = chars_of("hello world");
    assert_eq!(text, vec!['h', 'e', 'l', 'l', 'o', ' ', 'w', 'o', 'r', 'l', 'd']);
    assert!(stretch_contains(&text, 0, 11, &chars_of("o w")));
    assert!(stretch_contains(&text, 0, 11, &chars_of("world")));
    assert!(!stretch_contains(&text, 0, 10, &chars_of("world")));
    assert!(!stretch_contains(&text, 1, 11, &chars_of("hello")));
    assert!(stretch_contains(&text, 3, 3, &chars_of("")));
    assert!(!stretch_contains(&text, 3, 3, &chars_of("l")));
    assert!(!stretch_contains(&text, 0, 11, &chars_of("hello world!")));
}
