use sysprogs::text::{
    chomp, contains, is_whitespace, lines, parse_usize, remove_char, split, split_fields,
    to_chars, Separators,
};

fn chars(s: &str) -> Vec<char> {
    to_chars(s)
}

#[test]
fn to_chars_keeps_every_character() {
    assert_eq!(chars("héllo"), vec!['h', 'é', 'l', 'l', 'o']);
    assert_eq!(chars(""), Vec::<char>::new());
}

#[test]
fn split_matches_str_split() {
    for (s, p) in [
        ("http://host/path", "://"),
        ("a://b://c", "://"),
        ("no separator", "://"),
        ("", "/"),
        ("/a//b/", "/"),
        ("HTTP/1.1 200 OK\r\nA: b\r\n\r\nbody\r\n\r\nmore", "\r\n\r\n"),
        ("aaaa", "aa"),
    ] {
        let expected: Vec<String> = s.split(p).map(|x| x.to_string()).collect();
        assert_eq!(split(&chars(s), &chars(p)), expected, "splitting {:?} at {:?}", s, p);
    }
}

#[test]
fn fields_match_split_whitespace() {
    for s in ["  ls   -l \t /tmp\n", "", "   ", "one", "a\u{3000}b\u{85}c"] {
        let expected: Vec<String> = s.split_whitespace().map(|x| x.to_string()).collect();
        assert_eq!(split_fields(&chars(s), Separators::Whitespace), expected);
    }
    let request = "GET /index HTTP/1.1\r\nHost: x\r\n";
    let expected: Vec<String> = request
        .split(|c| c == '/' || c == ' ' || c == '\r')
        .filter(|s| !s.is_empty())
        .map(|s| s.to_string())
        .collect();
    assert_eq!(split_fields(&chars(request), Separators::RequestDelimiters), expected);
}

#[test]
fn lines_match_str_lines() {
    for s in ["", "a", "a\n", "a\nb", "a\r\nb\r\n", "\n\n", "x\r", "one\n\ntwo\n"] {
        let expected: Vec<String> = s.lines().map(|x| x.to_string()).collect();
        assert_eq!(lines(&chars(s)), expected, "lines of {:?}", s);
    }
}

#[test]
fn contains_matches_str_contains() {
    for (s, p) in [("hello world", "o w"), ("hello", "hello!"), ("abc", ""), ("", "a"), ("https", "http")] {
        assert_eq!(contains(&chars(s), &chars(p)), s.contains(p));
    }
}

#[test]
fn parse_usize_matches_str_parse() {
    for s in ["0", "42", "+7", "", "+", "-1", "12a", "007", "18446744073709551615", "18446744073709551616", "99999999999999999999999"] {
        assert_eq!(parse_usize(&chars(s)), s.parse::<usize>().ok(), "parsing {:?}", s);
    }
}

#[test]
fn remove_char_matches_replace() {
    for s in ["-10", "--w-", "abc", ""] {
        assert_eq!(remove_char(&chars(s), '-'), s.replace('-', ""));
    }
}

#[test]
fn chomp_drops_the_last_character() {
    assert_eq!(chomp(&"webget\n".to_string()), "webget");
    assert_eq!(chomp(&"ab".to_string()), "a");
    assert_eq!(chomp(&String::new()), "");
}

#[test]
fn whitespace_matches_char_is_whitespace() {
    for c in ['\t', '\n', ' ', '\u{85}', '\u{a0}', '\u{2009}', '\u{3000}', 'a', '\u{200b}', '0'] {
        assert_eq!(is_whitespace(c), c.is_whitespace());
    }
}
