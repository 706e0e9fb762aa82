use nwn::text::{
    chars_of, decimal_of, file_extension, is_blank, lines, parent_dir, replaced, same_chars,
    string_of, without_quotes,
};
use std::path::Path;

#[test]
fn characters_make_up_a_string_again() {
    let chars = chars_of("héllo\n");
    assert_eq!(chars, vec!['h', 'é', 'l', 'l', 'o', '\n']);
    assert_eq!(string_of(&chars, 1, 4), "éll");
    assert_eq!(string_of(&chars, 2, 2), "");
    assert!(same_chars(&chars, &chars_of("héllo\n")));
    assert!(!same_chars(&chars, &chars_of("héllo")));
    assert!(!same_chars(&chars, &chars_of("hállo\n")));
}

#[test]
fn lines_are_split_like_those_of_str() {
    let samples = [
        "", "\n", "\n\n", "a", "a\n", "a\r\n", "a\rb\n", "a\r", "a\r\r\n", "\r\n", "a\nb\r\n\nc",
        "x\u{b}y\u{85}z",
    ];
    for sample in samples {
        let expected: Vec<String> = sample.lines().map(|l| l.to_string()).collect();
        assert_eq!(lines(sample), expected, "{:?}", sample);
    }
    assert_eq!(lines("a\r\nb\n\nc\r"), vec!["a", "b", "", "c\r"]);
}

#[test]
fn quotes_are_trimmed_like_trim_matches() {
    for sample in ["", "\"", "\"\"", "a", "\"a\"", "\"\"a\"b\"\"\"", "\\\"a", " \"a\" "] {
        assert_eq!(without_quotes(sample), sample.trim_matches('"'), "{:?}", sample);
    }
    assert_eq!(without_quotes("\"say \\\"hi\\\"\""), "say \\\"hi\\");
}

#[test]
fn patterns_are_replaced_like_str_replace() {
    let cases = [
        ("", "{runtimes}", "/x"),
        ("{runtimes}/py.sh", "{runtimes}", "/home/me"),
        ("{runtimes}{runtimes}", "{runtimes}", ""),
        ("{run{runtimes}times}", "{runtimes}", ""),
        ("no place", "{runtimes}", "/x"),
        ("aaaa", "aa", "b"),
        ("aaa", "aa", "a"),
        ("{runtimes", "{runtimes}", "/x"),
    ];
    for (text, pattern, with) in cases {
        assert_eq!(replaced(text, pattern, with), text.replace(pattern, with), "{:?}", text);
    }
    assert_eq!(replaced("{runtimes}/py.sh", "{runtimes}", "/home/me"), "/home/me/py.sh");
}

#[test]
fn extensions_are_those_of_paths() {
    let samples = [
        "", "/", "//", ".", "..", "./", "../", "/.", "/..", "/a", "/a.py", "/a.py/", "/a.py/.",
        "/a.py/./", "/a.py//", "/a.py/..", "a.b.c", "a.", ".a", ".a.b", "...", "..a", "/a.d/b",
        "/a.d/b.", "a/.b", "./x.rs", "/home/me/no te.ipy", "é.ü", "/a/b./..c",
    ];
    for sample in samples {
        let expected = Path::new(sample)
            .extension()
            .map(|ext| ext.to_string_lossy().to_string());
        assert_eq!(file_extension(sample), expected, "{:?}", sample);
    }
    assert_eq!(file_extension("/src/main.py"), Some("py".to_string()));
    assert_eq!(file_extension("/src/.bashrc"), None);
}

#[test]
fn blanks_are_those_of_trim() {
    for code in 0u32..0x110000 {
        if let Some(c) = char::from_u32(code) {
            assert_eq!(is_blank(&c.to_string()), c.is_whitespace(), "{:x}", code);
        }
    }
    assert!(is_blank(""));
    assert!(is_blank(" \t\r\n"));
    assert!(!is_blank(" x "));
}

#[test]
fn numbers_are_written_in_decimal() {
    for n in [0u128, 1, 9, 10, 99, 100, 1_605_000_000_123, u128::MAX] {
        assert_eq!(decimal_of(n), n.to_string());
    }
}

#[test]
fn directories_are_those_of_paths() {
    for path in [
        "", "/", "//", ".", "./", "..", "a", "/a", "a/b", "./.nwn.json", "/home/me/.nwn.json",
        "a/", "a//", "/a/b/", "a/.", "a/./b", "a//b", "//a", "/./a", ".//a", "a/..", "../a",
        "/.", "./.", "a/b/.", ".a", "a/.b", "a./b", "/a/.//.", "a/.../b", ".//.", "é/ü",
    ] {
        let expected = Path::new(path).parent().map(|p| p.to_str().unwrap().to_string());
        assert_eq!(parent_dir(path), expected, "{:?}", path);
    }
}
