use build_analyzer::text::{next_line, remove_all_of, str_chars, str_eq};

fn lines_by_library(text: &str) -> Vec<String> {
    let chars = str_chars(text);
    let mut out = Vec::new();
    let mut pos = 0;
    while pos < chars.len() {
        let (end, next) = next_line(&chars, pos);
        out.push(chars[pos..end].iter().collect());
        pos = next;
    }
    out
}

#[test]
fn lines_split_like_str_lines() {
    for text in [
        "",
        "a",
        "a\n",
        "a\nb",
        "a\r\nb\r\n",
        "\n\n",
        "a\rb\n",
        "x\r",
        "\r\n",
        "one\ntwo\r\n\r\nthree",
    ] {
        let expected: Vec<String> = text.lines().map(|l| l.to_string()).collect();
        assert_eq!(lines_by_library(text), expected, "text {text:?}");
    }
}

#[test]
fn remove_all_matches_str_replace() {
    for (s, pat) in [
        ("/p/src/main", "/p/"),
        ("aaaa", "aa"),
        ("aaa", "aa"),
        ("abcabc", "bc"),
        ("abc", ""),
        ("", "x"),
        ("/p//p/x", "/p/"),
    ] {
        let r: String = remove_all_of(&str_chars(s), &str_chars(pat)).into_iter().collect();
        assert_eq!(r, s.replace(pat, ""), "{s:?} without {pat:?}");
    }
}

#[test]
fn str_eq_compares_characters() {
    assert!(str_eq("abc", "abc"));
    assert!(!str_eq("abc", "abd"));
    assert!(!str_eq("abc", "ab"));
    assert!(str_eq("", ""));
}
