use wp_user_manager::text::{
    chars_eq, chars_of, decimal_string, find_char, is_whitespace, key_less, push_str, slice_chars, split_lines,
    split_tokens, str_eq, string_of, text_of_line, trim_chars,
};

fn lines_of(s: &str) -> Vec<String> {
    split_lines(s).iter().map(|l| l.iter().collect()).collect()
}

fn tokens_of(s: &str) -> Vec<String> {
    let v: Vec<char> = s.chars().collect();
    split_tokens(&v).iter().map(|t| t.iter().collect()).collect()
}

#[test]
fn whitespace_agrees_with_std() {
    for n in 0u32..0x3100 {
        if let Some(c) = char::from_u32(n) {
            assert_eq!(is_whitespace(c), c.is_whitespace(), "U+{n:04X}");
        }
    }
}

#[test]
fn lines_agree_with_std() {
    let samples = [
        "",
        "a",
        "a\n",
        "a\nb",
        "a\r\nb\r\n",
        "\n\n",
        "a\r",
        "x\ry\n",
        "\r\n",
        "one\n\ntwo\n",
    ];
    for s in samples {
        let expected: Vec<String> = s.lines().map(|l| l.to_string()).collect();
        assert_eq!(lines_of(s), expected, "{s:?}");
    }
}

#[test]
fn tokens_split_on_commas_semicolons_and_blanks() {
    assert_eq!(tokens_of("a@x.com, b@y.com;c@z.com\td@w.com"), vec![
        "a@x.com", "b@y.com", "c@z.com", "d@w.com"
    ]);
    assert!(tokens_of(" ,; ").is_empty());
}

#[test]
fn text_of_line_drops_comments_and_blanks() {
    let line: Vec<char> = "  a@x.com  # note".chars().collect();
    assert_eq!(text_of_line(&line).iter().collect::<String>(), "a@x.com");
    let line: Vec<char> = "# only a comment".chars().collect();
    assert!(text_of_line(&line).is_empty());
}

#[test]
fn trimming_matches_str_trim() {
    for s in ["", "  ", " a ", "\u{3000}b\u{a0}", "c"] {
        let v: Vec<char> = s.chars().collect();
        assert_eq!(trim_chars(&v).iter().collect::<String>(), s.trim());
    }
}

#[test]
fn small_helpers() {
    let v = chars_of("héllo");
    assert_eq!(v.len(), 5);
    assert_eq!(string_of(&v), "héllo");
    assert_eq!(find_char(&v, 'l'), 2);
    assert_eq!(find_char(&v, 'z'), 5);
    assert_eq!(string_of(&slice_chars(&v, 1, 3)), "él");
    let mut s = String::from("ab");
    push_str(&mut s, "cd");
    assert_eq!(s, "abcd");
    assert!(str_eq("x", "x"));
    assert!(!str_eq("x", "X"));
    assert!(chars_eq(&['a'], &['a']));
    assert!(!chars_eq(&['a'], &['a', 'b']));
}

#[test]
fn key_order_is_string_order() {
    let pairs = [("a", "b"), ("a", "ab"), ("", "a"), ("b", "a"), ("a", "a"), ("é", "z")];
    for (a, b) in pairs {
        let va: Vec<char> = a.chars().collect();
        let vb: Vec<char> = b.chars().collect();
        assert_eq!(key_less(&va, &vb), a < b, "{a:?} < {b:?}");
    }
}

#[test]
fn decimal_string_writes_the_number() {
    assert_eq!(decimal_string(0), "0");
    assert_eq!(decimal_string(7), "7");
    assert_eq!(decimal_string(1000), "1000");
    assert_eq!(decimal_string(u64::MAX), u64::MAX.to_string());
}
