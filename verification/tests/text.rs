use job_names::text::{
    append, chars_of, find_in, has_prefix, is_space, join_with, matches_at, replace_all,
    split_at_matches, string_of, trimmed,
};

fn chars(s: &str) -> Vec<char> {
    s.chars().collect()
}

fn text(v: &[char]) -> String {
    v.iter().collect()
}

fn parts(s: &str, pat: &str) -> Vec<String> {
    split_at_matches(&chars(s), &chars(pat))
        .iter()
        .map(|p| text(p))
        .collect()
}

#[test]
fn whitespace_is_the_unicode_property() {
    for code in 0..=0x10ffffu32 {
        if let Some(c) = char::from_u32(code) {
            assert_eq!(is_space(c), c.is_whitespace(), "U+{code:04X}");
        }
    }
}

#[test]
fn chars_of_gives_every_character_in_order() {
    assert_eq!(chars_of("a${é "), vec!['a', '$', '{', 'é', ' ']);
    assert_eq!(chars_of(""), Vec::<char>::new());
}

#[test]
fn string_of_gives_the_characters_back() {
    assert_eq!(string_of(&vec!['n', 'i', 'x', ' ', 'ü']), "nix ü");
    assert_eq!(string_of(&Vec::new()), "");
    assert_eq!(string_of(&chars_of("cargo clippy")), "cargo clippy");
}

#[test]
fn append_puts_the_source_behind() {
    let mut dst = chars("ab");
    append(&mut dst, &chars("cd"));
    assert_eq!(text(&dst), "abcd");
    append(&mut dst, &chars(""));
    assert_eq!(text(&dst), "abcd");
}

#[test]
fn matches_at_compares_in_place() {
    let s = chars("a}}b");
    let pat = chars("}}");
    assert!(!matches_at(&s, &pat, 0));
    assert!(matches_at(&s, &pat, 1));
    assert!(!matches_at(&s, &pat, 2));
    assert!(!matches_at(&s, &pat, 3));
    assert!(!matches_at(&s, &pat, 4));
    assert!(!matches_at(&s, &pat, usize::MAX));
    assert!(matches_at(&s, &chars(""), 4));
    assert!(!matches_at(&s, &chars(""), 5));
    assert!(!matches_at(&chars("}"), &pat, 0));
}

#[test]
fn find_in_gives_the_first_match() {
    let s = chars("x}}y}}");
    let pat = chars("}}");
    assert_eq!(find_in(&s, &pat, 0), Some(1));
    assert_eq!(find_in(&s, &pat, 1), Some(1));
    assert_eq!(find_in(&s, &pat, 2), Some(4));
    assert_eq!(find_in(&s, &pat, 5), None);
    assert_eq!(find_in(&s, &pat, 100), None);
    assert_eq!(find_in(&chars("}"), &pat, 0), None);
    assert_eq!(find_in(&chars(""), &pat, 0), None);
    assert_eq!(find_in(&chars("}}}"), &pat, 0), Some(0));
}

#[test]
fn split_agrees_with_the_standard_library() {
    let cases = [
        ("", "${{"),
        ("abc", "${{"),
        ("${{", "${{"),
        ("a${{b${{c", "${{"),
        ("${{${{", "${{"),
        ("$${{{{", "${{"),
        ("a  b   c    d", "  "),
        ("}}}", "}}"),
        ("x", "xyz"),
    ];
    for (s, pat) in cases {
        let expected: Vec<String> = s.split(pat).map(String::from).collect();
        assert_eq!(parts(s, pat), expected, "{s:?} at {pat:?}");
    }
}

#[test]
fn split_by_the_empty_pattern_splits_nothing() {
    assert_eq!(parts("abc", ""), vec!["abc"]);
    assert_eq!(parts("", ""), vec![""]);
}

#[test]
fn join_puts_the_separator_between_neighbours() {
    let sep = chars(", ");
    assert_eq!(text(&join_with(&vec![], &sep)), "");
    assert_eq!(text(&join_with(&vec![chars("a")], &sep)), "a");
    assert_eq!(
        text(&join_with(&vec![chars("a"), chars(""), chars("c")], &sep)),
        "a, , c"
    );
}

#[test]
fn replace_agrees_with_the_standard_library() {
    let cases = ["", " ", "  ", "   ", "    ", "a  b", "a   b", "a    b", "  a  ", "a b c"];
    for s in cases {
        let got = text(&replace_all(&chars(s), &chars("  "), &chars(" ")));
        assert_eq!(got, s.replace("  ", " "), "{s:?}");
    }
    assert_eq!(
        text(&replace_all(&chars("a-b-c"), &chars("-"), &chars("+++"))),
        "a+++b+++c"
    );
}

#[test]
fn replace_is_one_pass() {
    assert_eq!(
        text(&replace_all(&chars("a   b"), &chars("  "), &chars(" "))),
        "a  b"
    );
    assert_eq!(
        text(&replace_all(&chars("a    b"), &chars("  "), &chars(" "))),
        "a  b"
    );
}

#[test]
fn trim_agrees_with_the_standard_library() {
    let cases = [
        "",
        " ",
        "   ",
        "a",
        " a",
        "a ",
        "  a b  ",
        "\t\n matrix.os \r\n",
        "\u{a0}x\u{3000}",
        "\u{2003}\u{2028}x y\u{85}",
        "\u{200b}x\u{200b}",
        "\u{180e}x",
    ];
    for s in cases {
        assert_eq!(text(&trimmed(&chars(s))), s.trim(), "{s:?}");
    }
}

#[test]
fn has_prefix_compares_the_beginning() {
    let prefix = chars("matrix.");
    assert!(has_prefix(&chars("matrix.os"), &prefix));
    assert!(has_prefix(&chars("matrix."), &prefix));
    assert!(!has_prefix(&chars("matrix"), &prefix));
    assert!(!has_prefix(&chars("env.matrix."), &prefix));
    assert!(!has_prefix(&chars(" matrix.os"), &prefix));
    assert!(has_prefix(&chars(""), &chars("")));
}
