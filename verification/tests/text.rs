use typed_fsm_diagram::text::{
    concat2, contains, ends_with, from_range, is_short, is_white_space, join_words, replace_all,
    same, split_on, starts_with, to_chars, trim, trim_tails,
};

#[test]
fn replacing_agrees_with_the_standard_library() {
    let texts = ["", "a", "aaa", "abab", "a::b::c", "x  y", "äöü", "\r\n\r\n"];
    let patterns = ["a", "aa", "ab", "::", " ", "ö", "\r\n"];
    for s in texts {
        for p in patterns {
            assert_eq!(replace_all(s, p, "<>"), s.replace(p, "<>"));
            assert_eq!(replace_all(s, p, ""), s.replace(p, ""));
        }
    }
}

#[test]
fn splitting_agrees_with_the_standard_library() {
    for s in ["", "::", "a", "a::b", "a::b::", "::::", "a:b"] {
        let parts: Vec<&str> = s.split("::").collect();
        assert_eq!(split_on(s, "::"), parts);
    }
}

#[test]
fn trimming_agrees_with_the_standard_library() {
    for s in ["", " ", " a b ", "\t\u{a0}x\n", "x"] {
        assert_eq!(trim(s), s.trim());
    }
    assert_eq!(trim_tails("x ] ]", " ]"), "x");
    assert_eq!(trim_tails("x ]y", " ]"), "x ]y");
}

#[test]
fn words_agree_with_the_standard_library() {
    for s in ["", "  ", "a", " a  b\tc\n", "\u{2003}x"] {
        let words: Vec<&str> = s.split_whitespace().collect();
        assert_eq!(join_words(s), words.join(" "));
    }
}

#[test]
fn white_space_agrees_with_the_standard_library() {
    for n in 0..0x3100u32 {
        if let Some(c) = char::from_u32(n) {
            assert_eq!(is_white_space(c), c.is_whitespace(), "{:?}", c);
        }
    }
}

#[test]
fn searching() {
    assert!(contains("Transition::To", "::"));
    assert!(!contains("abc", "ac"));
    assert!(contains("abc", ""));
    assert!(starts_with("Self::A", "Self::"));
    assert!(!starts_with("Sel", "Self"));
    assert!(ends_with("MyEvent", "Event"));
    assert!(!ends_with("vent", "Event"));
    assert!(same("a", "a"));
    assert!(!same("a", "b"));
    assert_eq!(concat2("a", "b"), "ab");
    assert!(is_short("abc"));
    assert_eq!(from_range(&to_chars("hello"), 1, 3), "el");
}
