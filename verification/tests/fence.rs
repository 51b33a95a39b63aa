use typed_fsm_diagram::fence::{is_fence_cut, is_parsable};
use typed_fsm_diagram::syntax::parse_source;

#[test]
fn a_cut_fence_is_told() {
    for s in [
        "----\n-",
        "---\n-",
        "----\n-\u{e9}",
        "----\nx\n--\u{e9}",
        "-----x\n-y\n--",
        "#!/bin/x\n\n \n----\n--",
        "\u{200e}\n---x\n-",
    ] {
        assert!(is_fence_cut(s), "{:?}", s);
        assert!(!is_parsable(s));
    }
}

#[test]
fn other_texts_are_parsed() {
    for s in [
        "",
        "fn f() {}",
        "---x",
        "--\n-",
        " ----\n-",
        "---\nx\n---\nfn f() {}",
        "----\nx\n-----\n-",
        "----\nx\n--- y",
        "----\nx\n---",
        "----\n- \u{e9}",
        "------\n--x\n-",
        "---\n--",
        "---\"\n-x\"",
        "#! [x\n----\n-",
        "#![allow(x)]\n---\n",
        "#!/bin/x",
        "a\n----\n-",
    ] {
        assert!(is_parsable(s), "{:?}", s);
        let t = parse_source(s);
        assert_eq!(t.kind, "SOURCE_FILE");
        assert_eq!(t.text, s);
    }
}
