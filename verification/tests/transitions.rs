use typed_fsm_diagram::names::{NameMap, NameSet};
use typed_fsm_diagram::syntax::parse_source;
use typed_fsm_diagram::transitions::{last_of_path, TransitionExtractor};

fn found(code: &str, guards: bool, mentions: &NameMap<NameSet>) -> Vec<(String, String)> {
    let mut e = TransitionExtractor::new("M".to_string(), "Idle".to_string(), guards, mentions);
    e.extract(&parse_source(code));
    for t in &e.transitions {
        assert_eq!(t.source, "Idle");
    }
    e.transitions.into_iter().map(|t| (t.target, t.label)).collect()
}

fn pair(target: &str, label: &str) -> (String, String) {
    (target.to_string(), label.to_string())
}

const MATCHING: &str = r#"fn f() {
    match evt {
        Evt::Go if ctx.ready() => Transition::To(M::Run),
        Evt::Tick => if ctx.count >= 3 && ctx.ok { Transition::To(M::Run { n: 1 }) } else { Transition::To(M::Stop) },
        Evt::Back => Transition::To(M::M),
        _ => Transition::None,
    }
}"#;

#[test]
fn arms_and_guards_make_labels() {
    let none = NameMap::new();
    assert_eq!(
        found(MATCHING, true, &none),
        vec![
            pair("Run", "Evt::Go<br/>[ if if ctx.ready() ]"),
            pair("Run", "Evt::Tick<br/>[ if ctx.count >= 3 and ctx.ok ]"),
            pair("Stop", "Evt::Tick<br/>[ if ctx.count >= 3 and ctx.ok ]"),
        ]
    );
}

#[test]
fn without_guards_the_transitions_are_the_same() {
    let none = NameMap::new();
    assert_eq!(
        found(MATCHING, false, &none),
        vec![pair("Run", "Evt::Go"), pair("Run", "Evt::Tick"), pair("Stop", "Evt::Tick")]
    );
}

#[test]
fn an_event_in_an_if_let_is_no_guard() {
    let none = NameMap::new();
    assert_eq!(
        found("fn f() { if let Evt::Go = evt { return Transition::To(M::Run); } }", true, &none),
        vec![pair("Run", "let Evt::Go = evt")]
    );
}

#[test]
fn a_transition_outside_of_any_branch_has_no_label() {
    let none = NameMap::new();
    assert_eq!(found("fn f() { Transition::To(M::Run) }", true, &none), vec![pair("Run", "")]);
}

fn mentions() -> NameMap<NameSet> {
    let mut names = NameSet::new();
    names.insert("M::Run".to_string());
    names.insert("Self::Stop".to_string());
    names.insert("Other::Run".to_string());
    names.insert("M::M".to_string());
    let mut all = NameMap::new();
    all.insert("helper".to_string(), names);
    all
}

#[test]
fn a_called_function_is_followed_once() {
    let all = mentions();
    assert_eq!(
        found("fn f() { helper(ctx); helper(ctx); }", true, &all),
        vec![pair("Run", "(via helper)"), pair("Stop", "(via helper)")]
    );
}

#[test]
fn a_called_method_is_followed_under_its_label() {
    let all = mentions();
    assert_eq!(
        found("fn f() { match e { Evt::Go => ctx.helper(), _ => x } }", true, &all),
        vec![pair("Run", "Evt::Go"), pair("Stop", "Evt::Go")]
    );
}

#[test]
fn targets() {
    let none = NameMap::new();
    let e = TransitionExtractor::new("M".to_string(), "Idle".to_string(), true, &none);
    assert_eq!(e.extract_target_state("M::Run"), Some("Run".to_string()));
    assert_eq!(e.extract_target_state("M :: Run { n : 1 }"), Some("Run".to_string()));
    assert_eq!(e.extract_target_state("M::Run(a::b)"), Some("Run".to_string()));
    assert_eq!(e.extract_target_state("Run"), Some("Run".to_string()));
    assert_eq!(e.extract_target_state("M"), None);
    assert_eq!(e.extract_target_state("Self"), None);
    assert_eq!(e.extract_target_state(""), None);
}

#[test]
fn the_last_segment_of_a_path() {
    assert_eq!(last_of_path("a::b::C"), "C");
    assert_eq!(last_of_path("C"), "C");
    assert_eq!(last_of_path(""), "");
}
