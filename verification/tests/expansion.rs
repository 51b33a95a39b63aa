use proc_macro2::{Delimiter, Spacing, TokenStream, TokenTree};
use typed_fsm_diagram::expand::{generate_diagram, generate_diagram_with, plan_diagram, Expansion};
use typed_fsm_diagram::expand_source::{self, expand_fsm, ExpandError};
use typed_fsm_diagram::input::{parse_definition, Delim, InputToken, ParseError, StateBlocks};
use typed_fsm_diagram::macro_body::parse_macro_call;
use typed_fsm_diagram::model::{FsmDefinition, StateDefinition};
use typed_fsm_diagram::visit::{
    clean_tokens, grow, Argument, ExprStep, ExprTree, Shape, SubFsmVisitor, TransitionVisitor,
};

fn text(s: &str) -> String {
    s.to_string()
}

fn segments(path: &str) -> Vec<String> {
    path.split("::").map(text).collect()
}

fn node(shape: Shape, parts: Vec<ExprTree>) -> ExprTree {
    ExprTree { shape, parts }
}

fn path(p: &str) -> ExprTree {
    node(Shape::Path(segments(p)), vec![])
}

fn go(argument: Argument) -> ExprTree {
    node(
        Shape::Call(Some(text("Transition :: To")), Some(argument)),
        vec![path("Transition::To")],
    )
}

fn visit(e: &ExprTree) -> Vec<(String, String, String)> {
    let mut v = TransitionVisitor::new(text("M"), text("Idle"));
    v.visit_expr(e);
    assert_eq!(v.current_label, None);
    v.transitions.into_iter().map(|t| (t.source, t.target, t.label)).collect()
}

fn found(target: &str, label: &str) -> (String, String, String) {
    (text("Idle"), text(target), text(label))
}

#[test]
fn tokens_are_put_on_one_line() {
    assert_eq!(clean_tokens(text("a\n  ::\r b : c :: d")), "a::b:c::d");
    assert_eq!(clean_tokens(text("Evt :: Go")), "Evt::Go");
    assert_eq!(clean_tokens(text("a . b ( )")), "a . b ( )");
}

#[test]
fn arms_and_conditions_replace_the_label_around_them() {
    let e = node(
        Shape::Other,
        vec![
            node(
                Shape::Arm(text("Evt :: Go"), Some(text("c . ready"))),
                vec![
                    go(Argument::Named(segments("M::Run"))),
                    node(
                        Shape::If(text("x > 1")),
                        vec![go(Argument::Named(segments("M::Stop")))],
                    ),
                    go(Argument::Named(segments("M::Last"))),
                ],
            ),
            node(Shape::Arm(text("_"), None), vec![go(Argument::Named(segments("M::Rest")))]),
            go(Argument::Named(segments("M::End"))),
        ],
    );
    assert_eq!(
        visit(&e),
        vec![
            found("Run", "Evt::Go [if c . ready]"),
            found("Stop", "[if x > 1]"),
            found("Last", "Evt::Go [if c . ready]"),
            found("Rest", "_"),
            found("End", ""),
        ]
    );
}

#[test]
fn only_calls_of_transition_to_are_transitions() {
    let other = node(
        Shape::Call(Some(text("go")), Some(Argument::Named(segments("M::Run")))),
        vec![],
    );
    assert!(visit(&other).is_empty());
    let computed = node(Shape::Call(None, Some(Argument::Named(segments("M::Run")))), vec![]);
    assert!(visit(&computed).is_empty());
    let nothing = node(Shape::Call(Some(text("Transition::To")), None), vec![]);
    assert!(visit(&nothing).is_empty());
}

#[test]
fn targets_of_arguments() {
    let v = TransitionVisitor::new(text("M"), text("Idle"));
    let target = |a: Argument| v.extract_target_state(&a);
    assert_eq!(target(Argument::Named(segments("a::M::Run"))), Some(text("Run")));
    assert_eq!(target(Argument::Named(segments("Self"))), None);
    assert_eq!(target(Argument::Named(segments("M"))), None);
    assert_eq!(target(Argument::Named(vec![])), None);
    assert_eq!(target(Argument::Computed), None);
    assert_eq!(target(Argument::Written(text("M :: Run (x)"))), Some(text("Run")));
    assert_eq!(target(Argument::Written(text("M :: A :: B"))), Some(text("A")));
    assert_eq!(target(Argument::Written(text("Run { n : 1 }"))), Some(text("Run")));
    assert_eq!(target(Argument::Written(text("Self"))), None);
}

#[test]
fn machines_in_paths_are_run() {
    let mut v = SubFsmVisitor::new(text("M"));
    v.visit_expr(&node(
        Shape::Other,
        vec![path("Blink::step"), path("M::Run"), path("Blink"), path("Evt::Go"), path("Motor::x::y")],
    ));
    let names: Vec<String> =
        (0..v.discovered.len()).map(|i| v.discovered.get(i).clone()).collect();
    assert_eq!(names, vec!["Blink", "Motor"]);
}

fn blocks(process: ExprTree) -> StateBlocks {
    StateBlocks { entry: None, process, exit: None }
}

fn state(name: &str, fields: Vec<(String, String)>) -> StateDefinition {
    StateDefinition {
        name: text(name),
        fields,
        entry_block: None,
        process_block: String::new(),
        exit_block: None,
    }
}

#[test]
fn an_expansion_is_planned() {
    let fsm = FsmDefinition {
        name: text("M"),
        context_type: None,
        states: vec![
            state("Idle", vec![(text("a"), text("deep :: Wheel")), (text("b"), text("u8"))]),
            state("Run", vec![]),
        ],
    };
    let first = StateBlocks {
        entry: Some(path("Blink::new")),
        process: go(Argument::Named(segments("M::Run"))),
        exit: Some(path("Motor::stop")),
    };
    let second = blocks(node(
        Shape::Other,
        vec![path("Blink::step"), go(Argument::Named(segments("M::Idle")))],
    ));
    let all = |_: &str| -> Result<usize, String> { Ok(0) };
    let r = plan_diagram(&fsm, &vec![first, second], &all);
    assert_eq!(r.name, "M");
    assert_eq!(r.nodes.len(), 2);
    assert_eq!(r.nodes[0].label, "Idle");
    assert_eq!(r.nodes[0].inner, vec!["deep :: Wheel", "u8", "Blink", "Motor"]);
    assert_eq!(r.nodes[1].label, "Run");
    assert_eq!(r.nodes[1].inner, vec!["Blink"]);
    let edges: Vec<(String, String, String)> =
        r.edges.into_iter().map(|t| (t.source, t.target, t.label)).collect();
    assert_eq!(
        edges,
        vec![(text("Idle"), text("Run"), text("")), (text("Run"), text("Idle"), text(""))]
    );
    let breakdown: Vec<(String, String)> =
        r.breakdown.into_iter().map(|b| (b.type_text, b.dir_name)).collect();
    assert_eq!(
        breakdown,
        vec![
            (text("deep :: Wheel"), text(" Wheel")),
            (text("u8"), text("u8")),
            (text("Blink"), text("Blink")),
            (text("Motor"), text("Motor")),
        ]
    );
}

const BODY: &str = "Name: M, States: {
    Idle { sub: Wheel } => {
        entry: |c| { Blink::new() },
        process: |c, e| { match e { Evt::Go if c.ok => Transition::To(M::Run), _ => Transition::None } },
        exit: |c| { Motor::stop() }
    },
    Run => { process: |c, e| { Transition::To(M::Idle) } }
}";

#[test]
fn an_expansion_of_source_has_both_labels() {
    let r = expand_source::generate_diagram(BODY).unwrap();
    assert_eq!(r.name, "M");
    assert_eq!(r.nodes[0].label, "Idle");
    assert_eq!(r.nodes[0].inner, vec!["Wheel", "Blink", "Motor"]);
    assert!(r.nodes[1].inner.is_empty());
    assert_eq!(r.edges.len(), 2);
    assert_eq!(r.edges[0].source, "Idle");
    assert_eq!(r.edges[0].target, "Run");
    assert_eq!(r.edges[0].label_full, "Evt::Go<br/>[ if if c.ok ]");
    assert_eq!(r.edges[0].label_clean, "Evt::Go");
    assert_eq!(r.edges[1].label_full, "");
    assert_eq!(r.edges[1].label_clean, "");
    let types: Vec<String> = r.breakdown.into_iter().map(|b| b.dir_name).collect();
    assert_eq!(types, vec!["Wheel", "Blink", "Motor"]);
}

#[test]
fn an_expansion_of_a_machine_is_that_of_its_text() {
    let m = parse_macro_call(&format!("state_machine!{{{}}}", BODY)).unwrap();
    assert!(m.is_parsable());
    let r = expand_fsm(&m, &|_: &str| Ok(0));
    assert_eq!(r.edges.len(), 2);
    assert_eq!(r.nodes.len(), 2);
    let none = expand_fsm(&m, &|_: &str| Err(text("no")));
    assert_eq!(none.nodes[0].inner, vec!["Wheel"]);
}

#[test]
fn a_body_without_a_machine_is_an_error() {
    assert_eq!(expand_source::generate_diagram("nothing").unwrap_err(), ExpandError::NoMachine);
}

#[test]
fn white_space_makes_no_difference_to_a_tidied_text() {
    let words = clean_tokens(text("a :: b : c"));
    assert_eq!(clean_tokens(text("\ta\n::\r\n b  :\u{a0}c ")), words);
}

#[test]
fn tidying_twice_is_tidying_once() {
    for s in ["a : : : b", " : a :: b", "a :: :: b", "x : :: y :: : z", "  a  b  ", ": :", " :: "] {
        let once = clean_tokens(text(s));
        assert_eq!(clean_tokens(once.clone()), once);
        assert_eq!(once.trim(), once);
        assert!(!once.contains("  ") && !once.contains(" : ") && !once.contains(" :: "));
    }
}

#[test]
fn a_tree_is_grown_from_steps() {
    let steps = vec![
        ExprStep::Enter(Shape::If(text("a"))),
        ExprStep::Enter(Shape::Path(segments("x::y"))),
        ExprStep::Leave,
        ExprStep::Enter(Shape::Other),
        ExprStep::Leave,
        ExprStep::Leave,
        ExprStep::Enter(Shape::Call(None, Some(Argument::Written(text("b"))))),
        ExprStep::Leave,
    ];
    let e = grow(&steps);
    assert!(matches!(e.shape, Shape::Other));
    assert_eq!(e.parts.len(), 2);
    assert_eq!(e.parts[0].parts.len(), 2);
    assert!(matches!(&e.parts[0].parts[0].shape, Shape::Path(p) if p.len() == 2));
    assert!(matches!(&e.parts[1].shape, Shape::Call(None, Some(Argument::Written(t))) if t == "b"));
    assert!(grow(&vec![]).parts.is_empty());
}

fn push(stream: TokenStream, out: &mut Vec<InputToken>) {
    for tree in stream {
        match tree {
            TokenTree::Ident(i) => out.push(InputToken::Ident(i.to_string())),
            TokenTree::Punct(p) => {
                out.push(InputToken::Punct(p.as_char(), p.spacing() == Spacing::Joint))
            }
            TokenTree::Literal(l) => out.push(InputToken::Literal(l.to_string())),
            TokenTree::Group(g) => {
                let delim = match g.delimiter() {
                    Delimiter::Parenthesis => Delim::Paren,
                    Delimiter::Brace => Delim::Brace,
                    _ => Delim::Bracket,
                };
                out.push(InputToken::Open(delim));
                push(g.stream(), out);
                out.push(InputToken::Close(delim));
            }
        }
    }
}

fn tokens(text: &str) -> Vec<InputToken> {
    let mut out = vec![];
    push(text.parse().unwrap(), &mut out);
    out
}

fn process_of(text: &str) -> ExprTree {
    let ts = tokens(&format!("Name: M, States: {{ Idle => {{ process: {} }} }}", text));
    parse_definition(&ts).unwrap().blocks.remove(0).process
}

#[test]
fn expressions_are_parsed() {
    let e = process_of(
        "match e { Evt::Go if c.ok => Transition::To(M::Run { n: 1 }), _ => { if x > 1 { Transition::To(M::Stop(2)) } else { Transition::To(f(1)(2)) } } }",
    );
    assert_eq!(
        visit(&e),
        vec![found("Run", "Evt::Go [if c . ok]"), found("Stop", "[if x > 1]")]
    );
    assert_eq!(visit(&process_of("Transition::To(&M::Run)")), vec![found("Run", "")]);
}

fn edges(r: Expansion) -> Vec<(String, String, String)> {
    r.edges.into_iter().map(|t| (t.source, t.target, t.label)).collect()
}

#[test]
fn tokens_are_expanded() {
    let r = generate_diagram(&tokens(
        "Name: M, Context: C, States: {
            Idle { a: Wheel } => {
                entry: |c| Blink::new(),
                process: |c, e| match e { Evt::Go => Transition::To(M::Run), _ => x }
            },
            Run => { process: |c, e| Transition::To(M::Idle), exit: |c| Motor::stop() }
        }",
    ))
    .unwrap();
    assert_eq!(r.name, "M");
    assert_eq!(r.nodes[0].label, "Idle");
    assert_eq!(r.nodes[0].inner, vec!["Wheel", "Blink"]);
    assert_eq!(r.nodes[1].label, "Run");
    assert_eq!(r.nodes[1].inner, vec!["Motor"]);
    assert_eq!(
        edges(r),
        vec![
            (text("Idle"), text("Run"), text("Evt::Go")),
            (text("Run"), text("Idle"), text("")),
        ]
    );
}

#[test]
fn tokens_are_expanded_where_they_are_a_machine() {
    assert!(generate_diagram(&tokens("Name: M States: { }")).is_ok());
    assert!(matches!(generate_diagram(&tokens("")), Err(ParseError::NoIdent(true))));
    assert!(matches!(
        generate_diagram(&tokens("Name: M States: { } x")),
        Err(ParseError::Trailing)
    ));
    assert!(matches!(
        generate_diagram(&tokens("Name: M States: { A => { process: 1, exit: = } }")),
        Err(ParseError::Syntax(_))
    ));
}

#[test]
fn what_the_parsers_say_is_expanded() {
    let ts = tokens("Name: M States: { A { f: T } => { process: x } B => { process: y } }");
    let any = |_: &str| true;
    let types = |t: &str| -> Result<usize, String> { Ok(if t == "Gear" { 1 } else { 0 }) };
    let exprs = |t: &str| -> Result<(usize, Vec<ExprStep>), String> {
        let mut steps = vec![];
        for p in ["Gear::up", "Wheel::turn"] {
            steps.push(ExprStep::Enter(Shape::Path(segments(p))));
            steps.push(ExprStep::Leave);
        }
        if t == "x" {
            steps.push(ExprStep::Enter(Shape::Call(
                Some(text("Transition :: To")),
                Some(Argument::Named(segments("M::B"))),
            )));
        }
        Ok((0, steps))
    };
    let r = generate_diagram_with(&ts, &any, &types, &exprs).unwrap();
    assert_eq!(r.nodes[0].inner, vec!["T", "Wheel"]);
    assert_eq!(r.nodes[1].inner, vec!["Wheel"]);
    assert_eq!(edges(r), vec![(text("A"), text("B"), text(""))]);
}

#[test]
fn a_body_behind_an_open_fence_is_still_a_body() {
    let e = expand_source::generate_diagram("----\n-").unwrap_err();
    assert_eq!(e, ExpandError::NoMachine);
}

#[test]
fn a_block_with_an_open_fence_cannot_be_parsed() {
    let mut m = FsmDefinition {
        name: text("M"),
        context_type: None,
        states: vec![state("Idle", vec![])],
    };
    assert!(m.is_parsable());
    m.states[0].process_block = text("----\n-");
    assert!(!m.is_parsable());
}
