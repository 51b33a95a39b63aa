use typed_fsm_diagram::macro_body::{parse_macro_body, parse_macro_call};
use typed_fsm_diagram::syntax::{parse_source, SyntaxTree};

const LIGHT: &str = r#"state_machine! {
    Name: LightFSM,
    Context: LightContext,
    Event: LightEvent,
    States: {
        Off => {
            entry: |ctx| { ctx.timer = 0; },
            process: |ctx, evt| { Transition::None }
        },
        On { level: u8, sub: BlinkFSM } => {
            process: |ctx, evt| { Transition::To(LightFSM::Off) },
            exit: |ctx| ctx.off()
        }
    }
}"#;

fn token_tree(t: &SyntaxTree) -> Option<&SyntaxTree> {
    if t.kind == "TOKEN_TREE" {
        return Some(t);
    }
    t.children.iter().find_map(token_tree)
}

#[test]
fn a_machine_is_read() {
    let m = parse_macro_call(LIGHT).unwrap();
    assert_eq!(m.name, "LightFSM");
    assert_eq!(m.context_type.as_deref(), Some("LightContext"));
    assert_eq!(m.states.len(), 2);

    let off = &m.states[0];
    assert_eq!(off.name, "Off");
    assert!(off.fields.is_empty());
    assert_eq!(off.entry_block.as_deref(), Some("|ctx|{ctx.timer=0;}"));
    assert_eq!(off.process_block, "|ctx,evt|{Transition::None}");
    assert!(off.exit_block.is_none());

    let on = &m.states[1];
    assert_eq!(on.name, "On");
    assert_eq!(
        on.fields,
        vec![
            ("level".to_string(), "u8".to_string()),
            ("sub".to_string(), "BlinkFSM".to_string()),
        ]
    );
    assert!(on.entry_block.is_none());
    assert_eq!(on.exit_block.as_deref(), Some("|ctx|ctx.off()"));
}

#[test]
fn the_body_alone_gives_the_same_machine() {
    let tree = parse_source(LIGHT);
    let body = token_tree(&tree).unwrap();
    let m = parse_macro_body(body).unwrap();
    assert_eq!(m.name, "LightFSM");
    assert_eq!(m.states.len(), 2);
}

#[test]
fn without_a_name_there_is_no_machine() {
    assert!(parse_macro_call("state_machine! { States: { A => { process: |c, e| x } } }").is_none());
    assert!(parse_macro_call("").is_none());
    assert!(parse_macro_call("fn f() {}").is_none());
}

#[test]
fn a_state_without_a_process_block_is_left_out() {
    let m = parse_macro_call(
        "state_machine! { Name: M, States: { A => { entry: |c| x() }, B => { process: |c, e| y } } }",
    )
    .unwrap();
    assert_eq!(m.states.len(), 1);
    assert_eq!(m.states[0].name, "B");
    assert!(m.context_type.is_none());
}

#[test]
fn a_machine_may_have_no_states() {
    let m = parse_macro_call("state_machine! { Name: M }").unwrap();
    assert_eq!(m.name, "M");
    assert!(m.states.is_empty());
}

#[test]
fn the_spacing_of_blocks() {
    let block = |text: &str| {
        let call = format!("state_machine! {{ Name: M, States: {{ A => {{ process: {} }} }} }}", text);
        parse_macro_call(&call).unwrap().states[0].process_block.clone()
    };
    assert_eq!(block("|c,e|{return x}"), "|c,e|{return x}");
    assert_eq!(block("|ctx, evt| { Transition::None }"), "|ctx,evt|{Transition::None}");
    assert_eq!(block("|c, e| { let x = 1 + y; x }"), "|c,e|{let x=1+y;x}");
    assert_eq!(block("|c, e| match e { A => b, _ => 2 }"), "|c,e|match e{A=>b,_=>2}");
    assert_eq!(block("|c, e| x exit: |c| y"), "|c,e|x ");
}
