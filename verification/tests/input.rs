use proc_macro2::{Delimiter, Spacing, TokenStream, TokenTree};
use typed_fsm_diagram::input::{
    find_piece_end, parse_definition, parse_definition_with, render, takes_all, Definition,
    Delim, InputToken, ParseError,
};
use typed_fsm_diagram::model::FsmDefinition;
use typed_fsm_diagram::visit::{ExprStep, Shape};

fn push(stream: TokenStream, out: &mut Vec<InputToken>) {
    for tree in stream {
        match tree {
            TokenTree::Ident(i) => out.push(InputToken::Ident(i.to_string())),
            TokenTree::Punct(p) => {
                out.push(InputToken::Punct(p.as_char(), p.spacing() == Spacing::Joint))
            }
            TokenTree::Literal(l) => out.push(InputToken::Literal(l.to_string())),
            TokenTree::Group(g) => {
                let delim = match g.delimiter() {
                    Delimiter::Parenthesis => Delim::Paren,
                    Delimiter::Brace => Delim::Brace,
                    _ => Delim::Bracket,
                };
                out.push(InputToken::Open(delim));
                push(g.stream(), out);
                out.push(InputToken::Close(delim));
            }
        }
    }
}

fn tokens(text: &str) -> Vec<InputToken> {
    let mut out = vec![];
    push(text.parse().unwrap(), &mut out);
    out
}

fn parse(text: &str) -> Result<FsmDefinition, ParseError> {
    parse_definition(&tokens(text)).map(|d| d.fsm)
}

fn message(text: &str) -> String {
    parse(text).unwrap_err().message()
}

#[test]
fn tokens_are_written_as_a_token_stream_is() {
    for text in [
        "a::b<'a, [u8; 4]> => { x(1, 2.5); }",
        "match x { A { } => (), _ if !y => \"s\" }",
        "&mut f(-1)",
        "",
    ] {
        let ts = tokens(text);
        let stream: TokenStream = text.parse().unwrap();
        assert_eq!(render(&ts, 0, ts.len()), stream.to_string());
    }
}

#[test]
fn a_definition_is_read() {
    let m = parse(
        "#[derive(Debug)] Name: Light, Context: Ctx, States: {
            Off => { entry: |c| c.x = 1, process: |c, e| { Transition::None }, },
            On { level: Vec<u8>, sub: blink::Blink } => {
                note, process: |c, e| match e { A => b, _ => c } exit: |c| c.off()
            }
            Dropped => { entry: |c| x }
        }",
    )
    .unwrap();
    assert_eq!(m.name, "Light");
    assert!(m.context_type.is_none());
    assert_eq!(m.states.len(), 2);
    let off = &m.states[0];
    assert_eq!(off.name, "Off");
    assert_eq!(off.entry_block.as_deref(), Some("| c | c . x = 1"));
    assert_eq!(off.process_block, "| c , e | { Transition :: None }");
    assert_eq!(off.exit_block, None);
    let on = &m.states[1];
    assert_eq!(
        on.fields,
        vec![
            ("level".to_string(), "Vec < u8 >".to_string()),
            ("sub".to_string(), "blink :: Blink".to_string()),
        ]
    );
    assert_eq!(on.process_block, "| c , e | match e { A => b , _ => c }");
    assert_eq!(on.exit_block.as_deref(), Some("| c | c . off ()"));
}

#[test]
fn the_last_block_of_a_kind_counts() {
    let m = parse("Name: M States: { A => { process: 1, process: 2 } }").unwrap();
    assert_eq!(m.states[0].process_block, "2");
}

#[test]
fn a_missing_name_is_an_error() {
    assert!(matches!(parse(""), Err(ParseError::NoIdent(true))));
    assert_eq!(message("States: {}"), "unexpected end of input, expected identifier");
    assert!(matches!(parse("Name: 5"), Err(ParseError::NoIdent(false))));
    assert_eq!(message("Name: 5"), "expected identifier");
    assert_eq!(message("Name: fn"), "expected identifier, found keyword `fn`");
    assert!(matches!(parse("Name: fn"), Err(ParseError::Keyword(_))));
}

#[test]
fn a_name_inside_a_group_does_not_count() {
    assert!(matches!(parse("{ Name: A }"), Err(ParseError::NoIdent(true))));
}

#[test]
fn a_missing_colon_is_an_error() {
    assert!(matches!(parse("Name M"), Err(ParseError::NoColon)));
    assert_eq!(message("Name: M States { }"), "expected `:`");
    assert!(matches!(
        parse("Name: M States: { A => { process 1 } }"),
        Err(ParseError::NoColon)
    ));
}

#[test]
fn missing_braces_are_an_error() {
    assert!(matches!(parse("Name: M States:"), Err(ParseError::NoBraces(true))));
    assert!(matches!(parse("Name: M States: 1"), Err(ParseError::NoBraces(false))));
    assert_eq!(message("Name: M States: 1"), "expected curly braces");
    assert_eq!(message("Name: M States:"), "unexpected end of input, expected curly braces");
    assert!(matches!(parse("Name: M States: { A => 1 }"), Err(ParseError::NoBraces(false))));
}

#[test]
fn a_missing_arrow_is_an_error() {
    assert!(matches!(parse("Name: M States: { A { } { } }"), Err(ParseError::NoArrow)));
    assert_eq!(message("Name: M States: { A = > { } }"), "expected `=>`");
}

#[test]
fn a_wrong_type_or_expression_is_an_error() {
    assert!(matches!(
        parse("Name: M States: { A { x: = } => { } }"),
        Err(ParseError::Syntax(_))
    ));
    assert!(matches!(
        parse("Name: M States: { A => { process: = } }"),
        Err(ParseError::Syntax(_))
    ));
}

#[test]
fn nothing_may_follow_the_states() {
    assert!(matches!(parse("Name: M States: { } , "), Err(ParseError::Trailing)));
    assert_eq!(message("Name: M States: { } x"), "unexpected token");
}

#[test]
fn a_parser_may_leave_tokens_and_groups() {
    let ts = tokens("a (b c) d e");
    assert!(matches!(find_piece_end(&ts, 0, ts.len(), Ok(1)), Ok(6)));
    assert!(matches!(find_piece_end(&ts, 0, ts.len(), Ok(3)), Ok(1)));
    assert!(matches!(find_piece_end(&ts, 0, ts.len(), Ok(4)), Err(ParseError::Stuck)));
    assert_eq!(ParseError::Stuck.message(), "expected one token or more");
    let failed = find_piece_end(&ts, 0, ts.len(), Err("no".to_string()));
    assert_eq!(failed.unwrap_err().message(), "no");
}

#[test]
fn a_type_takes_the_whole_text_or_not() {
    assert!(takes_all("x", &|_: &str| Ok(0)));
    assert!(!takes_all("x", &|_: &str| Ok(1)));
    assert!(!takes_all("x", &|_: &str| Err("no".to_string())));
}

#[test]
fn parsers_decide() {
    let ts = tokens("Name: M States: { A { x: T c } => { process: 1 2 } }");
    let any = |_: &str| true;
    let one = |_: &str| -> Result<usize, String> { Ok(1) };
    let zero = |_: &str| -> Result<usize, String> { Ok(0) };
    let all = |_: &str| -> Result<(usize, Vec<ExprStep>), String> { Ok((0, vec![])) };
    let first = |_: &str| -> Result<(usize, Vec<ExprStep>), String> {
        Ok((1, vec![ExprStep::Enter(Shape::Path(vec!["p".to_string()])), ExprStep::Leave]))
    };
    let d: Definition = parse_definition_with(&ts, &any, &zero, &all).unwrap();
    assert_eq!(d.fsm.states[0].fields, vec![("x".to_string(), "T c".to_string())]);
    assert_eq!(d.fsm.states[0].process_block, "1 2");
    assert_eq!(d.blocks.len(), 1);
    assert!(d.blocks[0].process.parts.is_empty());
    let left = parse_definition_with(&ts, &any, &zero, &first).unwrap();
    assert_eq!(left.fsm.states[0].process_block, "1");
    let tree = &left.blocks[0].process;
    assert!(matches!(&tree.parts[0].shape, Shape::Path(p) if p.len() == 1 && p[0] == "p"));
    assert!(matches!(parse_definition_with(&ts, &any, &one, &all), Err(ParseError::NoColon)));
    let none = |_: &str| false;
    assert!(matches!(
        parse_definition_with(&ts, &none, &zero, &all),
        Err(ParseError::NoIdent(true))
    ));
    let wrong = |_: &str| -> Result<(usize, Vec<ExprStep>), String> { Err("no".to_string()) };
    let e = parse_definition_with(&ts, &any, &zero, &wrong).unwrap_err();
    assert_eq!(e.message(), "no");
}
