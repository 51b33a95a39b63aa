use typed_fsm_diagram::subfsm::{names_subfsm, SubFsmExtractor};
use typed_fsm_diagram::syntax::parse_source;

fn list(s: &typed_fsm_diagram::names::NameSet) -> Vec<String> {
    (0..s.len()).map(|i| s.get(i).clone()).collect()
}

#[test]
fn machines_and_fields_are_discovered() {
    let mut x = SubFsmExtractor::new("M".to_string());
    x.extract(&parse_source(
        "fn f() { BlinkFSM::step(ctx.blinker); MotorEvent::Go; M::Run; lower::x(); FSM::y(); Wheel::new(); BlinkFSM::init() }",
    ));
    assert_eq!(list(&x.discovered), vec!["BlinkFSM", "FSM", "Wheel"]);
    assert_eq!(list(&x.context_fields), vec!["blinker"]);
}

#[test]
fn which_names_are_machines() {
    assert!(names_subfsm("M", "Blink"));
    assert!(names_subfsm("M", "FSM"));
    assert!(names_subfsm("M", "Ärger"));
    assert!(!names_subfsm("Blink", "Blink"));
    assert!(!names_subfsm("M", "blink"));
    assert!(!names_subfsm("M", "ABC"));
    assert!(!names_subfsm("M", ""));
    for name in ["Self", "Transition", "Option", "Result", "String"] {
        assert!(!names_subfsm("M", name));
    }
    for name in ["MyEvent", "MyEvt", "MyContext", "MyCtx", "MyState"] {
        assert!(!names_subfsm("M", name));
    }
}
