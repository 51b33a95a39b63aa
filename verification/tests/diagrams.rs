use std::cell::RefCell;
use typed_fsm_diagram::diagram::{
    connect, finish_text, generate_mermaid_hierarchical, generate_mermaid_simple,
    populate_builder_hierarchical, try_generate_mermaid_hierarchical, StateDiagram,
};
use typed_fsm_diagram::macro_body::parse_macro_call;
use typed_fsm_diagram::model::{FsmDefinition, StateDefinition, TransitionInfo};
use typed_fsm_diagram::names::NameMap;
use typed_fsm_diagram::nesting::nests_finitely;
use typed_fsm_diagram::reach::as_written;

fn machine(text: &str) -> FsmDefinition {
    let m = parse_macro_call(&format!("state_machine! {{ {} }}", text)).unwrap();
    assert!(m.is_parsable());
    m
}

fn player() -> FsmDefinition {
    machine(
        "Name: PlayerFSM, Context: PlayerContext, States: {
            Idle => { process: |ctx, evt| { match evt {
                PlayerEvent::Play if ctx.ready => Transition::To(PlayerFSM::Playing),
                PlayerEvent::Gone => Transition::To(PlayerFSM::Nowhere),
                _ => Transition::None } } },
            Playing => { process: |ctx, evt| { ctx.volume.dispatch(evt); TrackFSM::step(); Transition::To(PlayerFSM::Idle) } }
        }",
    )
}

fn track() -> FsmDefinition {
    machine("Name: TrackFSM, States: { Start => { process: |c, e| { Transition::To(TrackFSM::End) } }, End => { process: |c, e| { Transition::None } } }")
}

fn volume() -> FsmDefinition {
    machine("Name: VolumeFSM, States: { Low => { process: |c, e| { Transition::None } } }")
}

fn structs() -> NameMap<NameMap<String>> {
    let mut fields = NameMap::new();
    fields.insert("volume".to_string(), "crate::audio::VolumeFSM".to_string());
    fields.insert("ready".to_string(), "bool".to_string());
    let mut all = NameMap::new();
    all.insert("PlayerContext".to_string(), fields);
    all
}

fn nodes(d: &StateDiagram) -> Vec<String> {
    d.nodes.iter().map(|n| n.label.clone()).collect()
}

fn edges(d: &StateDiagram) -> Vec<(usize, usize, String)> {
    d.edges.iter().map(|e| (e.source, e.destination, e.label.clone())).collect()
}

#[test]
fn a_simple_diagram_has_a_node_for_each_state() {
    let d = generate_mermaid_simple(&player(), true, &NameMap::new());
    assert_eq!(nodes(&d), vec!["Idle", "Playing"]);
    assert!(d.nodes.iter().all(|n| n.inner.is_empty()));
    assert_eq!(
        edges(&d),
        vec![
            (0, 1, "PlayerEvent#colon;#colon;Play<br/>[ if if ctx.ready ]".to_string()),
            (1, 0, "*".to_string()),
        ]
    );
}

#[test]
fn guards_change_labels_alone() {
    let with = generate_mermaid_simple(&player(), true, &NameMap::new());
    let without = generate_mermaid_simple(&player(), false, &NameMap::new());
    assert_eq!(nodes(&with), nodes(&without));
    let ends = |d: &StateDiagram| -> Vec<(usize, usize)> {
        d.edges.iter().map(|e| (e.source, e.destination)).collect()
    };
    assert_eq!(ends(&with), ends(&without));
    assert_eq!(without.edges[0].label, "PlayerEvent#colon;#colon;Play");
}

#[test]
fn a_hierarchical_diagram_holds_inner_machines() {
    let (p, t, v) = (player(), track(), volume());
    let mut all = NameMap::new();
    all.insert("PlayerFSM".to_string(), &p);
    all.insert("TrackFSM".to_string(), &t);
    all.insert("VolumeFSM".to_string(), &v);
    let s = structs();
    let mentions = NameMap::new();
    assert!(nests_finitely(&p, &all, &s, &as_written));
    let d = generate_mermaid_hierarchical(&p, &all, &s, true, &mentions, as_written);
    assert_eq!(nodes(&d), vec!["Idle", "Playing"]);
    assert!(d.nodes[0].inner.is_empty());
    assert_eq!(d.nodes[1].inner.len(), 2);
    assert_eq!(nodes(&d.nodes[1].inner[0]), vec!["Start", "End"]);
    assert_eq!(edges(&d.nodes[1].inner[0]), vec![(0, 1, "*".to_string())]);
    assert_eq!(nodes(&d.nodes[1].inner[1]), vec!["Low"]);
    assert_eq!(edges(&d), edges(&generate_mermaid_simple(&p, true, &mentions)));
}

#[test]
fn types_go_by_the_name_that_is_given_for_them() {
    let (p, t) = (player(), track());
    let mut all = NameMap::new();
    all.insert("Renamed".to_string(), &t);
    let rename = |name: &str| {
        if name == "TrackFSM" {
            "Renamed".to_string()
        } else {
            name.to_string()
        }
    };
    let d = try_generate_mermaid_hierarchical(
        &p,
        &all,
        &NameMap::new(),
        true,
        &NameMap::new(),
        rename,
    )
    .unwrap();
    assert_eq!(d.nodes[1].inner.len(), 1);
}

#[test]
fn only_what_a_machine_names_is_resolved() {
    let asked = RefCell::new(vec![]);
    let resolve = |name: &str| {
        asked.borrow_mut().push(name.to_string());
        name.to_string()
    };
    let d = populate_builder_hierarchical(
        &player(),
        &NameMap::new(),
        &structs(),
        true,
        &NameMap::new(),
        resolve,
    );
    assert_eq!(nodes(&d), vec!["Idle", "Playing"]);
    assert_eq!(
        asked.into_inner(),
        vec!["PlayerContext", "bool", "TrackFSM", "crate::audio::VolumeFSM"]
    );
}

#[test]
fn a_machine_that_runs_inside_itself_has_no_hierarchical_diagram() {
    let a = machine("Name: Ping, States: { A => { process: |c, e| { Pong::step() } } }");
    let b = machine("Name: Pong, States: { B => { process: |c, e| { Ping::step() } } }");
    let mut all = NameMap::new();
    all.insert("Ping".to_string(), &a);
    all.insert("Pong".to_string(), &b);
    let s = NameMap::new();
    assert!(!nests_finitely(&a, &all, &s, &as_written));
    let none = NameMap::new();
    assert!(try_generate_mermaid_hierarchical(&a, &all, &s, true, &none, as_written).is_none());
    assert_eq!(nodes(&generate_mermaid_simple(&a, true, &none)), vec!["A"]);
}

fn state(name: &str) -> StateDefinition {
    StateDefinition {
        name: name.to_string(),
        fields: vec![],
        entry_block: None,
        process_block: String::new(),
        exit_block: None,
    }
}

fn transition(source: &str, target: &str, label: &str) -> TransitionInfo {
    TransitionInfo {
        source: source.to_string(),
        target: target.to_string(),
        label: label.to_string(),
    }
}

#[test]
fn edges_join_known_states_only() {
    let states = vec![state("A"), state("B"), state("A")];
    let ts = vec![
        transition("A", "B", ""),
        transition("A", "C", "x"),
        transition("C", "A", "x"),
        transition("B", "A", "a:b"),
    ];
    let es: Vec<(usize, usize, String)> =
        connect(&states, &ts).into_iter().map(|e| (e.source, e.destination, e.label)).collect();
    assert_eq!(es, vec![(2, 1, "*".to_string()), (1, 2, "a#colon;b".to_string())]);
}

#[test]
fn text_is_finished() {
    assert_eq!(
        finish_text("stateDiagram-v2\r\n    direction LR\r\n    A\r\n"),
        "stateDiagram-v2\n    A\n"
    );
    assert_eq!(finish_text("x"), "x");
}
