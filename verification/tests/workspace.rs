use typed_fsm_diagram::config::{BreakdownMode, DiagramMode};
use typed_fsm_diagram::model::FsmDefinition;
use typed_fsm_diagram::names::{NameMap, NameSet};
use typed_fsm_diagram::output::{
    draw_root, draw_workspace, mermaid_file_name, plan_breakdown, save_breakdown, try_draw_root, DiagramFile,
};
use typed_fsm_diagram::reach::{collect_all_subfsms, machines_of};
use typed_fsm_diagram::workspace::{
    find_roots, is_source, map_fsms, MentionVisitor, WorkspaceFinder,
};

fn call(name: &str, context: &str, body: &str) -> String {
    format!(
        "state_machine! {{ Name: {}, {} States: {{ S => {{ process: |c, e| {{ {} }} }} }} }}",
        name, context, body
    )
}

fn finder() -> WorkspaceFinder {
    let mut f = WorkspaceFinder::new();
    f.visit_macro("state_machine", &call("TopFSM", "Context: TopContext,", "MidFSM::step(); c.held.go()"));
    f.visit_macro("state_machine", &call("MidFSM", "", "LeafFSM::step()"));
    f.visit_macro("state_machine", &call("LeafFSM", "", "x()"));
    f.visit_macro("state_machine", &call("HeldFSM", "", "x()"));
    f.visit_macro("state_machine", &call("LoneFSM", "", "UnknownFSM::step()"));
    f.visit_item_struct(
        "TopContext".to_string(),
        &vec![
            ("held".to_string(), "crate :: deep :: HeldFSM".to_string()),
            ("other".to_string(), "LeafFSM".to_string()),
        ],
    );
    f
}

fn names(s: &NameSet) -> Vec<String> {
    (0..s.len()).map(|i| s.get(i).clone()).collect()
}

#[test]
fn only_state_machines_are_found() {
    let mut f = WorkspaceFinder::new();
    f.visit_macro("println", &call("A", "", "x()"));
    f.visit_macro("state_machine", "state_machine! { nothing }");
    assert!(f.found_fsms.is_empty());
    f.visit_macro("state_machine", &call("A", "", "x()"));
    assert_eq!(f.found_fsms.len(), 1);
    assert_eq!(f.found_fsms[0].name, "A");
}

#[test]
fn types_of_fields_have_no_spaces() {
    let f = finder();
    let fields = f.found_structs.get("TopContext").unwrap();
    assert_eq!(fields.get("held").unwrap(), "crate::deep::HeldFSM");
    assert_eq!(fields.get("nothing"), None);
}

#[test]
fn functions_mention_paths_of_two_segments_or_more() {
    let mut v = MentionVisitor::new();
    v.visit_path(1, "x");
    v.visit_path(2, "M :: Run");
    v.visit_path(2, "M :: Run");
    v.visit_path(3, "a :: b :: C");
    assert_eq!(names(&v.mentions), vec!["M::Run", "a::b::C"]);
    let mut f = WorkspaceFinder::new();
    f.visit_item_fn("help".to_string(), v.mentions);
    f.visit_impl_item_fn("method".to_string(), NameSet::new());
    assert_eq!(f.found_functions.len(), 2);
    assert_eq!(f.found_functions.get("help").unwrap().len(), 2);
}

#[test]
fn the_last_machine_of_a_name_counts() {
    let mut f = WorkspaceFinder::new();
    f.visit_macro("state_machine", &call("A", "", "x()"));
    f.visit_macro("state_machine", &call("A", "Context: C,", "x()"));
    let map = map_fsms(&f.found_fsms);
    assert_eq!(map.len(), 1);
    assert!(map.get("A").unwrap().context_type.is_some());
}

#[test]
fn roots_are_named_by_no_machine() {
    let f = finder();
    let roots: Vec<String> =
        find_roots(&f.found_fsms, &f.found_structs).iter().map(|m| m.name.clone()).collect();
    assert_eq!(roots, vec!["TopFSM", "LoneFSM"]);
}

#[test]
fn a_machine_names_machines_and_contexts() {
    let f = finder();
    let map = map_fsms(&f.found_fsms);
    let top = map.get("TopFSM").unwrap();
    assert_eq!(names(&machines_of(top, &map, &f.found_structs)), vec!["MidFSM", "HeldFSM"]);
}

#[test]
fn all_machines_below_are_collected_once() {
    let f = finder();
    let map = map_fsms(&f.found_fsms);
    let mut all = NameSet::new();
    collect_all_subfsms(map.get("TopFSM").unwrap(), &map, &f.found_structs, &mut all);
    assert_eq!(names(&all), vec!["MidFSM", "LeafFSM", "HeldFSM"]);
    let mut seen = NameSet::new();
    seen.insert("MidFSM".to_string());
    collect_all_subfsms(map.get("TopFSM").unwrap(), &map, &f.found_structs, &mut seen);
    assert_eq!(names(&seen), vec!["MidFSM", "HeldFSM"]);
}

#[test]
fn machines_that_run_each_other_are_collected() {
    let mut f = WorkspaceFinder::new();
    f.visit_macro("state_machine", &call("Ping", "", "Pong::step()"));
    f.visit_macro("state_machine", &call("Pong", "", "Ping::step()"));
    let map = map_fsms(&f.found_fsms);
    let mut all = NameSet::new();
    collect_all_subfsms(map.get("Ping").unwrap(), &map, &f.found_structs, &mut all);
    assert_eq!(names(&all), vec!["Pong", "Ping"]);
    assert!(find_roots(&f.found_fsms, &f.found_structs).is_empty());
}

fn listed(files: &Vec<DiagramFile>) -> Vec<(Option<String>, String, usize)> {
    files
        .iter()
        .map(|f| {
            let inner = f.diagram.nodes.iter().map(|n| n.inner.len()).sum();
            (f.folder.clone(), f.name.clone(), inner)
        })
        .collect()
}

fn entry(folder: Option<&str>, name: &str, inner: usize) -> (Option<String>, String, usize) {
    (folder.map(|f| f.to_string()), name.to_string(), inner)
}

fn draw(mode: DiagramMode, breakdown: BreakdownMode) -> Vec<(Option<String>, String, usize)> {
    let f = finder();
    let map = map_fsms(&f.found_fsms);
    let top = map.get("TopFSM").unwrap();
    let files =
        draw_root(top, &map, &f.found_structs, mode, breakdown, true, &f.found_functions);
    listed(&files)
}

#[test]
fn a_root_is_drawn_in_either_mode() {
    assert_eq!(
        draw(DiagramMode::Simple, BreakdownMode::Off),
        vec![entry(None, "TopFSM.mermaid", 0)]
    );
    assert_eq!(
        draw(DiagramMode::Hierarchical, BreakdownMode::Off),
        vec![entry(None, "TopFSM.mermaid", 2)]
    );
}

#[test]
fn breakdowns_have_a_file_for_each_machine_below() {
    let b = Some("breakdown");
    assert_eq!(
        draw(DiagramMode::Hierarchical, BreakdownMode::Flat),
        vec![
            entry(None, "TopFSM.mermaid", 2),
            entry(b, "MidFSM.mermaid", 0),
            entry(b, "LeafFSM.mermaid", 0),
            entry(b, "HeldFSM.mermaid", 0),
        ]
    );
    assert_eq!(
        draw(DiagramMode::Simple, BreakdownMode::Nested),
        vec![
            entry(None, "TopFSM.mermaid", 0),
            entry(b, "MidFSM.mermaid", 1),
            entry(b, "LeafFSM.mermaid", 0),
            entry(b, "HeldFSM.mermaid", 0),
        ]
    );
    let both = draw(DiagramMode::Simple, BreakdownMode::Both);
    assert_eq!(both.len(), 7);
    assert_eq!(both[1], entry(Some("breakdown_flat"), "MidFSM.mermaid", 0));
    assert_eq!(both[4], entry(Some("breakdown_nested"), "MidFSM.mermaid", 1));
}

#[test]
fn a_machine_without_machines_below_has_no_breakdown() {
    let f = finder();
    let map = map_fsms(&f.found_fsms);
    let lone: &FsmDefinition = map.get("LoneFSM").unwrap();
    let files =
        save_breakdown(lone, &map, &f.found_structs, "breakdown", true, true, &f.found_functions);
    assert!(files.is_empty());
}

#[test]
fn nested_diagrams_need_machines_that_do_not_run_inside_themselves() {
    let mut f = WorkspaceFinder::new();
    f.visit_macro("state_machine", &call("Top", "", "Ping::step()"));
    f.visit_macro("state_machine", &call("Ping", "", "Pong::step()"));
    f.visit_macro("state_machine", &call("Pong", "", "Ping::step()"));
    let map = map_fsms(&f.found_fsms);
    let top = map.get("Top").unwrap();
    let drawn = |mode: DiagramMode, breakdown: BreakdownMode| {
        try_draw_root(top, &map, &f.found_structs, mode, breakdown, true, &f.found_functions)
    };
    assert!(drawn(DiagramMode::Hierarchical, BreakdownMode::Off).is_none());
    assert!(drawn(DiagramMode::Simple, BreakdownMode::Nested).is_none());
    assert!(drawn(DiagramMode::Simple, BreakdownMode::Both).is_none());
    assert_eq!(drawn(DiagramMode::Simple, BreakdownMode::Flat).unwrap().len(), 3);
}

#[test]
fn plans_and_names() {
    assert!(plan_breakdown(BreakdownMode::Off).is_empty());
    assert_eq!(plan_breakdown(BreakdownMode::Flat), vec![("breakdown".to_string(), false)]);
    assert_eq!(plan_breakdown(BreakdownMode::Nested), vec![("breakdown".to_string(), true)]);
    assert_eq!(
        plan_breakdown(BreakdownMode::Both),
        vec![("breakdown_flat".to_string(), false), ("breakdown_nested".to_string(), true)]
    );
    assert_eq!(mermaid_file_name("PlayerFSM"), "PlayerFSM.mermaid");
    assert!(is_source(Some("rs")));
    assert!(!is_source(Some("toml")));
    assert!(!is_source(None));
}

#[test]
fn a_workspace_is_drawn_root_by_root() {
    let f = finder();
    assert!(f.is_parsable());
    let roots = draw_workspace(&f, DiagramMode::Hierarchical, BreakdownMode::Flat, true);
    let names: Vec<&str> = roots.iter().map(|r| r.name.as_str()).collect();
    assert_eq!(names, vec!["TopFSM", "LoneFSM"]);
    assert_eq!(roots[0].files.as_ref().unwrap().len(), 4);
    assert_eq!(roots[1].files.as_ref().unwrap().len(), 1);
}

#[test]
fn a_root_above_a_circle_is_not_drawn_nested() {
    let mut f = WorkspaceFinder::new();
    f.visit_macro("state_machine", &call("Top", "", "Ping::step()"));
    f.visit_macro("state_machine", &call("Ping", "", "Pong::step()"));
    f.visit_macro("state_machine", &call("Pong", "", "Ping::step()"));
    let roots = draw_workspace(&f, DiagramMode::Hierarchical, BreakdownMode::Off, true);
    assert_eq!(roots.len(), 1);
    assert!(roots[0].files.is_none());
}

#[test]
fn every_machine_is_below_a_root() {
    let f = finder();
    let map = map_fsms(&f.found_fsms);
    let mut shown = NameSet::new();
    for root in find_roots(&f.found_fsms, &f.found_structs) {
        collect_all_subfsms(root, &map, &f.found_structs, &mut shown);
        shown.insert(root.name.clone());
    }
    assert_eq!(shown.len(), f.found_fsms.len());
}

#[test]
fn a_call_may_be_written_with_spaces() {
    let mut f = WorkspaceFinder::new();
    f.visit_macro(
        "state_machine",
        "state_machine ! { Name : A , Context : my :: Ctx , States : { S { x : a :: B } => { process : | c , e | { Transition :: To (A :: T) } } , T => { process : | c , e | { Transition :: None } } } }",
    );
    assert_eq!(f.found_fsms.len(), 1);
    let a = &f.found_fsms[0];
    assert_eq!(a.name, "A");
    assert_eq!(a.states.len(), 2);
    assert_eq!(a.states[0].fields.len(), 1);
    let roots = draw_workspace(&f, DiagramMode::Simple, BreakdownMode::Off, true);
    let d = &roots[0].files.as_ref().unwrap()[0].diagram;
    assert_eq!(d.edges.len(), 1);
    assert_eq!((d.edges[0].source, d.edges[0].destination), (0, 1));
}
