use typed_fsm_diagram::source::{
    are_taken, gather, process_source, process_source_with, SourceItem,
};
use typed_fsm_diagram::workspace::{find_roots, WorkspaceFinder};

const FILE: &str = r#"
use x::y;

struct TopContext { held: deep::HeldFSM, count: u8 }
struct Pair(u8, u8);
struct Unit;

fn helper(c: &mut TopContext) -> Transition {
    if c.count > 1 { return Transition::To(TopFSM::Done); }
    fn inner() { other::path() }
    plain(x)
}

impl TopContext {
    fn method(&self) { Self::Start; }
}

state_machine! {
    Name: TopFSM,
    Context: TopContext,
    States: {
        Start => { process: |c, e| { c.held.step(e); helper(c) } },
        Done => { process: |c, e| { Transition::None } }
    }
}

mod deep {
    state_machine! { Name: HeldFSM, States: { A => { process: |c, e| { Transition::None } } } }
}

fn g() { println!("x"); }
"#;

fn mentions(f: &WorkspaceFinder, name: &str) -> Vec<String> {
    let set = f.found_functions.get(name).unwrap();
    (0..set.len()).map(|i| set.get(i).clone()).collect()
}

#[test]
fn a_file_is_looked_into() {
    let mut f = WorkspaceFinder::new();
    assert!(process_source(FILE, &mut f));
    let names: Vec<&str> = f.found_fsms.iter().map(|m| m.name.as_str()).collect();
    assert_eq!(names, vec!["TopFSM", "HeldFSM"]);
    assert_eq!(f.found_structs.len(), 3);
    let context = f.found_structs.get("TopContext").unwrap();
    assert_eq!(context.get("held").unwrap(), "deep::HeldFSM");
    assert_eq!(context.get("count").unwrap(), "u8");
    assert_eq!(f.found_structs.get("Pair").unwrap().len(), 0);
    assert_eq!(f.found_functions.len(), 4);
    assert_eq!(mentions(&f, "helper"), vec!["Transition::To", "TopFSM::Done", "other::path"]);
    assert_eq!(mentions(&f, "inner"), vec!["other::path"]);
    assert_eq!(mentions(&f, "method"), vec!["Self::Start"]);
    let roots = find_roots(&f.found_fsms, &f.found_structs);
    assert_eq!(roots.len(), 1);
    assert_eq!(roots[0].name, "TopFSM");
}

#[test]
fn a_file_that_is_no_rust_is_passed_over() {
    let mut f = WorkspaceFinder::new();
    assert!(!process_source("fn (", &mut f));
    assert!(f.found_fsms.is_empty());
    assert_eq!(f.found_functions.len(), 0);
}

#[test]
fn files_add_up() {
    let mut f = WorkspaceFinder::new();
    assert!(process_source("state_machine! { Name: A }", &mut f));
    assert!(process_source("state_machine! { Name: B }", &mut f));
    assert_eq!(f.found_fsms.len(), 2);
}

#[test]
fn items_are_gathered() {
    let items = vec![
        SourceItem::Macro("state_machine".to_string(), "state_machine! { Name: A }".to_string()),
        SourceItem::Macro("println".to_string(), "----\n-".to_string()),
        SourceItem::Function(
            "f".to_string(),
            vec![(1, "x".to_string()), (2, "a :: b".to_string())],
        ),
        SourceItem::Method("f".to_string(), vec![(2, "c :: d".to_string())]),
    ];
    assert!(are_taken(&items));
    let mut f = WorkspaceFinder::new();
    gather(&items, &mut f);
    assert_eq!(f.found_fsms.len(), 1);
    assert_eq!(mentions(&f, "f"), vec!["c::d"]);
}

#[test]
fn a_call_that_cannot_be_parsed_leaves_the_file_out() {
    let parse = |_: &str| -> Option<Vec<SourceItem>> {
        Some(vec![
            SourceItem::Function("f".to_string(), vec![]),
            SourceItem::Macro("state_machine".to_string(), "----\n-".to_string()),
        ])
    };
    let mut f = WorkspaceFinder::new();
    assert!(!process_source_with("x", &mut f, &parse));
    assert_eq!(f.found_functions.len(), 0);
}
