//! What a procedural macro puts behind a state machine that is read from source text, with
//! both labels of each edge, so that guards can be shown or left out later.
use vstd::prelude::*;

use crate::fence::{is_parsable, parsable};
use crate::diagram::{find_transitions, state_transitions};
use crate::diagram_laws::law_same_transitions;
use crate::expand::{
    breakdown_views, labelled, node_plan_views, planned_breakdown, planned_nodes, planned_types,
    BreakdownPlan, NodePlan, Planner, Types,
};
use crate::input::{leaves, parse_type};
use crate::macro_body::{call_fsm, parse_macro_call};
use crate::model::{
    fsm_fits, state_fits, transition_views, FsmDefinition, FsmView, StateDefinition, StateView,
    TransitionInfo, TransitionView,
};
use crate::names::{NameMap, NameSet};
use crate::nesting::{block_discovery, discover_block, nothing};
use crate::subfsm::{discovered_in, SubFsmExtractor};
use crate::syntax::{parse_source, source_tree, SyntaxTree};
use crate::text::concat2;

verus! {

/// An edge with its two labels: with guards, and without them.
#[derive(Debug)]
pub struct GuardedEdge {
    pub source: String,
    pub target: String,
    pub label_full: String,
    pub label_clean: String,
}

/// What a [`GuardedEdge`] says.
#[verifier::ext_equal]
pub struct GuardedEdgeView {
    pub source: Seq<char>,
    pub target: Seq<char>,
    pub label_full: Seq<char>,
    pub label_clean: Seq<char>,
}

impl View for GuardedEdge {
    type V = GuardedEdgeView;

    open spec fn view(&self) -> GuardedEdgeView {
        GuardedEdgeView {
            source: self.source@,
            target: self.target@,
            label_full: self.label_full@,
            label_clean: self.label_clean@,
        }
    }
}

/// What several edges say.
pub open spec fn guarded_views(edges: Seq<GuardedEdge>) -> Seq<GuardedEdgeView> {
    edges.map_values(|e: GuardedEdge| e@)
}

/// What is put behind a state machine.
#[derive(Debug)]
pub struct GuardedExpansion {
    pub name: String,
    pub nodes: Vec<NodePlan>,
    pub edges: Vec<GuardedEdge>,
    pub breakdown: Vec<BreakdownPlan>,
}

/// Why nothing is put behind a state machine.
#[derive(Debug, Clone, Copy, PartialEq, Eq, Structural)]
pub enum ExpandError {
    /// The text is no state machine.
    NoMachine,
    /// The parser of source text does not take a text of the machine.
    Unparsable,
}

/// The machines that the machine `fsm` runs in the blocks of the state `st`.
pub open spec fn source_runs(fsm: Seq<char>, st: StateView) -> Seq<Seq<char>> {
    let entered = block_discovery(fsm, st.entry_block, nothing());
    let processed = discovered_in(fsm, source_tree(st.process_block), entered);
    block_discovery(fsm, st.exit_block, processed).machines
}

/// The machines that `fsm` runs in each of `states`.
pub open spec fn all_source_runs(fsm: Seq<char>, states: Seq<StateView>) -> Seq<Seq<Seq<char>>> {
    states.map_values(|st: StateView| source_runs(fsm, st))
}

/// The edges for transitions that were found with guards and without them.
pub open spec fn paired(
    full: Seq<TransitionView>,
    clean: Seq<TransitionView>,
) -> Seq<GuardedEdgeView> {
    Seq::new(
        full.len(),
        |k: int|
            GuardedEdgeView {
                source: full[k].source,
                target: full[k].target,
                label_full: full[k].label,
                label_clean: clean[k].label,
            },
    )
}

/// The edges of the state `st` of the machine `fsm`.
pub open spec fn state_edges(fsm: Seq<char>, st: StateView) -> Seq<GuardedEdgeView> {
    paired(
        state_transitions(fsm, st, true, Map::empty()),
        state_transitions(fsm, st, false, Map::empty()),
    )
}

/// The edges of all of `states`.
pub open spec fn source_edges(fsm: Seq<char>, states: Seq<StateView>) -> Seq<GuardedEdgeView>
    decreases states.len(),
{
    if states.len() == 0 {
        Seq::empty()
    } else {
        source_edges(fsm, states.drop_last()) + state_edges(fsm, states.last())
    }
}

/// `r` is what is put behind the machine `m`, with the answers `g` on types.
pub open spec fn expands(m: FsmView, g: Types, r: GuardedExpansion) -> bool {
    let runs = all_source_runs(m.name, m.states);
    &&& node_plan_views(r.nodes@) == planned_nodes(m.states, runs, g)
    &&& breakdown_views(r.breakdown@) == planned_breakdown(
        planned_types(m.states, runs, g, m.states.len() as int),
    )
}

/// `r` has the name, the states and the edges of `m`.
pub open spec fn outlines(m: FsmView, r: GuardedExpansion) -> bool {
    &&& r.name@ == m.name
    &&& labelled(m.states, r.nodes@)
    &&& guarded_views(r.edges@) == source_edges(m.name, m.states)
}

/// The source text of a macro call with the body `body`.
pub open spec fn call_text(body: Seq<char>) -> Seq<char> {
    "state_machine!{"@ + body + "}"@
}

/// The machines that the machine `fsm` runs in the blocks of the state `state`.
fn find_source_runs(fsm: &str, state: &StateDefinition) -> (r: NameSet)
    requires
        state_fits(state@),
    ensures
        r@ == source_runs(fsm@, state@),
{
    let mut x: SubFsmExtractor = SubFsmExtractor::new(fsm.to_string());
    discover_block(&mut x, &state.entry_block);
    let process: SyntaxTree = parse_source(state.process_block.as_str());
    x.extract(&process);
    discover_block(&mut x, &state.exit_block);
    x.discovered
}

/// The edges of the state `state` of the machine `fsm`.
fn find_edges(
    fsm: &FsmDefinition,
    state: &StateDefinition,
    no_mentions: &NameMap<NameSet>,
) -> (r: Vec<GuardedEdge>)
    requires
        state_fits(state@),
        no_mentions@ == Map::<Seq<char>, NameSet>::empty(),
    ensures
        guarded_views(r@) == state_edges(fsm.name@, state@),
{
    let full: Vec<TransitionInfo> = find_transitions(fsm, state, true, no_mentions);
    let clean: Vec<TransitionInfo> = find_transitions(fsm, state, false, no_mentions);
    let ghost fv = transition_views(full@);
    let ghost cv = transition_views(clean@);
    proof {
        law_same_transitions(fsm.name@, state@, Map::empty());
    }
    let mut r: Vec<GuardedEdge> = Vec::new();
    let mut k: usize = 0;
    while k < full.len()
        invariant
            fv == transition_views(full@),
            cv == transition_views(clean@),
            full@.len() == clean@.len(),
            k <= full@.len(),
            guarded_views(r@) == paired(fv, cv).take(k as int),
        decreases full@.len() - k,
    {
        let ghost before = r@;
        let e = GuardedEdge {
            source: full[k].source.clone(),
            target: full[k].target.clone(),
            label_full: full[k].label.clone(),
            label_clean: clean[k].label.clone(),
        };
        r.push(e);
        assert(e@ == paired(fv, cv)[k as int]);
        assert(guarded_views(r@) =~= guarded_views(before).push(e@));
        assert(paired(fv, cv).take(k + 1) =~= paired(fv, cv).take(k as int).push(e@));
        k = k + 1;
    }
    assert(paired(fv, cv).take(k as int) =~= paired(fv, cv));
    r
}

/// What is put behind the machine `fsm`. `type_rest` is asked which names are types.
pub fn expand_fsm<T: Fn(&str) -> Result<usize, String>>(
    fsm: &FsmDefinition,
    type_rest: &T,
) -> (r: GuardedExpansion)
    requires
        fsm_fits(fsm@),
        forall|x: &str| #[trigger] call_requires(*type_rest, (x,)),
    ensures
        outlines(fsm@, r),
        forall|g: Types| #[trigger] leaves(*type_rest, g) ==> expands(fsm@, g, r),
{
    let ghost sv = fsm@.states;
    let ghost runs = all_source_runs(fsm.name@, sv);
    let no_mentions: NameMap<NameSet> = NameMap::new();
    let mut planner: Planner = Planner::new();
    let mut edges: Vec<GuardedEdge> = Vec::new();
    let mut i: usize = 0;
    assert(sv.take(0) =~= Seq::empty());
    assert(runs.take(0) =~= Seq::empty());
    assert(guarded_views(edges@) =~= Seq::empty());
    assert(forall|g: Types| #[trigger]
        leaves(*type_rest, g) ==> planner.has_planned(sv.take(0), runs.take(0), g));
    while i < fsm.states.len()
        invariant
            sv == fsm@.states,
            runs == all_source_runs(fsm.name@, sv),
            no_mentions@ == Map::<Seq<char>, NameSet>::empty(),
            fsm_fits(fsm@),
            i <= fsm.states@.len(),
            forall|x: &str| #[trigger] call_requires(*type_rest, (x,)),
            labelled(sv.take(i as int), planner.nodes@),
            forall|g: Types| #[trigger]
                leaves(*type_rest, g) ==> planner.has_planned(
                    sv.take(i as int),
                    runs.take(i as int),
                    g,
                ),
            guarded_views(edges@) == source_edges(fsm.name@, sv.take(i as int)),
        decreases fsm.states@.len() - i,
    {
        assert(sv[i as int] == fsm.states@[i as int]@);
        let names: NameSet = find_source_runs(fsm.name.as_str(), &fsm.states[i]);
        let ghost nodes_before = planner.nodes@;
        planner.add_state(&fsm.states[i], &names, type_rest);
        assert forall|k: int| 0 <= k < planner.nodes@.len() implies (
        #[trigger] planner.nodes@[k]).label@ == sv.take(i + 1)[k].name by {
            if k < i {
                assert(planner.nodes@[k] == planner.nodes@.take(nodes_before.len() as int)[k]);
                assert(nodes_before[k].label@ == sv.take(i as int)[k].name);
            }
        }
        assert(sv.take(i + 1) =~= sv.take(i as int).push(sv[i as int]));
        assert(runs.take(i + 1) =~= runs.take(i as int).push(runs[i as int]));
        assert(sv.take(i + 1).drop_last() =~= sv.take(i as int));
        let mut found: Vec<GuardedEdge> = find_edges(fsm, &fsm.states[i], &no_mentions);
        let ghost before = edges@;
        let ghost fv = found@;
        edges.append(&mut found);
        assert(guarded_views(edges@) =~= guarded_views(before) + guarded_views(fv));
        i = i + 1;
    }
    assert(sv.take(i as int) =~= sv);
    assert(runs.take(i as int) =~= runs);
    let breakdown: Vec<BreakdownPlan> = planner.breakdown();
    GuardedExpansion { name: fsm.name.clone(), nodes: planner.nodes, edges, breakdown }
}

/// The parser of types in `syn` answers as `g` does.
pub closed spec fn syn_types_as(g: Types) -> bool {
    leaves(parse_type, g)
}

/// What is put behind the machine that `body`, the text of a macro's body, writes down.
pub fn generate_diagram(body: &str) -> (r: Result<GuardedExpansion, ExpandError>)
    ensures
        match r {
            Ok(e) => {
                &&& parsable(call_text(body@))
                &&& call_fsm(call_text(body@)) matches Some(m) && fsm_fits(m) && outlines(m, e) && (
                forall|g: Types| #[trigger] syn_types_as(g) ==> expands(m, g, e))
            },
            Err(ExpandError::NoMachine) => parsable(call_text(body@)) && call_fsm(
                call_text(body@),
            ) is None,
            Err(ExpandError::Unparsable) => !parsable(call_text(body@)) || (call_fsm(
                call_text(body@),
            ) matches Some(m) && !fsm_fits(m)),
        },
{
    let mut call: String = concat2("state_machine!{", body);
    call.append("}");
    assert(call@ == call_text(body@));
    if !is_parsable(call.as_str()) {
        return Err(ExpandError::Unparsable);
    }
    match parse_macro_call(call.as_str()) {
        Some(fsm) => if fsm.is_parsable() {
            Ok(expand_fsm(&fsm, &parse_type))
        } else {
            Err(ExpandError::Unparsable)
        },
        None => Err(ExpandError::NoMachine),
    }
}

} // verus!
