//! What a procedural macro puts behind a state machine: the nodes and edges of its diagram,
//! and the types of the machines that run inside it.
use vstd::prelude::*;

use crate::input::{
    answer_as, blocks_views, can_be_asked, definition, input_views, leaves, lemma_syn_types,
    no_ident, parse_definition, parse_definition_with, parse_type, syn_answers_as, takes_all,
    BlocksView, DefinitionView, InputToken, InputView, ParseError, Parsers, StateBlocks,
};
use crate::model::{
    transition_views, FsmDefinition, FsmView, StateDefinition, StateView, TransitionInfo,
    TransitionView,
};
use crate::names::{with_name, NameSet};
use crate::text::views;
use crate::transitions::{last_of_path, last_segment};
use crate::visit::{run_in, visited, ExprStep, ExprView, SubFsmVisitor, TransitionVisitor};

verus! {

/// A node, with the types of the machines that are drawn inside it.
#[derive(Debug)]
pub struct NodePlan {
    pub label: String,
    pub inner: Vec<String>,
}

/// The type of a machine that is drawn on its own, and the name of its folder.
#[derive(Debug)]
pub struct BreakdownPlan {
    pub type_text: String,
    pub dir_name: String,
}

/// What is put behind a state machine.
#[derive(Debug)]
pub struct Expansion {
    pub name: String,
    pub nodes: Vec<NodePlan>,
    pub edges: Vec<TransitionInfo>,
    pub breakdown: Vec<BreakdownPlan>,
}

/// What a [`NodePlan`] says.
#[verifier::ext_equal]
pub struct NodePlanView {
    pub label: Seq<char>,
    pub inner: Seq<Seq<char>>,
}

impl View for NodePlan {
    type V = NodePlanView;

    open spec fn view(&self) -> NodePlanView {
        NodePlanView { label: self.label@, inner: views(self.inner@) }
    }
}

/// What several [`NodePlan`]s say.
pub open spec fn node_plan_views(nodes: Seq<NodePlan>) -> Seq<NodePlanView> {
    nodes.map_values(|n: NodePlan| n@)
}

/// What several [`BreakdownPlan`]s say: pairs of a type and a folder.
pub open spec fn breakdown_views(plans: Seq<BreakdownPlan>) -> Seq<(Seq<char>, Seq<char>)> {
    plans.map_values(|p: BreakdownPlan| (p.type_text@, p.dir_name@))
}

/// What a parser of types answers of a text: how many tokens and groups follow the type that
/// it begins with, or what is wrong with it.
pub type Types = spec_fn(Seq<char>) -> Result<nat, Seq<char>>;

/// Those of `names` that are types, by the answers `g`.
pub open spec fn typed(names: Seq<Seq<char>>, g: Types) -> Seq<Seq<char>>
    decreases names.len(),
{
    if names.len() == 0 {
        Seq::empty()
    } else if g(names.last()) == Ok::<nat, Seq<char>>(0) {
        typed(names.drop_last(), g).push(names.last())
    } else {
        typed(names.drop_last(), g)
    }
}

/// The types that are drawn inside the state `st`, which runs the machines `names`: those of
/// its fields, and those of the machines.
pub open spec fn inner_types(st: StateView, names: Seq<Seq<char>>, g: Types) -> Seq<Seq<char>> {
    st.fields.map_values(|f: (Seq<char>, Seq<char>)| f.1) + typed(names, g)
}

/// The nodes for `states`, where `runs` are the machines that each of them runs.
pub open spec fn planned_nodes(
    states: Seq<StateView>,
    runs: Seq<Seq<Seq<char>>>,
    g: Types,
) -> Seq<NodePlanView> {
    Seq::new(
        states.len(),
        |i: int|
            NodePlanView { label: states[i].name, inner: inner_types(states[i], runs[i], g) },
    )
}

/// `types` with all of `more`, each once.
pub open spec fn with_types(types: Seq<Seq<char>>, more: Seq<Seq<char>>) -> Seq<Seq<char>>
    decreases more.len(),
{
    if more.len() == 0 {
        types
    } else {
        with_name(with_types(types, more.drop_last()), more.last())
    }
}

/// The types that are drawn inside the first `n` of `states`, each once.
pub open spec fn planned_types(
    states: Seq<StateView>,
    runs: Seq<Seq<Seq<char>>>,
    g: Types,
    n: int,
) -> Seq<Seq<char>>
    decreases n,
{
    if n <= 0 {
        Seq::empty()
    } else {
        with_types(
            planned_types(states, runs, g, n - 1),
            inner_types(states[n - 1], runs[n - 1], g),
        )
    }
}

/// The breakdown for `types`. A folder has the name of the type, without its path.
pub open spec fn planned_breakdown(types: Seq<Seq<char>>) -> Seq<(Seq<char>, Seq<char>)> {
    types.map_values(|t: Seq<char>| (t, last_segment(t)))
}

/// Plans the nodes of one machine.
#[derive(Debug)]
pub struct Planner {
    pub nodes: Vec<NodePlan>,
    pub types: NameSet,
}

impl Planner {
    /// The states `states` have been planned, which run the machines `runs`, with the answers
    /// `g` on types.
    pub open spec fn has_planned(
        &self,
        states: Seq<StateView>,
        runs: Seq<Seq<Seq<char>>>,
        g: Types,
    ) -> bool {
        &&& states.len() == runs.len()
        &&& node_plan_views(self.nodes@) == planned_nodes(states, runs, g)
        &&& self.types@ == planned_types(states, runs, g, states.len() as int)
    }

    /// A planner that has planned nothing yet.
    pub fn new() -> (r: Self)
        ensures
            forall|g: Types| #[trigger] r.has_planned(Seq::empty(), Seq::empty(), g),
            r.nodes@.len() == 0,
    {
        let r = Planner { nodes: Vec::new(), types: NameSet::new() };
        assert forall|g: Types| #[trigger] r.has_planned(Seq::empty(), Seq::empty(), g) by {
            assert(node_plan_views(r.nodes@) =~= planned_nodes(Seq::empty(), Seq::empty(), g));
        }
        r
    }

    /// Plans the state `state`, which runs the machines `names`.
    pub fn add_state<T: Fn(&str) -> Result<usize, String>>(
        &mut self,
        state: &StateDefinition,
        names: &NameSet,
        type_rest: &T,
    )
        requires
            forall|x: &str| #[trigger] call_requires(*type_rest, (x,)),
        ensures
            forall|states: Seq<StateView>, runs: Seq<Seq<Seq<char>>>, g: Types| #[trigger]
                old(self).has_planned(states, runs, g) && leaves(*type_rest, g)
                    ==> final(self).has_planned(states.push(state@), runs.push(names@), g),
            final(self).nodes@.len() == old(self).nodes@.len() + 1,
            final(self).nodes@.take(old(self).nodes@.len() as int) == old(self).nodes@,
            final(self).nodes@.last().label@ == state.name@,
    {
        let inner: Vec<String> = list_types(state, names, type_rest);
        let mut i: usize = 0;
        let ghost iv = views(inner@);
        let ghost before = self.types@;
        let ghost nodes_before = self.nodes@;
        assert(iv.take(0) =~= Seq::empty());
        while i < inner.len()
            invariant
                iv == views(inner@),
                i <= inner@.len(),
                self.nodes@ == nodes_before,
                self.types@ == with_types(before, iv.take(i as int)),
            decreases inner@.len() - i,
        {
            assert(iv.take(i + 1).drop_last() =~= iv.take(i as int));
            assert(iv.take(i + 1).last() == inner@[i as int]@);
            self.types.insert(inner[i].clone());
            i = i + 1;
        }
        assert(iv.take(i as int) =~= iv);
        let node = NodePlan { label: state.name.clone(), inner };
        self.nodes.push(node);
        proof {
            assert(self.nodes@.take(nodes_before.len() as int) =~= nodes_before);
            assert forall|states: Seq<StateView>, runs: Seq<Seq<Seq<char>>>, g: Types| #[trigger]
                old(self).has_planned(states, runs, g) && leaves(
                    *type_rest,
                    g,
                ) implies self.has_planned(states.push(state@), runs.push(names@), g) by {
                let ss = states.push(state@);
                let rr = runs.push(names@);
                assert(node_plan_views(self.nodes@) =~= node_plan_views(nodes_before).push(node@));
                assert forall|k: int| 0 <= k < ss.len() implies node_plan_views(self.nodes@)[k]
                    == planned_nodes(ss, rr, g)[k] by {
                    if k < states.len() {
                        assert(node_plan_views(nodes_before)[k] == planned_nodes(
                            states,
                            runs,
                            g,
                        )[k]);
                    }
                }
                assert(node_plan_views(self.nodes@) =~= planned_nodes(ss, rr, g));
                lemma_planned_types(states, runs, g, state@, names@, states.len() as int);
            }
        }
    }

    /// The breakdown for the types that have been planned.
    pub fn breakdown(&self) -> (r: Vec<BreakdownPlan>)
        ensures
            breakdown_views(r@) == planned_breakdown(self.types@),
    {
        let ghost tv = self.types@;
        let mut r: Vec<BreakdownPlan> = Vec::new();
        let mut i: usize = 0;
        while i < self.types.len()
            invariant
                tv == self.types@,
                i <= tv.len(),
                breakdown_views(r@) == planned_breakdown(tv).take(i as int),
            decreases tv.len() - i,
        {
            let ghost before = r@;
            let text: String = self.types.get(i).clone();
            let dir_name: String = last_of_path(text.as_str());
            let p = BreakdownPlan { type_text: text, dir_name };
            r.push(p);
            assert(breakdown_views(r@) =~= breakdown_views(before).push(
                planned_breakdown(tv)[i as int],
            ));
            assert(planned_breakdown(tv).take(i + 1) =~= planned_breakdown(tv).take(
                i as int,
            ).push(planned_breakdown(tv)[i as int]));
            i = i + 1;
        }
        assert(planned_breakdown(tv).take(i as int) =~= planned_breakdown(tv));
        r
    }
}

proof fn lemma_planned_types(
    states: Seq<StateView>,
    runs: Seq<Seq<Seq<char>>>,
    g: Types,
    state: StateView,
    names: Seq<Seq<char>>,
    n: int,
)
    requires
        0 <= n <= states.len(),
        states.len() == runs.len(),
    ensures
        planned_types(states.push(state), runs.push(names), g, n) == planned_types(
            states,
            runs,
            g,
            n,
        ),
    decreases n,
{
    if n > 0 {
        lemma_planned_types(states, runs, g, state, names, n - 1);
    }
}

/// The types that are drawn inside the state `state`, which runs the machines `names`.
fn list_types<T: Fn(&str) -> Result<usize, String>>(
    state: &StateDefinition,
    names: &NameSet,
    type_rest: &T,
) -> (r: Vec<String>)
    requires
        forall|x: &str| #[trigger] call_requires(*type_rest, (x,)),
    ensures
        forall|g: Types| #[trigger]
            leaves(*type_rest, g) ==> views(r@) == inner_types(state@, names@, g),
{
    let ghost fv = state@.fields.map_values(|f: (Seq<char>, Seq<char>)| f.1);
    let mut r: Vec<String> = Vec::new();
    let mut i: usize = 0;
    while i < state.fields.len()
        invariant
            fv == state@.fields.map_values(|f: (Seq<char>, Seq<char>)| f.1),
            i <= state.fields@.len(),
            views(r@) == fv.take(i as int),
        decreases state.fields@.len() - i,
    {
        let ghost before = r@;
        r.push(state.fields[i].1.clone());
        assert(fv[i as int] == state.fields@[i as int].1@);
        assert(views(r@) =~= views(before).push(fv[i as int]));
        assert(fv.take(i + 1) =~= fv.take(i as int).push(fv[i as int]));
        i = i + 1;
    }
    assert(fv.take(i as int) =~= fv);
    let mut k: usize = 0;
    assert(names@.take(0) =~= Seq::empty());
    assert(fv + Seq::<Seq<char>>::empty() =~= fv);
    while k < names.len()
        invariant
            forall|x: &str| #[trigger] call_requires(*type_rest, (x,)),
            k <= names@.len(),
            forall|g: Types| #[trigger]
                leaves(*type_rest, g) ==> views(r@) == fv + typed(names@.take(k as int), g),
        decreases names@.len() - k,
    {
        assert(names@.take(k + 1).drop_last() =~= names@.take(k as int));
        assert(names@.take(k + 1).last() == names@[k as int]);
        let name: &String = names.get(k);
        if takes_all(name.as_str(), type_rest) {
            let ghost before = r@;
            r.push(name.clone());
            assert(views(r@) =~= views(before).push(name@));
            assert forall|g: Types| #[trigger] leaves(*type_rest, g) implies views(r@) == fv
                + typed(names@.take(k + 1), g) by {
                assert(fv + typed(names@.take(k + 1), g) =~= (fv + typed(
                    names@.take(k as int),
                    g,
                )).push(name@));
            }
        }
        k = k + 1;
    }
    assert(names@.take(k as int) =~= names@);
    r
}

/// `names` with the machines that the machine `fsm` runs in `e`, if there is one.
pub open spec fn run_in_block(
    fsm: Seq<char>,
    e: Option<ExprView>,
    names: Seq<Seq<char>>,
) -> Seq<Seq<char>> {
    match e {
        Some(e) => run_in(fsm, e, names),
        None => names,
    }
}

/// The machines that the machine `fsm` runs in a state with these blocks.
pub open spec fn run_in_state(fsm: Seq<char>, b: BlocksView) -> Seq<Seq<char>> {
    run_in_block(fsm, b.exit, run_in(fsm, b.process, run_in_block(fsm, b.entry, Seq::empty())))
}

/// The machines that `fsm` runs in each of its states.
pub open spec fn all_runs(fsm: Seq<char>, blocks: Seq<BlocksView>) -> Seq<Seq<Seq<char>>> {
    blocks.map_values(|b: BlocksView| run_in_state(fsm, b))
}

/// The transitions of the first `n` states of `m`.
pub open spec fn planned_edges(m: FsmView, blocks: Seq<BlocksView>, n: int) -> Seq<TransitionView>
    decreases n,
{
    if n <= 0 {
        Seq::empty()
    } else {
        planned_edges(m, blocks, n - 1) + visited(
            m.name,
            m.states[n - 1].name,
            None,
            blocks[n - 1].process,
        )
    }
}

/// The machines that the machine `fsm` runs in a state with these blocks.
fn find_runs(fsm: &str, b: &StateBlocks) -> (r: NameSet)
    ensures
        r@ == run_in_state(fsm@, b@),
        r.wf(),
{
    let mut v: SubFsmVisitor = SubFsmVisitor::new(fsm.to_string());
    match &b.entry {
        Some(e) => {
            v.visit_expr(e);
        },
        None => {},
    }
    v.visit_expr(&b.process);
    match &b.exit {
        Some(e) => {
            v.visit_expr(e);
        },
        None => {},
    }
    v.discovered
}

/// `r` is what is put behind the machine `m`, whose states have the blocks `blocks`, with the
/// answers `g` on types.
pub open spec fn expands(m: FsmView, blocks: Seq<BlocksView>, g: Types, r: Expansion) -> bool {
    let runs = all_runs(m.name, blocks);
    &&& node_plan_views(r.nodes@) == planned_nodes(m.states, runs, g)
    &&& breakdown_views(r.breakdown@) == planned_breakdown(
        planned_types(m.states, runs, g, m.states.len() as int),
    )
}

/// The nodes of `r` have the names of `states`, in their order.
pub open spec fn labelled(states: Seq<StateView>, nodes: Seq<NodePlan>) -> bool {
    &&& nodes.len() == states.len()
    &&& forall|k: int| 0 <= k < nodes.len() ==> (#[trigger] nodes[k]).label@ == states[k].name
}

/// What is put behind the machine `fsm`, whose states have the blocks `blocks`. `type_rest`
/// is asked which names are types.
pub fn plan_diagram<T: Fn(&str) -> Result<usize, String>>(
    fsm: &FsmDefinition,
    blocks: &Vec<StateBlocks>,
    type_rest: &T,
) -> (r: Expansion)
    requires
        blocks@.len() == fsm.states@.len(),
        forall|x: &str| #[trigger] call_requires(*type_rest, (x,)),
    ensures
        r.name@ == fsm.name@,
        labelled(fsm@.states, r.nodes@),
        transition_views(r.edges@) == planned_edges(
            fsm@,
            blocks_views(blocks@),
            blocks@.len() as int,
        ),
        forall|g: Types| #[trigger]
            leaves(*type_rest, g) ==> expands(fsm@, blocks_views(blocks@), g, r),
{
    let ghost sv = fsm@.states;
    let ghost bv = blocks_views(blocks@);
    let ghost runs = all_runs(fsm.name@, bv);
    let mut planner: Planner = Planner::new();
    let mut edges: Vec<TransitionInfo> = Vec::new();
    let mut i: usize = 0;
    assert(sv.take(0) =~= Seq::empty());
    assert(runs.take(0) =~= Seq::empty());
    assert(forall|g: Types| #[trigger]
        leaves(*type_rest, g) ==> planner.has_planned(sv.take(0), runs.take(0), g));
    assert(transition_views(edges@) =~= Seq::empty());
    while i < fsm.states.len()
        invariant
            sv == fsm@.states,
            bv == blocks_views(blocks@),
            runs == all_runs(fsm.name@, bv),
            blocks@.len() == fsm.states@.len(),
            forall|x: &str| #[trigger] call_requires(*type_rest, (x,)),
            i <= fsm.states@.len(),
            labelled(sv.take(i as int), planner.nodes@),
            forall|g: Types| #[trigger]
                leaves(*type_rest, g) ==> planner.has_planned(
                    sv.take(i as int),
                    runs.take(i as int),
                    g,
                ),
            transition_views(edges@) == planned_edges(fsm@, bv, i as int),
        decreases fsm.states@.len() - i,
    {
        assert(sv[i as int] == fsm.states@[i as int]@);
        assert(bv[i as int] == blocks@[i as int]@);
        let names: NameSet = find_runs(fsm.name.as_str(), &blocks[i]);
        let ghost nodes_before = planner.nodes@;
        planner.add_state(&fsm.states[i], &names, type_rest);
        assert(sv.take(i + 1) =~= sv.take(i as int).push(sv[i as int]));
        assert(runs.take(i + 1) =~= runs.take(i as int).push(runs[i as int]));
        assert forall|k: int| 0 <= k < planner.nodes@.len() implies (
        #[trigger] planner.nodes@[k]).label@ == sv.take(i + 1)[k].name by {
            if k < i {
                assert(planner.nodes@[k] == planner.nodes@.take(nodes_before.len() as int)[k]);
                assert(nodes_before[k].label@ == sv.take(i as int)[k].name);
            }
        }
        let mut visitor: TransitionVisitor = TransitionVisitor::new(
            fsm.name.clone(),
            fsm.states[i].name.clone(),
        );
        visitor.visit_expr(&blocks[i].process);
        let ghost before = edges@;
        let ghost found = visitor.transitions@;
        edges.append(&mut visitor.transitions);
        assert(transition_views(edges@) =~= transition_views(before) + transition_views(found));
        assert(transition_views(found) =~= visited(
            fsm.name@,
            sv[i as int].name,
            None,
            bv[i as int].process,
        ));
        i = i + 1;
    }
    assert(sv.take(i as int) =~= sv);
    assert(runs.take(i as int) =~= runs);
    let breakdown: Vec<BreakdownPlan> = planner.breakdown();
    Expansion { name: fsm.name.clone(), nodes: planner.nodes, edges, breakdown }
}

/// The expansion `r` has the name, the nodes and the edges of the machine `d`.
pub open spec fn outlines(d: DefinitionView, r: Expansion) -> bool {
    &&& r.name@ == d.fsm.name
    &&& labelled(d.fsm.states, r.nodes@)
    &&& transition_views(r.edges@) == planned_edges(d.fsm, d.blocks, d.blocks.len() as int)
}

/// The expansion `r` has the name, the nodes and the edges of some machine.
pub open spec fn is_outlined(r: Expansion) -> bool {
    exists|d: DefinitionView| outlines(d, r)
}

/// The result `r` is the one for the tokens `toks`, with the answers `p`: an error if these
/// write down no machine, and what is put behind the machine otherwise.
pub open spec fn generates(
    p: Parsers,
    toks: Seq<InputView>,
    r: Result<Expansion, ParseError>,
) -> bool {
    match definition(p, toks) {
        Err(failure) => r matches Err(e) && e@ == failure,
        Ok(d) => r matches Ok(e) && outlines(d, e) && expands(d.fsm, d.blocks, p.ty, e),
    }
}

/// What is put behind the state machine that `tokens` write down. The three parsers are those
/// of [`parse_definition_with`].
pub fn generate_diagram_with<
    I: Fn(&str) -> bool,
    T: Fn(&str) -> Result<usize, String>,
    E: Fn(&str) -> Result<(usize, Vec<ExprStep>), String>,
>(tokens: &Vec<InputToken>, is_ident: &I, type_rest: &T, expr_front: &E) -> (r: Result<
    Expansion,
    ParseError,
>)
    requires
        can_be_asked(*is_ident, *type_rest, *expr_front),
    ensures
        forall|p: Parsers| #[trigger]
            answer_as(*is_ident, *type_rest, *expr_front, p) ==> generates(
                p,
                input_views(tokens@),
                r,
            ),
        no_ident(input_views(tokens@)) ==> r matches Err(ParseError::NoIdent(true)),
        r matches Ok(e) ==> is_outlined(e),
{
    match parse_definition_with(tokens, is_ident, type_rest, expr_front) {
        Ok(d) => {
            let e: Expansion = plan_diagram(&d.fsm, &d.blocks, type_rest);
            assert(outlines(d@, e));
            assert(is_outlined(e));
            Ok(e)
        },
        Err(e) => Err(e),
    }
}

/// What is put behind the state machine that `tokens` write down, with the parsers of `syn`.
pub fn generate_diagram(tokens: &Vec<InputToken>) -> (r: Result<Expansion, ParseError>)
    ensures
        forall|p: Parsers| #[trigger]
            syn_answers_as(p) ==> generates(p, input_views(tokens@), r),
        no_ident(input_views(tokens@)) ==> r matches Err(ParseError::NoIdent(true)),
        r matches Ok(e) ==> is_outlined(e),
{
    match parse_definition(tokens) {
        Ok(d) => {
            let e: Expansion = plan_diagram(&d.fsm, &d.blocks, &parse_type);
            assert(outlines(d@, e));
            assert(is_outlined(e));
            proof {
                lemma_syn_types();
            }
            Ok(e)
        },
        Err(e) => Err(e),
    }
}

} // verus!
