//! State diagrams: a node for each state, with the diagrams of the machines that run
//! inside it, and an edge for each transition between two states.
use vstd::prelude::*;

use crate::model::{
    fsm_fits, state_fits, state_views, transition_views, FsmDefinition, FsmView, StateDefinition,
    StateView, TransitionInfo, TransitionView,
};
use crate::names::{NameMap, NameSet};
use crate::nesting::{
    all_fit, answers_below, answers_in, discover_state, find_context, fsm_views, is_context_struct,
    lemma_answers_go_down, name_in_context, names_nest, nests, nests_finitely, nests_within,
    resolves, state_machines, states_nest, surroundings, Surroundings,
};
use crate::subfsm::SubFsmExtractor;
use crate::syntax::{parse_source, source_tree, SyntaxTree};
use crate::text::{replace_all, replaced};
use crate::transitions::{extracted, Found, Scope, TransitionExtractor};

verus! {

/// A state diagram.
#[derive(Debug)]
pub struct StateDiagram {
    pub nodes: Vec<DiagramNode>,
    pub edges: Vec<DiagramEdge>,
}

/// A node, with the diagrams that are drawn inside it.
#[derive(Debug)]
pub struct DiagramNode {
    pub label: String,
    pub inner: Vec<StateDiagram>,
}

/// An edge between two nodes, which are given by their positions.
#[derive(Debug)]
pub struct DiagramEdge {
    pub source: usize,
    pub destination: usize,
    pub label: String,
}

/// What a [`StateDiagram`] shows.
#[verifier::ext_equal]
pub struct DiagramView {
    pub nodes: Seq<NodeView>,
    pub edges: Seq<EdgeView>,
}

/// What a [`DiagramNode`] shows.
#[verifier::ext_equal]
pub struct NodeView {
    pub label: Seq<char>,
    pub inner: Seq<DiagramView>,
}

/// What a [`DiagramEdge`] shows.
#[verifier::ext_equal]
pub struct EdgeView {
    pub source: int,
    pub destination: int,
    pub label: Seq<char>,
}

/// What the diagram `d` shows.
pub open spec fn diagram_view(d: StateDiagram) -> DiagramView
    decreases d,
{
    DiagramView {
        nodes: Seq::new(
            d.nodes@.len(),
            |i: int|
                if 0 <= i < d.nodes@.len() {
                    node_view(d.nodes@[i])
                } else {
                    arbitrary()
                },
        ),
        edges: edge_views(d.edges@),
    }
}

/// What the node `n` shows.
pub open spec fn node_view(n: DiagramNode) -> NodeView
    decreases n,
{
    NodeView {
        label: n.label@,
        inner: Seq::new(
            n.inner@.len(),
            |i: int|
                if 0 <= i < n.inner@.len() {
                    diagram_view(n.inner@[i])
                } else {
                    arbitrary()
                },
        ),
    }
}

impl View for StateDiagram {
    type V = DiagramView;

    open spec fn view(&self) -> DiagramView {
        diagram_view(*self)
    }
}

impl View for DiagramNode {
    type V = NodeView;

    open spec fn view(&self) -> NodeView {
        node_view(*self)
    }
}

impl View for DiagramEdge {
    type V = EdgeView;

    open spec fn view(&self) -> EdgeView {
        EdgeView {
            source: self.source as int,
            destination: self.destination as int,
            label: self.label@,
        }
    }
}

/// What several edges show.
pub open spec fn edge_views(edges: Seq<DiagramEdge>) -> Seq<EdgeView> {
    edges.map_values(|e: DiagramEdge| e@)
}

/// What several nodes show.
pub open spec fn node_views(nodes: Seq<DiagramNode>) -> Seq<NodeView> {
    nodes.map_values(|n: DiagramNode| n@)
}

/// What several diagrams show.
pub open spec fn diagram_views(diagrams: Seq<StateDiagram>) -> Seq<DiagramView> {
    diagrams.map_values(|d: StateDiagram| d@)
}

/// The label of the edge for a transition with this label. A colon would end the label.
pub open spec fn edge_label(label: Seq<char>) -> Seq<char> {
    if label.len() == 0 {
        "*"@
    } else {
        replaced(label, ":"@, "#colon;"@)
    }
}

/// The node of the state `name`: the last one, where several states have that name.
pub open spec fn node_of(states: Seq<StateView>, name: Seq<char>) -> Option<int>
    decreases states.len(),
{
    if states.len() == 0 {
        None
    } else if states.last().name == name {
        Some(states.len() - 1)
    } else {
        node_of(states.drop_last(), name)
    }
}

/// The edges for the transitions `ts`: one for each that joins two of `states`.
pub open spec fn connected(states: Seq<StateView>, ts: Seq<TransitionView>) -> Seq<EdgeView>
    decreases ts.len(),
{
    if ts.len() == 0 {
        Seq::empty()
    } else {
        let before = connected(states, ts.drop_last());
        let t = ts.last();
        match (node_of(states, t.source), node_of(states, t.target)) {
            (Some(source), Some(destination)) => before.push(
                EdgeView { source, destination, label: edge_label(t.label) },
            ),
            _ => before,
        }
    }
}

/// The transitions found in the state `st` of the machine `fsm`.
pub open spec fn state_transitions(
    fsm: Seq<char>,
    st: StateView,
    guards: bool,
    mentions: Map<Seq<char>, NameSet>,
) -> Seq<TransitionView> {
    extracted(
        Scope { fsm, source: st.name, guards, mentions },
        None,
        source_tree(st.process_block),
        Found { transitions: Seq::empty(), visited: Seq::empty() },
    ).transitions
}

/// The transitions found in all of `states`, in their order.
pub open spec fn all_transitions(
    fsm: Seq<char>,
    states: Seq<StateView>,
    guards: bool,
    mentions: Map<Seq<char>, NameSet>,
) -> Seq<TransitionView>
    decreases states.len(),
{
    if states.len() == 0 {
        Seq::empty()
    } else {
        all_transitions(fsm, states.drop_last(), guards, mentions) + state_transitions(
            fsm,
            states.last(),
            guards,
            mentions,
        )
    }
}

/// The edges of the diagram of `m`.
pub open spec fn fsm_edges(
    m: FsmView,
    guards: bool,
    mentions: Map<Seq<char>, NameSet>,
) -> Seq<EdgeView> {
    connected(m.states, all_transitions(m.name, m.states, guards, mentions))
}

/// The diagram of `m` alone, without the machines that run inside its states.
pub open spec fn simple_diagram(
    m: FsmView,
    guards: bool,
    mentions: Map<Seq<char>, NameSet>,
) -> DiagramView {
    DiagramView {
        nodes: m.states.map_values(
            |st: StateView| NodeView { label: st.name, inner: Seq::empty() },
        ),
        edges: fsm_edges(m, guards, mentions),
    }
}

/// The label of the edge for a transition with the label `label`.
fn label_of_edge(label: &str) -> (r: String)
    ensures
        r@ == edge_label(label@),
{
    if label.is_empty() {
        "*".to_string()
    } else {
        replace_all(label, ":", "#colon;")
    }
}

/// The edges for the transitions `ts` of a machine with the states `states`.
pub fn connect(states: &Vec<StateDefinition>, ts: &Vec<TransitionInfo>) -> (r: Vec<DiagramEdge>)
    ensures
        edge_views(r@) == connected(
            state_views(states@),
            transition_views(ts@),
        ),
{
    let ghost sv = state_views(states@);
    let ghost tv = transition_views(ts@);
    let mut nodes: NameMap<usize> = NameMap::new();
    let mut i: usize = 0;
    assert(sv.take(0) =~= Seq::empty());
    while i < states.len()
        invariant
            sv == state_views(states@),
            i <= states@.len(),
            forall|k: Seq<char>| #[trigger]
                nodes@.dom().contains(k) <==> node_of(sv.take(i as int), k) is Some,
            forall|k: Seq<char>| #[trigger]
                nodes@.dom().contains(k) ==> node_of(sv.take(i as int), k) == Some(
                    nodes@[k] as int,
                ),
        decreases states@.len() - i,
    {
        assert(sv.take(i + 1).drop_last() =~= sv.take(i as int));
        nodes.insert(states[i].name.clone(), i);
        i = i + 1;
    }
    assert(sv.take(i as int) =~= sv);
    let mut r: Vec<DiagramEdge> = Vec::new();
    let mut j: usize = 0;
    assert(tv.take(0) =~= Seq::empty());
    while j < ts.len()
        invariant
            tv == transition_views(ts@),
            j <= ts@.len(),
            forall|k: Seq<char>| #[trigger]
                nodes@.dom().contains(k) <==> node_of(sv, k) is Some,
            forall|k: Seq<char>| #[trigger]
                nodes@.dom().contains(k) ==> node_of(sv, k) == Some(nodes@[k] as int),
            edge_views(r@) == connected(sv, tv.take(j as int)),
        decreases ts@.len() - j,
    {
        assert(tv.take(j + 1).drop_last() =~= tv.take(j as int));
        let t: &TransitionInfo = &ts[j];
        assert(tv[j as int] == t@);
        match (nodes.get(t.source.as_str()), nodes.get(t.target.as_str())) {
            (Some(source), Some(destination)) => {
                let ghost before = r@;
                let e = DiagramEdge {
                    source: *source,
                    destination: *destination,
                    label: label_of_edge(t.label.as_str()),
                };
                r.push(e);
                assert(edge_views(r@) =~= edge_views(before).push(e@));
            },
            _ => {},
        }
        j = j + 1;
    }
    assert(tv.take(j as int) =~= tv);
    r
}

/// The transitions found in the state `state` of the machine `fsm`.
pub fn find_transitions(
    fsm: &FsmDefinition,
    state: &StateDefinition,
    include_guards: bool,
    function_mentions: &NameMap<NameSet>,
) -> (r: Vec<TransitionInfo>)
    requires
        state_fits(state@),
    ensures
        transition_views(r@) == state_transitions(
            fsm.name@,
            state@,
            include_guards,
            function_mentions@,
        ),
{
    let mut extractor: TransitionExtractor = TransitionExtractor::new(
        fsm.name.clone(),
        state.name.clone(),
        include_guards,
        function_mentions,
    );
    let tree: SyntaxTree = parse_source(state.process_block.as_str());
    extractor.extract(&tree);
    extractor.transitions
}

/// The diagram of `fsm` alone, without the machines that run inside its states.
pub fn generate_mermaid_simple(
    fsm: &FsmDefinition,
    include_guards: bool,
    function_mentions: &NameMap<NameSet>,
) -> (r: StateDiagram)
    requires
        fsm_fits(fsm@),
    ensures
        r@ == simple_diagram(fsm@, include_guards, function_mentions@),
{
    let ghost sv = fsm@.states;
    let ghost mentions = function_mentions@;
    let mut nodes: Vec<DiagramNode> = Vec::new();
    let mut all_edges: Vec<TransitionInfo> = Vec::new();
    let mut i: usize = 0;
    assert(sv.take(0) =~= Seq::empty());
    assert(transition_views(all_edges@) =~= Seq::empty());
    while i < fsm.states.len()
        invariant
            sv == fsm@.states,
            mentions == function_mentions@,
            fsm_fits(fsm@),
            i <= fsm.states@.len(),
            nodes@.len() == i,
            forall|k: int|
                0 <= k < i ==> (#[trigger] nodes@[k]).label@ == sv[k].name && nodes@[k].inner@.len()
                    == 0,
            transition_views(all_edges@) == all_transitions(
                fsm.name@,
                sv.take(i as int),
                include_guards,
                mentions,
            ),
        decreases fsm.states@.len() - i,
    {
        assert(sv[i as int] == fsm.states@[i as int]@);
        assert(sv.take(i + 1).drop_last() =~= sv.take(i as int));
        nodes.push(DiagramNode { label: fsm.states[i].name.clone(), inner: Vec::new() });
        let ghost before = all_edges@;
        let mut found: Vec<TransitionInfo> = find_transitions(
            fsm,
            &fsm.states[i],
            include_guards,
            function_mentions,
        );
        let ghost fv = found@;
        all_edges.append(&mut found);
        assert(transition_views(all_edges@) =~= transition_views(before) + transition_views(fv));
        i = i + 1;
    }
    assert(sv.take(i as int) =~= sv);
    let edges: Vec<DiagramEdge> = connect(&fsm.states, &all_edges);
    let r = StateDiagram { nodes, edges };
    proof {
        let d = simple_diagram(fsm@, include_guards, mentions);
        assert forall|k: int| 0 <= k < sv.len() implies r@.nodes[k] == d.nodes[k] by {
            assert(nodes@[k].label@ == sv[k].name);
            assert(nodes@[k]@.inner =~= Seq::empty());
        }
        assert(r@.nodes =~= d.nodes);
    }
    r
}

/// The diagram of `m`, with `depth` levels of the machines that run inside its states.
pub open spec fn nested_diagram(
    s: Surroundings,
    m: FsmView,
    guards: bool,
    mentions: Map<Seq<char>, NameSet>,
    depth: nat,
) -> DiagramView
    decreases depth, 2nat, 0nat,
{
    DiagramView {
        nodes: nested_nodes(s, m, m.states, guards, mentions, depth),
        edges: fsm_edges(m, guards, mentions),
    }
}

/// The nodes for the states `states` of `m`.
pub open spec fn nested_nodes(
    s: Surroundings,
    m: FsmView,
    states: Seq<StateView>,
    guards: bool,
    mentions: Map<Seq<char>, NameSet>,
    depth: nat,
) -> Seq<NodeView>
    decreases depth, 1nat, states.len(),
{
    if states.len() == 0 {
        Seq::empty()
    } else {
        nested_nodes(s, m, states.drop_last(), guards, mentions, depth).push(
            NodeView {
                label: states.last().name,
                inner: inner_diagrams(
                    s,
                    state_machines(s, m, states.last()),
                    guards,
                    mentions,
                    depth,
                ),
            },
        )
    }
}

/// The diagrams of those of `names` that are machines.
pub open spec fn inner_diagrams(
    s: Surroundings,
    names: Seq<Seq<char>>,
    guards: bool,
    mentions: Map<Seq<char>, NameSet>,
    depth: nat,
) -> Seq<DiagramView>
    decreases depth, 0nat, names.len(),
{
    if names.len() == 0 {
        Seq::empty()
    } else {
        let before = inner_diagrams(s, names.drop_last(), guards, mentions, depth);
        if s.fsms.dom().contains(names.last()) && depth > 0 {
            before.push(
                nested_diagram(s, s.fsms[names.last()], guards, mentions, (depth - 1) as nat),
            )
        } else {
            before
        }
    }
}

/// The diagram of `m` with all machines that run inside its states, where the nesting
/// comes to an end.
pub open spec fn hierarchical_diagram(
    s: Surroundings,
    m: FsmView,
    guards: bool,
    mentions: Map<Seq<char>, NameSet>,
) -> DiagramView {
    nested_diagram(s, m, guards, mentions, choose|depth: nat| nests_within(s, m, depth))
}

/// More levels than there are change nothing.
pub proof fn lemma_depth_enough(
    s: Surroundings,
    m: FsmView,
    guards: bool,
    mentions: Map<Seq<char>, NameSet>,
    depth: nat,
    more: nat,
)
    requires
        nests_within(s, m, depth),
        depth <= more,
    ensures
        nested_diagram(s, m, guards, mentions, depth) == nested_diagram(
            s,
            m,
            guards,
            mentions,
            more,
        ),
    decreases depth, 2nat, 0nat,
{
    lemma_depth_enough_nodes(s, m, m.states.len() as int, guards, mentions, depth, more);
    assert(m.states.take(m.states.len() as int) =~= m.states);
}

proof fn lemma_depth_enough_nodes(
    s: Surroundings,
    m: FsmView,
    n: int,
    guards: bool,
    mentions: Map<Seq<char>, NameSet>,
    depth: nat,
    more: nat,
)
    requires
        0 <= n <= m.states.len(),
        nests_within(s, m, depth),
        depth <= more,
    ensures
        nested_nodes(s, m, m.states.take(n), guards, mentions, depth) == nested_nodes(
            s,
            m,
            m.states.take(n),
            guards,
            mentions,
            more,
        ),
    decreases depth, 1nat, n,
{
    if n > 0 {
        lemma_depth_enough_nodes(s, m, n - 1, guards, mentions, depth, more);
        assert(m.states.take(n).drop_last() =~= m.states.take(n - 1));
        assert(m.states.take(n).last() == m.states[n - 1]);
        let names = state_machines(s, m, m.states[n - 1]);
        lemma_depth_enough_inner(s, names, names.len() as int, guards, mentions, depth, more);
        assert(names.take(names.len() as int) =~= names);
    } else {
        assert(m.states.take(0).len() == 0);
    }
}

proof fn lemma_depth_enough_inner(
    s: Surroundings,
    names: Seq<Seq<char>>,
    n: int,
    guards: bool,
    mentions: Map<Seq<char>, NameSet>,
    depth: nat,
    more: nat,
)
    requires
        0 <= n <= names.len(),
        names_nest(s, names, names.len() as int, depth),
        depth <= more,
    ensures
        inner_diagrams(s, names.take(n), guards, mentions, depth) == inner_diagrams(
            s,
            names.take(n),
            guards,
            mentions,
            more,
        ),
    decreases depth, 0nat, n,
{
    if n > 0 {
        lemma_depth_enough_inner(s, names, n - 1, guards, mentions, depth, more);
        assert(names.take(n).drop_last() =~= names.take(n - 1));
        assert(names.take(n).last() == names[n - 1]);
        let name = names[n - 1];
        if s.fsms.dom().contains(name) {
            lemma_depth_enough(
                s,
                s.fsms[name],
                guards,
                mentions,
                (depth - 1) as nat,
                (more - 1) as nat,
            );
        }
    } else {
        assert(names.take(0).len() == 0);
    }
}

/// The diagram is the same for every depth that `m` nests within.
pub proof fn lemma_hierarchical_diagram(
    s: Surroundings,
    m: FsmView,
    guards: bool,
    mentions: Map<Seq<char>, NameSet>,
    depth: nat,
)
    requires
        nests_within(s, m, depth),
    ensures
        hierarchical_diagram(s, m, guards, mentions) == nested_diagram(
            s,
            m,
            guards,
            mentions,
            depth,
        ),
{
    let some = choose|depth: nat| nests_within(s, m, depth);
    if some <= depth {
        lemma_depth_enough(s, m, guards, mentions, some, depth);
    } else {
        lemma_depth_enough(s, m, guards, mentions, depth, some);
    }
}

/// `f` can be asked for all that it takes to tell the machines that run below those of `names`
/// that are machines.
pub open spec fn answers_each<F: Fn(&str) -> String>(
    f: F,
    s: Surroundings,
    names: Seq<Seq<char>>,
) -> bool {
    forall|k: int|
        0 <= k < names.len() && s.fsms.dom().contains(#[trigger] names[k]) ==> answers_below(
            f,
            s,
            s.fsms[names[k]],
        )
}

/// The diagrams of those of `names` that are machines. The ghost arguments say how deep
/// the machines nest.
fn draw_inner<F: Fn(&str) -> String>(
    names: &NameSet,
    all_fsms: &NameMap<&FsmDefinition>,
    context_struct_map: &NameMap<NameMap<String>>,
    include_guards: bool,
    function_mentions: &NameMap<NameSet>,
    resolve_type: &F,
    Ghost(g): Ghost<spec_fn(Seq<char>) -> Seq<char>>,
    Ghost(depth): Ghost<nat>,
) -> (r: Vec<StateDiagram>)
    requires
        answers_each(
            *resolve_type,
            surroundings(all_fsms@, context_struct_map@, g),
            names@,
        ),
        all_fit(fsm_views(all_fsms@)),
        resolves(*resolve_type, g),
        names_nest(
            surroundings(all_fsms@, context_struct_map@, g),
            names@,
            names@.len() as int,
            depth,
        ),
    ensures
        forall|h: spec_fn(Seq<char>) -> Seq<char>| #[trigger]
            resolves(*resolve_type, h) ==> {
                let s = surroundings(all_fsms@, context_struct_map@, h);
                &&& names_nest(s, names@, names@.len() as int, depth)
                &&& diagram_views(r@) == inner_diagrams(
                    s,
                    names@,
                    include_guards,
                    function_mentions@,
                    depth,
                )
            },
    decreases depth, 0nat,
{
    let mut r: Vec<StateDiagram> = Vec::new();
    let mut i: usize = 0;
    assert(names@.take(0) =~= Seq::empty());
    assert(diagram_views(r@) =~= Seq::empty());
    while i < names.len()
        invariant
            answers_each(
                *resolve_type,
                surroundings(all_fsms@, context_struct_map@, g),
                names@,
            ),
            all_fit(fsm_views(all_fsms@)),
            resolves(*resolve_type, g),
            names_nest(
                surroundings(all_fsms@, context_struct_map@, g),
                names@,
                names@.len() as int,
                depth,
            ),
            i <= names@.len(),
            forall|h: spec_fn(Seq<char>) -> Seq<char>| #[trigger]
                resolves(*resolve_type, h) ==> {
                    let s = surroundings(all_fsms@, context_struct_map@, h);
                    &&& names_nest(s, names@, i as int, depth)
                    &&& diagram_views(r@) == inner_diagrams(
                        s,
                        names@.take(i as int),
                        include_guards,
                        function_mentions@,
                        depth,
                    )
                },
        decreases names@.len() - i,
    {
        assert(names@.take(i + 1).drop_last() =~= names@.take(i as int));
        assert(names@.take(i + 1).last() == names@[i as int]);
        match all_fsms.get(names.get(i).as_str()) {
            Some(sub) => {
                assert(fsm_views(all_fsms@).dom().contains(names@[i as int]));
                assert(fsm_views(all_fsms@)[names@[i as int]] == sub@);
                let ghost before = r@;
                let inner: StateDiagram = draw_levels(
                    sub,
                    all_fsms,
                    context_struct_map,
                    include_guards,
                    function_mentions,
                    resolve_type,
                    Ghost(g),
                    Ghost((depth - 1) as nat),
                );
                r.push(inner);
                assert(diagram_views(r@) =~= diagram_views(before).push(inner@));
            },
            None => {
                assert(!fsm_views(all_fsms@).dom().contains(names@[i as int]));
            },
        }
        i = i + 1;
    }
    assert(names@.take(i as int) =~= names@);
    r
}

/// The diagram of `fsm` with all machines that run inside its states. The ghost arguments
/// say how deep the machines nest.
fn draw_levels<F: Fn(&str) -> String>(
    fsm: &FsmDefinition,
    all_fsms: &NameMap<&FsmDefinition>,
    context_struct_map: &NameMap<NameMap<String>>,
    include_guards: bool,
    function_mentions: &NameMap<NameSet>,
    resolve_type: &F,
    Ghost(g): Ghost<spec_fn(Seq<char>) -> Seq<char>>,
    Ghost(depth): Ghost<nat>,
) -> (r: StateDiagram)
    requires
        answers_below(
            *resolve_type,
            surroundings(all_fsms@, context_struct_map@, g),
            fsm@,
        ),
        fsm_fits(fsm@),
        all_fit(fsm_views(all_fsms@)),
        resolves(*resolve_type, g),
        nests_within(surroundings(all_fsms@, context_struct_map@, g), fsm@, depth),
    ensures
        forall|h: spec_fn(Seq<char>) -> Seq<char>| #[trigger]
            resolves(*resolve_type, h) ==> {
                let s = surroundings(all_fsms@, context_struct_map@, h);
                &&& nests_within(s, fsm@, depth)
                &&& r@ == nested_diagram(s, fsm@, include_guards, function_mentions@, depth)
            },
    decreases depth, 1nat,
{
    let ghost m = fsm@;
    let ghost sv = fsm@.states;
    let ghost mentions = function_mentions@;
    let mut nodes: Vec<DiagramNode> = Vec::new();
    let mut all_edges: Vec<TransitionInfo> = Vec::new();
    let context: Option<(String, &NameMap<String>)> = find_context(
        fsm,
        all_fsms,
        context_struct_map,
        resolve_type,
    );
    let mut i: usize = 0;
    assert(sv.take(0) =~= Seq::empty());
    assert(transition_views(all_edges@) =~= Seq::empty());
    assert(node_views(nodes@) =~= Seq::empty());
    while i < fsm.states.len()
        invariant
            m == fsm@,
            sv == fsm@.states,
            mentions == function_mentions@,
            answers_below(
                *resolve_type,
                surroundings(all_fsms@, context_struct_map@, g),
                fsm@,
            ),
            fsm_fits(fsm@),
            all_fit(fsm_views(all_fsms@)),
            resolves(*resolve_type, g),
            nests_within(surroundings(all_fsms@, context_struct_map@, g), fsm@, depth),
            i <= fsm.states@.len(),
            forall|h: spec_fn(Seq<char>) -> Seq<char>| #[trigger]
                resolves(*resolve_type, h) ==> is_context_struct(
                    context,
                    surroundings(all_fsms@, context_struct_map@, h),
                    m,
                ),
            forall|h: spec_fn(Seq<char>) -> Seq<char>| #[trigger]
                resolves(*resolve_type, h) ==> {
                    let s = surroundings(all_fsms@, context_struct_map@, h);
                    &&& states_nest(s, m, i as int, depth)
                    &&& node_views(nodes@) == nested_nodes(
                        s,
                        m,
                        sv.take(i as int),
                        include_guards,
                        mentions,
                        depth,
                    )
                },
            transition_views(all_edges@) == all_transitions(
                fsm.name@,
                sv.take(i as int),
                include_guards,
                mentions,
            ),
        decreases fsm.states@.len() - i,
    {
        assert(sv[i as int] == fsm.states@[i as int]@);
        assert(sv.take(i + 1).drop_last() =~= sv.take(i as int));
        assert(sv.take(i + 1).last() == sv[i as int]);
        let state: &StateDefinition = &fsm.states[i];
        let mut x: SubFsmExtractor = SubFsmExtractor::new(fsm.name.clone());
        discover_state(&mut x, state);
        assert(answers_in(
            *resolve_type,
            surroundings(all_fsms@, context_struct_map@, g),
            m,
            m.states[i as int],
        ));
        let names: NameSet = name_in_context(
            fsm,
            &x,
            &context,
            all_fsms,
            context_struct_map,
            resolve_type,
        );
        assert(forall|h: spec_fn(Seq<char>) -> Seq<char>| #[trigger]
            resolves(*resolve_type, h) ==> names@ == state_machines(
                surroundings(all_fsms@, context_struct_map@, h),
                m,
                sv[i as int],
            ));
        assert(names_nest(
            surroundings(all_fsms@, context_struct_map@, g),
            names@,
            names@.len() as int,
            depth,
        )) by {
            let s = surroundings(all_fsms@, context_struct_map@, g);
            assert forall|k: int|
                0 <= k < names@.len() && s.fsms.dom().contains(#[trigger] names@[k]) implies depth
                > 0 && nests_within(s, s.fsms[names@[k]], (depth - 1) as nat) by {
                assert(names@[k] == state_machines(s, m, m.states[i as int])[k]);
            }
        }
        assert(answers_each(
            *resolve_type,
            surroundings(all_fsms@, context_struct_map@, g),
            names@,
        )) by {
            let s = surroundings(all_fsms@, context_struct_map@, g);
            assert forall|k: int|
                0 <= k < names@.len() && s.fsms.dom().contains(
                    #[trigger] names@[k],
                ) implies answers_below(*resolve_type, s, s.fsms[names@[k]]) by {
                lemma_answers_go_down(*resolve_type, s, m, i as int, names@[k]);
            }
        }
        let inner: Vec<StateDiagram> = draw_inner(
            &names,
            all_fsms,
            context_struct_map,
            include_guards,
            function_mentions,
            resolve_type,
            Ghost(g),
            Ghost(depth),
        );
        let ghost nodes_before = nodes@;
        let node = DiagramNode { label: state.name.clone(), inner };
        assert(node@.inner =~= diagram_views(inner@));
        nodes.push(node);
        assert(node_views(nodes@) =~= node_views(nodes_before).push(node@));
        let ghost before = all_edges@;
        let mut found: Vec<TransitionInfo> = find_transitions(
            fsm,
            state,
            include_guards,
            function_mentions,
        );
        let ghost fv = found@;
        all_edges.append(&mut found);
        assert(transition_views(all_edges@) =~= transition_views(before) + transition_views(fv));
        i = i + 1;
    }
    assert(sv.take(i as int) =~= sv);
    let edges: Vec<DiagramEdge> = connect(&fsm.states, &all_edges);
    let r = StateDiagram { nodes, edges };
    assert(r@.nodes =~= node_views(nodes@));
    r
}

/// The diagram of `fsm` with all machines that run inside its states. `resolve_type` says
/// which name each type goes by. Of a machine that runs inside itself there is no diagram.
pub fn populate_builder_hierarchical<F: Fn(&str) -> String + Copy>(
    fsm: &FsmDefinition,
    all_fsms: &NameMap<&FsmDefinition>,
    context_struct_map: &NameMap<NameMap<String>>,
    include_guards: bool,
    function_mentions: &NameMap<NameSet>,
    resolve_type: F,
) -> (r: StateDiagram)
    requires
        fsm_fits(fsm@),
        all_fit(fsm_views(all_fsms@)),
        exists|g: spec_fn(Seq<char>) -> Seq<char>| #[trigger]
            resolves(resolve_type, g) && {
                let s = surroundings(all_fsms@, context_struct_map@, g);
                nests(s, fsm@) && answers_below(resolve_type, s, fsm@)
            },
    ensures
        forall|g: spec_fn(Seq<char>) -> Seq<char>| #[trigger]
            resolves(resolve_type, g) ==> {
                let s = surroundings(all_fsms@, context_struct_map@, g);
                &&& nests(s, fsm@)
                &&& r@ == hierarchical_diagram(s, fsm@, include_guards, function_mentions@)
            },
{
    let ghost g = choose|g: spec_fn(Seq<char>) -> Seq<char>| #[trigger]
        resolves(resolve_type, g) && {
            let s = surroundings(all_fsms@, context_struct_map@, g);
            nests(s, fsm@) && answers_below(resolve_type, s, fsm@)
        };
    let ghost depth = choose|depth: nat|
        nests_within(surroundings(all_fsms@, context_struct_map@, g), fsm@, depth);
    let r: StateDiagram = draw_levels(
        fsm,
        all_fsms,
        context_struct_map,
        include_guards,
        function_mentions,
        &resolve_type,
        Ghost(g),
        Ghost(depth),
    );
    proof {
        assert forall|h: spec_fn(Seq<char>) -> Seq<char>| #[trigger]
            resolves(resolve_type, h) implies {
            let s = surroundings(all_fsms@, context_struct_map@, h);
            &&& nests(s, fsm@)
            &&& r@ == hierarchical_diagram(s, fsm@, include_guards, function_mentions@)
        } by {
            lemma_hierarchical_diagram(
                surroundings(all_fsms@, context_struct_map@, h),
                fsm@,
                include_guards,
                function_mentions@,
                depth,
            );
        }
    }
    r
}

/// The diagram of `fsm` as it is drawn: with all machines that run inside its states.
pub fn generate_mermaid_hierarchical<F: Fn(&str) -> String + Copy>(
    fsm: &FsmDefinition,
    all_fsms: &NameMap<&FsmDefinition>,
    context_struct_map: &NameMap<NameMap<String>>,
    include_guards: bool,
    function_mentions: &NameMap<NameSet>,
    resolve_type: F,
) -> (r: StateDiagram)
    requires
        fsm_fits(fsm@),
        all_fit(fsm_views(all_fsms@)),
        exists|g: spec_fn(Seq<char>) -> Seq<char>| #[trigger]
            resolves(resolve_type, g) && {
                let s = surroundings(all_fsms@, context_struct_map@, g);
                nests(s, fsm@) && answers_below(resolve_type, s, fsm@)
            },
    ensures
        forall|g: spec_fn(Seq<char>) -> Seq<char>| #[trigger]
            resolves(resolve_type, g) ==> {
                let s = surroundings(all_fsms@, context_struct_map@, g);
                &&& nests(s, fsm@)
                &&& r@ == hierarchical_diagram(s, fsm@, include_guards, function_mentions@)
            },
{
    populate_builder_hierarchical(
        fsm,
        all_fsms,
        context_struct_map,
        include_guards,
        function_mentions,
        resolve_type,
    )
}

/// The diagram of `fsm` with all machines that run inside its states, or nothing where one
/// of them runs inside itself.
pub fn try_generate_mermaid_hierarchical<F: Fn(&str) -> String + Copy>(
    fsm: &FsmDefinition,
    all_fsms: &NameMap<&FsmDefinition>,
    context_struct_map: &NameMap<NameMap<String>>,
    include_guards: bool,
    function_mentions: &NameMap<NameSet>,
    resolve_type: F,
) -> (r: Option<StateDiagram>)
    requires
        exists|g: spec_fn(Seq<char>) -> Seq<char>| #[trigger]
            resolves(resolve_type, g) && answers_below(
                resolve_type,
                surroundings(all_fsms@, context_struct_map@, g),
                fsm@,
            ),
        fsm_fits(fsm@),
        all_fit(fsm_views(all_fsms@)),
    ensures
        forall|g: spec_fn(Seq<char>) -> Seq<char>| #[trigger]
            resolves(resolve_type, g) ==> {
                let s = surroundings(all_fsms@, context_struct_map@, g);
                match r {
                    Some(d) => nests(s, fsm@) && d@ == hierarchical_diagram(
                        s,
                        fsm@,
                        include_guards,
                        function_mentions@,
                    ),
                    None => !nests(s, fsm@),
                }
            },
{
    if nests_finitely(fsm, all_fsms, context_struct_map, &resolve_type) {
        Some(
            generate_mermaid_hierarchical(
                fsm,
                all_fsms,
                context_struct_map,
                include_guards,
                function_mentions,
                resolve_type,
            ),
        )
    } else {
        None
    }
}

/// A drawn diagram as it is written to a file: with line feeds alone, and without the
/// direction of the inner diagrams.
pub open spec fn finished(text: Seq<char>) -> Seq<char> {
    replaced(replaced(text, "\r\n"@, "\n"@), "    direction LR\n"@, ""@)
}

/// The text of a drawn diagram as it is written to a file.
pub fn finish_text(text: &str) -> (r: String)
    ensures
        r@ == finished(text@),
{
    let lines: String = replace_all(text, "\r\n", "\n");
    replace_all(lines.as_str(), "    direction LR\n", "")
}

} // verus!
