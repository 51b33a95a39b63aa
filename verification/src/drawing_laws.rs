//! What diagrams show of the source text of a machine.
use vstd::prelude::*;

use crate::diagram::{
    all_transitions, connected, edge_label, hierarchical_diagram, node_of, simple_diagram,
    state_transitions, DiagramView, EdgeView,
};
use crate::diagram_laws::{
    draws, inner_hierarchies, is_last_called, law_edges_join_states, law_node_of,
    law_nodes_hold_machines, law_transitions_drawn,
};
use crate::extraction_laws::{
    goes_to, is_path_front, label_along, label_shown, law_calls_are_found, lemma_last_segment,
    reaches_down, runs,
};
use crate::model::{FsmView, StateView, TransitionView};
use crate::names::{with_name, NameSet};
use crate::nesting::{
    block_discovery, context_name, field_machine, fields_discovery, machines_named, nests, nothing,
    resolved_all, state_discovery, state_machines, with_fields, Surroundings,
};
use crate::nesting_laws::law_machines_named;
use crate::positions::{lemma_unspaced, node_at, unspaced};
use crate::reason_laws::{
    adds_target, has_reason, law_called_functions_followed, law_found_with_reason,
    law_mentions_are_found, mentions_state,
};
use crate::subfsm::{discovered_in, Discovery};
use crate::subfsm_laws::{has_field, has_machine, law_fields_discovered, law_machines_discovered};
use crate::syntax::source_tree;
use crate::transition_laws::{law_extraction_grows, proper};
use crate::transitions::{extracted, last_segment, Found, Scope};

verus! {

/// Nothing found yet.
pub open spec fn nothing_found() -> Found {
    Found { transitions: Seq::empty(), visited: Seq::empty() }
}

/// Where the transitions of the state `st` of the machine `fsm` are looked for.
pub open spec fn scope_of(
    fsm: Seq<char>,
    st: StateView,
    guards: bool,
    mentions: Map<Seq<char>, NameSet>,
) -> Scope {
    Scope { fsm, source: st.name, guards, mentions }
}

/// The transitions of some states and of some others are those of the ones and then those of
/// the others; those of a single state are what is found in what it does on an event.
pub proof fn law_transitions_of_states(
    fsm: Seq<char>,
    a: Seq<StateView>,
    b: Seq<StateView>,
    st: StateView,
    guards: bool,
    mentions: Map<Seq<char>, NameSet>,
)
    ensures
        all_transitions(fsm, a + b, guards, mentions) == all_transitions(fsm, a, guards, mentions)
            + all_transitions(fsm, b, guards, mentions),
        all_transitions(fsm, seq![st], guards, mentions) == extracted(
            scope_of(fsm, st, guards, mentions),
            None,
            source_tree(st.process_block),
            nothing_found(),
        ).transitions,
    decreases b.len(),
{
    let one = seq![st];
    assert(one.drop_last() =~= Seq::empty());
    assert(all_transitions(fsm, one.drop_last(), guards, mentions) =~= Seq::empty());
    assert(all_transitions(fsm, one, guards, mentions) =~= state_transitions(
        fsm,
        st,
        guards,
        mentions,
    ));
    if b.len() == 0 {
        assert(a + b =~= a);
        assert(all_transitions(fsm, a, guards, mentions) + all_transitions(
            fsm,
            b,
            guards,
            mentions,
        ) =~= all_transitions(fsm, a, guards, mentions));
    } else {
        assert((a + b).drop_last() =~= a + b.drop_last());
        assert((a + b).last() == b.last());
        law_transitions_of_states(fsm, a, b.drop_last(), st, guards, mentions);
        let last = state_transitions(fsm, b.last(), guards, mentions);
        let left = all_transitions(fsm, a, guards, mentions);
        let mid = all_transitions(fsm, b.drop_last(), guards, mentions);
        assert((left + mid) + last =~= left + (mid + last));
    }
}

/// There is one edge for each transition between two states, in the order of the transitions:
/// those of some transitions and of some others are the edges of the ones and then those of
/// the others, and a single transition has one edge, or none where one of its ends is unknown.
pub proof fn law_edges_follow_transitions(
    states: Seq<StateView>,
    a: Seq<TransitionView>,
    b: Seq<TransitionView>,
    t: TransitionView,
)
    ensures
        connected(states, a + b) == connected(states, a) + connected(states, b),
        connected(states, seq![t]).len() <= 1,
        connected(states, seq![t]).len() == 1 <==> exists|i: int, j: int|
            #[trigger] is_last_called(states, t.source, i) && #[trigger] is_last_called(
                states,
                t.target,
                j,
            ),
    decreases b.len(),
{
    let one = seq![t];
    assert(one.drop_last() =~= Seq::empty());
    assert(connected(states, one.drop_last()) =~= Seq::empty());
    law_node_of(states, t.source);
    law_node_of(states, t.target);
    if connected(states, one).len() == 1 {
        let i = node_of(states, t.source)->0;
        let j = node_of(states, t.target)->0;
        assert(is_last_called(states, t.source, i) && is_last_called(states, t.target, j));
    }
    if b.len() == 0 {
        assert(a + b =~= a);
        assert(connected(states, a) + connected(states, b) =~= connected(states, a));
    } else {
        assert((a + b).drop_last() =~= a + b.drop_last());
        assert((a + b).last() == b.last());
        law_edges_follow_transitions(states, a, b.drop_last(), t);
        let left = connected(states, a);
        let mid = connected(states, b.drop_last());
        assert(connected(states, a + b) =~= left + connected(states, b));
    }
}

proof fn lemma_state_among(
    fsm: Seq<char>,
    states: Seq<StateView>,
    i: int,
    guards: bool,
    mentions: Map<Seq<char>, NameSet>,
    k: int,
) -> (r: int)
    requires
        0 <= i < states.len(),
        0 <= k < state_transitions(fsm, states[i], guards, mentions).len(),
    ensures
        0 <= r < all_transitions(fsm, states, guards, mentions).len(),
        all_transitions(fsm, states, guards, mentions)[r] == state_transitions(
            fsm,
            states[i],
            guards,
            mentions,
        )[k],
    decreases states.len(),
{
    let rest = states.drop_last();
    let before = all_transitions(fsm, rest, guards, mentions);
    if i < rest.len() {
        assert(rest[i] == states[i]);
        let r = lemma_state_among(fsm, rest, i, guards, mentions, k);
        assert(all_transitions(fsm, states, guards, mentions)[r] == before[r]);
        r
    } else {
        before.len() + k
    }
}

proof fn lemma_among_states(
    fsm: Seq<char>,
    states: Seq<StateView>,
    guards: bool,
    mentions: Map<Seq<char>, NameSet>,
    r: int,
) -> (ik: (int, int))
    requires
        0 <= r < all_transitions(fsm, states, guards, mentions).len(),
    ensures
        0 <= ik.0 < states.len(),
        0 <= ik.1 < state_transitions(fsm, states[ik.0], guards, mentions).len(),
        all_transitions(fsm, states, guards, mentions)[r] == state_transitions(
            fsm,
            states[ik.0],
            guards,
            mentions,
        )[ik.1],
    decreases states.len(),
{
    let rest = states.drop_last();
    let before = all_transitions(fsm, rest, guards, mentions);
    if r < before.len() {
        let ik = lemma_among_states(fsm, rest, guards, mentions, r);
        assert(rest[ik.0] == states[ik.0]);
        ik
    } else {
        (states.len() - 1, r - before.len())
    }
}

/// The states that the ends of a transition name are nodes.
pub open spec fn are_nodes(
    states: Seq<StateView>,
    source: Seq<char>,
    target: Seq<char>,
    from: int,
    to: int,
) -> bool {
    is_last_called(states, source, from) && is_last_called(states, target, to)
}

proof fn lemma_one_last(states: Seq<StateView>, name: Seq<char>, i: int, j: int)
    requires
        is_last_called(states, name, i),
        is_last_called(states, name, j),
    ensures
        i == j,
{
    if i < j {
        assert(states[j].name != name);
    } else if j < i {
        assert(states[i].name != name);
    }
}

/// A transition that is found in a state is drawn as an edge between the two nodes.
proof fn lemma_drawn(
    m: FsmView,
    guards: bool,
    mentions: Map<Seq<char>, NameSet>,
    i: int,
    k: int,
    from: int,
    to: int,
)
    requires
        0 <= i < m.states.len(),
        0 <= k < state_transitions(m.name, m.states[i], guards, mentions).len(),
        ({
            let t = state_transitions(m.name, m.states[i], guards, mentions)[k];
            are_nodes(m.states, t.source, t.target, from, to)
        }),
    ensures
        simple_diagram(m, guards, mentions).edges.contains(
            EdgeView {
                source: from,
                destination: to,
                label: edge_label(
                    state_transitions(m.name, m.states[i], guards, mentions)[k].label,
                ),
            },
        ),
{
    let t = state_transitions(m.name, m.states[i], guards, mentions)[k];
    let ts = all_transitions(m.name, m.states, guards, mentions);
    let r = lemma_state_among(m.name, m.states, i, guards, mentions, k);
    law_node_of(m.states, t.source);
    law_node_of(m.states, t.target);
    assert(m.states[from].name == t.source && m.states[to].name == t.target);
    law_transitions_drawn(m.states, ts, r);
    let es = connected(m.states, ts);
    let e = choose|e: int|
        0 <= e < es.len() && draws(m.states, ts[r], #[trigger] es[e]);
    lemma_one_last(m.states, t.source, es[e].source, from);
    lemma_one_last(m.states, t.target, es[e].destination, to);
    assert(es[e] == (EdgeView { source: from, destination: to, label: edge_label(t.label) }));
}

/// Every call in what a state does on an event that goes to another state of the machine is
/// drawn: as an edge between the two, with the label of all arms and conditions around it.
pub proof fn law_calls_are_drawn(
    m: FsmView,
    guards: bool,
    mentions: Map<Seq<char>, NameSet>,
    i: int,
    path: Seq<int>,
    target: Seq<char>,
    from: int,
    to: int,
)
    requires
        0 <= i < m.states.len(),
        reaches_down(source_tree(m.states[i].process_block), path),
        node_at(source_tree(m.states[i].process_block), path) matches Some(n) && goes_to(
            m.name,
            n,
            target,
        ),
        are_nodes(m.states, m.states[i].name, target, from, to),
    ensures
        simple_diagram(m, guards, mentions).edges.contains(
            EdgeView {
                source: from,
                destination: to,
                label: edge_label(
                    label_shown(
                        label_along(guards, None, source_tree(m.states[i].process_block), path),
                    ),
                ),
            },
        ),
{
    let st = m.states[i];
    let t = source_tree(st.process_block);
    let sc = scope_of(m.name, st, guards, mentions);
    law_calls_are_found(sc, None, t, nothing_found(), path, target);
    let x = TransitionView {
        source: st.name,
        target,
        label: label_shown(label_along(guards, None, t, path)),
    };
    let after = extracted(sc, None, t, nothing_found());
    let k = choose|k: int|
        nothing_found().transitions.len() <= k < after.transitions.len()
            && #[trigger] after.transitions[k] == x;
    assert(after.transitions == state_transitions(m.name, st, guards, mentions));
    lemma_drawn(m, guards, mentions, i, k, from, to);
}

/// Every state of the machine that a function mentions is joined by an edge to each state that
/// calls that function on an event.
pub proof fn law_mentions_are_drawn(
    m: FsmView,
    guards: bool,
    mentions: Map<Seq<char>, NameSet>,
    i: int,
    path: Seq<int>,
    func: Seq<char>,
    name: Seq<char>,
    target: Seq<char>,
    from: int,
    to: int,
)
    requires
        0 <= i < m.states.len(),
        reaches_down(source_tree(m.states[i].process_block), path),
        node_at(source_tree(m.states[i].process_block), path) matches Some(n) && runs(n, func),
        mentions.dom().contains(func),
        mentions[func]@.contains(name),
        mentions_state(m.name, name, target),
        are_nodes(m.states, m.states[i].name, target, from, to),
    ensures
        exists|e: EdgeView| #[trigger]
            simple_diagram(m, guards, mentions).edges.contains(e) && e.source == from
                && e.destination == to,
{
    let st = m.states[i];
    let t = source_tree(st.process_block);
    let sc = scope_of(m.name, st, guards, mentions);
    let none = nothing_found();
    let after = extracted(sc, None, t, none);
    law_called_functions_followed(sc, None, t, none, path, func);
    law_mentions_are_found(sc, None, t, none);
    assert(!none.visited.contains(func));
    assert(after.visited.contains(func));
    assert(sc.mentions[func]@.contains(name));
    assert(mentions_state(sc.fsm, name, target));
    assert(adds_target(sc, none, after, target));
    let k = choose|k: int|
        none.transitions.len() <= k < after.transitions.len() && (
        #[trigger] after.transitions[k]).target == target && after.transitions[k].source
            == sc.source;
    assert(after.transitions == state_transitions(m.name, st, guards, mentions));
    lemma_drawn(m, guards, mentions, i, k, from, to);
}

/// The edge `e` shows the transition `x`, for which there is a reason in the state at `i`.
pub open spec fn is_edge_for(
    m: FsmView,
    guards: bool,
    mentions: Map<Seq<char>, NameSet>,
    e: EdgeView,
    i: int,
    x: TransitionView,
) -> bool {
    &&& 0 <= i < m.states.len()
    &&& x.source == m.states[i].name
    &&& draws(m.states, x, e)
    &&& has_reason(
        scope_of(m.name, m.states[i], guards, mentions),
        None,
        source_tree(m.states[i].process_block),
        nothing_found(),
        extracted(
            scope_of(m.name, m.states[i], guards, mentions),
            None,
            source_tree(m.states[i].process_block),
            nothing_found(),
        ),
        x,
    )
}

/// Every edge has a reason in the source text: a call in the state that it comes from, or a
/// function that is called there.
pub proof fn law_edges_have_reasons(
    m: FsmView,
    guards: bool,
    mentions: Map<Seq<char>, NameSet>,
    k: int,
)
    requires
        0 <= k < simple_diagram(m, guards, mentions).edges.len(),
    ensures
        exists|i: int, x: TransitionView|
            #[trigger] is_edge_for(
                m,
                guards,
                mentions,
                simple_diagram(m, guards, mentions).edges[k],
                i,
                x,
            ),
{
    let ts = all_transitions(m.name, m.states, guards, mentions);
    let es = connected(m.states, ts);
    law_edges_join_states(m.states, ts);
    let r = choose|r: int| 0 <= r < ts.len() && draws(m.states, #[trigger] ts[r], es[k]);
    let ik = lemma_among_states(m.name, m.states, guards, mentions, r);
    let st = m.states[ik.0];
    let sc = scope_of(m.name, st, guards, mentions);
    let t = source_tree(st.process_block);
    law_found_with_reason(sc, None, t, nothing_found(), ik.1);
    law_extraction_grows(sc, None, t, nothing_found());
    assert(proper(
        sc,
        extracted(sc, None, t, nothing_found()).transitions[ik.1],
    ));
    assert(is_edge_for(m, guards, mentions, es[k], ik.0, ts[r]));
}

/// One of the texts of the state `st` has a path that starts from the machine `name`.
pub open spec fn state_runs(fsm: Seq<char>, st: StateView, name: Seq<char>) -> bool {
    ||| (st.entry_block matches Some(b) && has_machine(fsm, source_tree(b), name))
    ||| has_machine(fsm, source_tree(st.process_block), name)
    ||| (st.exit_block matches Some(b) && has_machine(fsm, source_tree(b), name))
    ||| exists|k: int|
        0 <= k < st.fields.len() && has_machine(
            fsm,
            source_tree((#[trigger] st.fields[k]).1),
            name,
        )
}

/// One of the texts of the state `st` uses the field `name`.
pub open spec fn state_uses(st: StateView, name: Seq<char>) -> bool {
    ||| (st.entry_block matches Some(b) && has_field(source_tree(b), name))
    ||| has_field(source_tree(st.process_block), name)
    ||| (st.exit_block matches Some(b) && has_field(source_tree(b), name))
    ||| exists|k: int|
        0 <= k < st.fields.len() && has_field(source_tree((#[trigger] st.fields[k]).1), name)
}

proof fn lemma_block_shows(fsm: Seq<char>, b: Option<Seq<char>>, d: Discovery, x: Seq<char>)
    ensures
        block_discovery(fsm, b, d).machines.contains(x) <==> d.machines.contains(x) || (
        b matches Some(b) && has_machine(fsm, source_tree(b), x)),
        block_discovery(fsm, b, d).fields.contains(x) <==> d.fields.contains(x) || (
        b matches Some(b) && has_field(source_tree(b), x)),
{
    if let Some(b) = b {
        law_machines_discovered(fsm, source_tree(b), d, x);
        law_fields_discovered(fsm, source_tree(b), d, x);
    }
}

proof fn lemma_fields_show(
    fsm: Seq<char>,
    fields: Seq<(Seq<char>, Seq<char>)>,
    d: Discovery,
    x: Seq<char>,
)
    ensures
        fields_discovery(fsm, fields, d).machines.contains(x) <==> d.machines.contains(x)
            || exists|k: int|
            0 <= k < fields.len() && has_machine(fsm, source_tree((#[trigger] fields[k]).1), x),
        fields_discovery(fsm, fields, d).fields.contains(x) <==> d.fields.contains(x) || exists|
            k: int,
        |
            0 <= k < fields.len() && has_field(source_tree((#[trigger] fields[k]).1), x),
    decreases fields.len(),
{
    if fields.len() > 0 {
        let rest = fields.drop_last();
        let n = rest.len() as int;
        lemma_fields_show(fsm, rest, d, x);
        let t = source_tree(fields.last().1);
        law_machines_discovered(fsm, t, fields_discovery(fsm, rest, d), x);
        law_fields_discovered(fsm, t, fields_discovery(fsm, rest, d), x);
        assert(fields[n] == fields.last());
        assert forall|k: int| 0 <= k < n implies #[trigger] fields[k] == rest[k] by {}
        if exists|k: int|
            0 <= k < n && has_machine(fsm, source_tree((#[trigger] rest[k]).1), x) {
            let k = choose|k: int|
                0 <= k < n && has_machine(fsm, source_tree((#[trigger] rest[k]).1), x);
            assert(has_machine(fsm, source_tree(fields[k].1), x));
        }
        if exists|k: int| 0 <= k < n && has_field(source_tree((#[trigger] rest[k]).1), x) {
            let k = choose|k: int|
                0 <= k < n && has_field(source_tree((#[trigger] rest[k]).1), x);
            assert(has_field(source_tree(fields[k].1), x));
        }
        if exists|k: int|
            0 <= k < fields.len() && has_machine(
                fsm,
                source_tree((#[trigger] fields[k]).1),
                x,
            ) {
            let k = choose|k: int|
                0 <= k < fields.len() && has_machine(
                    fsm,
                    source_tree((#[trigger] fields[k]).1),
                    x,
                );
            if k < n {
                assert(has_machine(fsm, source_tree(rest[k].1), x));
            }
        }
        if exists|k: int|
            0 <= k < fields.len() && has_field(source_tree((#[trigger] fields[k]).1), x) {
            let k = choose|k: int|
                0 <= k < fields.len() && has_field(source_tree((#[trigger] fields[k]).1), x);
            if k < n {
                assert(has_field(source_tree(rest[k].1), x));
            }
        }
    }
}

/// What is discovered in a state stands in one of its blocks, or in the type of one of its
/// fields, and all that stands there is discovered.
pub proof fn law_state_discovers(fsm: Seq<char>, st: StateView, x: Seq<char>)
    ensures
        state_discovery(fsm, st, nothing()).machines.contains(x) <==> state_runs(fsm, st, x),
        state_discovery(fsm, st, nothing()).fields.contains(x) <==> state_uses(st, x),
{
    let a = block_discovery(fsm, st.entry_block, nothing());
    lemma_block_shows(fsm, st.entry_block, nothing(), x);
    let t = source_tree(st.process_block);
    let b = discovered_in(fsm, t, a);
    law_machines_discovered(fsm, t, a, x);
    law_fields_discovered(fsm, t, a, x);
    let c = block_discovery(fsm, st.exit_block, b);
    lemma_block_shows(fsm, st.exit_block, b, x);
    lemma_fields_show(fsm, st.fields, c, x);
}

/// The context of `m` has a field `field` whose type goes by a path to the machine `base`.
pub open spec fn context_holds(
    s: Surroundings,
    m: FsmView,
    field: Seq<char>,
    front: Seq<char>,
    base: Seq<char>,
) -> bool {
    &&& m.context_type matches Some(c) && {
        let context = (s.resolve)(unspaced(c));
        &&& s.structs.dom().contains(context)
        &&& s.structs[context]@.dom().contains(field)
        &&& (s.resolve)(s.structs[context]@[field]@) == front + base
    }
    &&& is_path_front(front)
    &&& !base.contains(':')
    &&& s.fsms.dom().contains(base)
}

proof fn lemma_inner_has(
    s: Surroundings,
    names: Seq<Seq<char>>,
    guards: bool,
    mentions: Map<Seq<char>, NameSet>,
    x: Seq<char>,
)
    requires
        names.contains(x),
        s.fsms.dom().contains(x),
    ensures
        inner_hierarchies(s, names, guards, mentions).contains(
            hierarchical_diagram(s, s.fsms[x], guards, mentions),
        ),
    decreases names.len(),
{
    let d = hierarchical_diagram(s, s.fsms[x], guards, mentions);
    let rest = names.drop_last();
    let i = names.index_of(x);
    let all = inner_hierarchies(s, names, guards, mentions);
    let before = inner_hierarchies(s, rest, guards, mentions);
    if i < rest.len() {
        assert(rest[i] == x);
        lemma_inner_has(s, rest, guards, mentions, x);
        assert(all[before.index_of(d)] == d);
    } else {
        assert(all[before.len() as int] == d);
    }
}

proof fn lemma_inner_from(
    s: Surroundings,
    names: Seq<Seq<char>>,
    guards: bool,
    mentions: Map<Seq<char>, NameSet>,
    k: int,
) -> (x: Seq<char>)
    requires
        0 <= k < inner_hierarchies(s, names, guards, mentions).len(),
    ensures
        names.contains(x),
        s.fsms.dom().contains(x),
        inner_hierarchies(s, names, guards, mentions)[k] == hierarchical_diagram(
            s,
            s.fsms[x],
            guards,
            mentions,
        ),
    decreases names.len(),
{
    let rest = names.drop_last();
    let before = inner_hierarchies(s, rest, guards, mentions);
    if k < before.len() {
        let x = lemma_inner_from(s, rest, guards, mentions, k);
        assert(names[rest.index_of(x)] == x);
        x
    } else {
        assert(names[names.len() - 1] == names.last());
        names.last()
    }
}

/// A machine that is named in a text of a state is drawn inside the node of that state, with
/// all that runs inside it.
pub proof fn law_named_machines_are_drawn(
    s: Surroundings,
    m: FsmView,
    guards: bool,
    mentions: Map<Seq<char>, NameSet>,
    i: int,
    name: Seq<char>,
)
    requires
        nests(s, m),
        0 <= i < m.states.len(),
        state_runs(m.name, m.states[i], name),
        s.fsms.dom().contains((s.resolve)(name)),
    ensures
        hierarchical_diagram(s, m, guards, mentions).nodes[i].inner.contains(
            hierarchical_diagram(s, s.fsms[(s.resolve)(name)], guards, mentions),
        ),
{
    let st = m.states[i];
    let d = state_discovery(m.name, st, nothing());
    let x = (s.resolve)(name);
    law_state_discovers(m.name, st, name);
    assert(d.machines.contains(name));
    law_machines_named(s, m, d, x);
    law_nodes_hold_machines(s, m, guards, mentions, i);
    lemma_inner_has(s, state_machines(s, m, st), guards, mentions, x);
}

/// A machine that is held by a field of the context that a state uses is drawn inside the node
/// of that state, with all that runs inside it.
pub proof fn law_context_machines_are_drawn(
    s: Surroundings,
    m: FsmView,
    guards: bool,
    mentions: Map<Seq<char>, NameSet>,
    i: int,
    field: Seq<char>,
    front: Seq<char>,
    base: Seq<char>,
)
    requires
        nests(s, m),
        0 <= i < m.states.len(),
        state_uses(m.states[i], field),
        context_holds(s, m, field, front, base),
    ensures
        hierarchical_diagram(s, m, guards, mentions).nodes[i].inner.contains(
            hierarchical_diagram(s, s.fsms[base], guards, mentions),
        ),
{
    let st = m.states[i];
    let d = state_discovery(m.name, st, nothing());
    law_state_discovers(m.name, st, field);
    assert(d.fields.contains(field));
    lemma_unspaced(m.context_type->0);
    lemma_last_segment(front, base);
    let context = context_name(s, m)->0;
    assert(field_machine(s, context, field) == Some(base));
    law_machines_named(s, m, d, base);
    law_nodes_hold_machines(s, m, guards, mentions, i);
    lemma_inner_has(s, state_machines(s, m, st), guards, mentions, base);
}

/// The state `st` of `m` names the machine `x`, or uses a field of the context whose type goes
/// by a name that ends in `x`.
pub open spec fn runs_machine(s: Surroundings, m: FsmView, st: StateView, x: Seq<char>) -> bool {
    ||| exists|name: Seq<char>| #[trigger] state_runs(m.name, st, name) && (s.resolve)(name) == x
    ||| exists|field: Seq<char>| #[trigger] state_uses(st, field) && uses_machine(s, m, field, x)
}

/// The field `field` of the context of `m` has a type that goes by a name that ends in `x`.
pub open spec fn uses_machine(
    s: Surroundings,
    m: FsmView,
    field: Seq<char>,
    x: Seq<char>,
) -> bool {
    m.context_type matches Some(c) && {
        let context = (s.resolve)(unspaced(c));
        &&& s.structs.dom().contains(context)
        &&& s.structs[context]@.dom().contains(field)
        &&& last_segment((s.resolve)(s.structs[context]@[field]@)) == x
    }
}

/// Every diagram inside a node is that of a machine which the state runs: it names it, or uses
/// a field of the context that holds it.
pub proof fn law_inner_diagrams_have_reasons(
    s: Surroundings,
    m: FsmView,
    guards: bool,
    mentions: Map<Seq<char>, NameSet>,
    i: int,
    k: int,
)
    requires
        nests(s, m),
        0 <= i < m.states.len(),
        0 <= k < hierarchical_diagram(s, m, guards, mentions).nodes[i].inner.len(),
    ensures
        exists|x: Seq<char>| #[trigger]
            runs_machine(s, m, m.states[i], x) && s.fsms.dom().contains(x) && hierarchical_diagram(
                s,
                m,
                guards,
                mentions,
            ).nodes[i].inner[k] == hierarchical_diagram(s, s.fsms[x], guards, mentions),
{
    let st = m.states[i];
    let d = state_discovery(m.name, st, nothing());
    law_nodes_hold_machines(s, m, guards, mentions, i);
    let x = lemma_inner_from(s, state_machines(s, m, st), guards, mentions, k);
    law_machines_named(s, m, d, x);
    if exists|y: Seq<char>| #[trigger] d.machines.contains(y) && (s.resolve)(y) == x {
        let y = choose|y: Seq<char>| #[trigger] d.machines.contains(y) && (s.resolve)(y) == x;
        law_state_discovers(m.name, st, y);
        assert(state_runs(m.name, st, y));
    } else {
        let f = choose|f: Seq<char>| #[trigger]
            d.fields.contains(f) && (context_name(s, m) matches Some(context) && field_machine(
                s,
                context,
                f,
            ) == Some(x));
        law_state_discovers(m.name, st, f);
        lemma_unspaced(m.context_type->0);
        assert(uses_machine(s, m, f, x));
    }
    assert(runs_machine(s, m, st, x));
}

proof fn lemma_name_once(names: Seq<Seq<char>>, name: Seq<char>)
    requires
        names.no_duplicates(),
    ensures
        with_name(names, name).no_duplicates(),
{
    if !names.contains(name) {
        let now = names.push(name);
        assert forall|a: int, b: int| 0 <= a < now.len() && 0 <= b < now.len() && a != b implies
            now[a] != now[b] by {
            if a == names.len() {
                assert(names.contains(names[b]));
            } else if b == names.len() {
                assert(names.contains(names[a]));
            }
        }
    }
}

proof fn lemma_resolved_once(g: spec_fn(Seq<char>) -> Seq<char>, names: Seq<Seq<char>>)
    ensures
        resolved_all(g, names).no_duplicates(),
    decreases names.len(),
{
    if names.len() > 0 {
        lemma_resolved_once(g, names.drop_last());
        lemma_name_once(resolved_all(g, names.drop_last()), g(names.last()));
    }
}

proof fn lemma_fields_once(
    s: Surroundings,
    context: Seq<char>,
    fields: Seq<Seq<char>>,
    names: Seq<Seq<char>>,
)
    requires
        names.no_duplicates(),
    ensures
        with_fields(s, context, fields, names).no_duplicates(),
    decreases fields.len(),
{
    if fields.len() > 0 {
        lemma_fields_once(s, context, fields.drop_last(), names);
        let before = with_fields(s, context, fields.drop_last(), names);
        if let Some(base) = field_machine(s, context, fields.last()) {
            lemma_name_once(before, base);
        }
    }
}

/// However often a state runs a machine, it names it once.
pub proof fn law_machines_named_once(s: Surroundings, m: FsmView, d: Discovery)
    ensures
        machines_named(s, m, d).no_duplicates(),
{
    lemma_resolved_once(s.resolve, d.machines);
    if let Some(context) = context_name(s, m) {
        lemma_fields_once(s, context, d.fields, resolved_all(s.resolve, d.machines));
    }
}

/// In a simple diagram nothing stands inside a node.
pub proof fn law_simple_nodes_are_empty(
    m: FsmView,
    guards: bool,
    mentions: Map<Seq<char>, NameSet>,
    i: int,
)
    requires
        0 <= i < simple_diagram(m, guards, mentions).nodes.len(),
    ensures
        simple_diagram(m, guards, mentions).nodes[i].inner == Seq::<DiagramView>::empty(),
{
}

} // verus!
