//! What holds of every diagram, whatever the machine.
use vstd::prelude::*;

use crate::diagram::{
    all_transitions, connected, edge_label, finished, hierarchical_diagram, inner_diagrams,
    lemma_hierarchical_diagram, nested_nodes, node_of, simple_diagram,
    state_transitions, DiagramView, EdgeView, NodeView,
};
use crate::model::{FsmView, StateView, TransitionView};
use crate::names::NameSet;
use crate::nesting::{
    names_nest, nests, nests_within, nothing, resolved_all, state_discovery, state_machines,
    Surroundings,
};
use crate::syntax::source_tree;
use crate::text::{holds, replaced, starts};
use crate::text_laws::{absent_before, law_first_replaced, law_nothing_replaced};
use crate::transition_laws::{law_guards_change_labels_only, routes};
use crate::transitions::{Found, Scope};

verus! {

/// No colon stands in `s`.
pub open spec fn colon_free(s: Seq<char>) -> bool {
    forall|i: int| 0 <= i < s.len() ==> #[trigger] s[i] != ':'
}

proof fn lemma_replaced_colons(s: Seq<char>)
    ensures
        colon_free(replaced(s, ":"@, "#colon;"@)),
        s.len() > 0 ==> replaced(s, ":"@, "#colon;"@).len() > 0,
    decreases s.len(),
{
    reveal_strlit(":");
    reveal_strlit("#colon;");
    let pat = ":"@;
    let rep = "#colon;"@;
    assert(colon_free(rep));
    if s.len() > 0 {
        if s[0] == ':' {
            assert(s.subrange(0, 1) =~= pat);
            lemma_replaced_colons(s.skip(1));
        } else {
            assert(s.subrange(0, 1)[0] != pat[0]);
            lemma_replaced_colons(s.skip(1));
        }
    }
}

/// Writing colons out makes no word that was not there before.
proof fn lemma_colons_make_no_word(s: Seq<char>, word: Seq<char>)
    requires
        starts(replaced(s, ":"@, "#colon;"@), word),
        forall|k: int| 0 <= k < word.len() ==> #[trigger] word[k] != '#' && word[k] != ':',
    ensures
        starts(s, word),
    decreases word.len(),
{
    reveal_strlit(":");
    reveal_strlit("#colon;");
    let e = replaced(s, ":"@, "#colon;"@);
    let n = word.len() as int;
    if n == 0 {
        assert(s.take(0) =~= word);
    } else {
        assert(e.take(n)[0] == word[0]);
        assert(e[0] == word[0]);
        assert(s.len() > 0);
        if starts(s, ":"@) {
            assert(e[0] == "#colon;"@[0]);
            assert(word[0] != '#');
            assert(false);
        }
        assert(e == seq![s[0]] + replaced(s.skip(1), ":"@, "#colon;"@));
        let rest = word.skip(1);
        let f = replaced(s.skip(1), ":"@, "#colon;"@);
        assert(f.take(n - 1) =~= rest) by {
            assert forall|k: int| 0 <= k < n - 1 implies f[k] == rest[k] by {
                assert(e.take(n)[k + 1] == word[k + 1]);
            }
        }
        assert forall|k: int| 0 <= k < rest.len() implies #[trigger] rest[k] != '#' && rest[k]
            != ':' by {
            assert(rest[k] == word[k + 1]);
        }
        lemma_colons_make_no_word(s.skip(1), rest);
        assert(s.take(n) =~= word) by {
            assert forall|k: int| 0 <= k < n implies s[k] == word[k] by {
                if k > 0 {
                    assert(s.skip(1).take(n - 1)[k - 1] == rest[k - 1]);
                }
            }
        }
    }
}

proof fn lemma_colons_back(s: Seq<char>)
    requires
        !holds(s, "#colon;"@),
    ensures
        replaced(replaced(s, ":"@, "#colon;"@), "#colon;"@, ":"@) == s,
    decreases s.len(),
{
    reveal_strlit(":");
    reveal_strlit("#colon;");
    let word = "#colon;"@;
    if s.len() > 0 {
        let rest = s.skip(1);
        let e = replaced(s, ":"@, word);
        let f = replaced(rest, ":"@, word);
        assert forall|i: int| 0 <= i <= rest.len() implies !starts(#[trigger] rest.skip(i), word) by {
            assert(rest.skip(i) =~= s.skip(i + 1));
        }
        lemma_colons_back(rest);
        if starts(s, ":"@) {
            assert(s.take(1)[0] == s[0]);
            assert(e == word + f);
            assert(e.take(7) =~= word);
            assert(e.skip(7) =~= f);
            assert(":"@ + rest =~= s);
        } else {
            assert(e == seq![s[0]] + f);
            assert(e.skip(1) =~= f);
            if starts(e, word) {
                assert(e.take(7)[0] == word[0]);
                assert(f.take(6) =~= word.skip(1)) by {
                    assert forall|k: int| 0 <= k < 6 implies f[k] == word[k + 1] by {
                        assert(e.take(7)[k + 1] == word[k + 1]);
                    }
                }
                lemma_colons_make_no_word(rest, word.skip(1));
                assert(s.skip(0).take(7) =~= word) by {
                    assert forall|k: int| 0 <= k < 7 implies s[k] == word[k] by {
                        if k > 0 {
                            assert(rest.take(6)[k - 1] == word.skip(1)[k - 1]);
                        }
                    }
                }
                assert(starts(s.skip(0), word));
                assert(false);
            }
            assert(seq![s[0]] + rest =~= s);
        }
    }
}

/// The label of an edge is never empty, and never holds a colon, whatever the label of its
/// transition. It is a star only where that label is empty, or a star itself; and the label of
/// the transition comes back when the colons are put back.
pub proof fn law_edge_label(label: Seq<char>)
    ensures
        edge_label(label).len() > 0,
        colon_free(edge_label(label)),
        edge_label(label) == "*"@ <==> label.len() == 0 || label == "*"@,
        label.len() > 0 && !holds(label, "#colon;"@) ==> replaced(
            edge_label(label),
            "#colon;"@,
            ":"@,
        ) == label,
        colon_free(label) && label.len() > 0 ==> edge_label(label) == label,
{
    reveal_strlit("*");
    reveal_strlit("#colon;");
    reveal_strlit(":");
    lemma_replaced_colons(label);
    if label.len() > 0 && !holds(label, "#colon;"@) {
        lemma_colons_back(label);
    }
    if colon_free(label) {
        lemma_no_colons(label);
    }
    if label.len() > 0 && edge_label(label) == "*"@ {
        assert(edge_label(label).take(1) =~= "*"@);
        lemma_colons_make_no_word(label, "*"@);
        assert(label.take(1)[0] == '*');
        assert(label[0] == '*');
        if starts(label, ":"@) {
            assert(label.take(1)[0] == ':');
        }
        assert(edge_label(label) == seq![label[0]] + replaced(label.skip(1), ":"@, "#colon;"@));
        lemma_replaced_colons(label.skip(1));
        assert(label.skip(1).len() == 0);
        assert(label =~= "*"@);
    }
    if label == "*"@ {
        assert(colon_free(label));
    }
}

proof fn lemma_no_colons(s: Seq<char>)
    requires
        colon_free(s),
    ensures
        replaced(s, ":"@, "#colon;"@) == s,
    decreases s.len(),
{
    reveal_strlit(":");
    if s.len() > 0 {
        if starts(s, ":"@) {
            assert(s.take(1)[0] == s[0]);
        }
        assert forall|i: int| 0 <= i < s.skip(1).len() implies #[trigger] s.skip(1)[i] != ':' by {
            assert(s.skip(1)[i] == s[i + 1]);
        }
        lemma_no_colons(s.skip(1));
        assert(seq![s[0]] + s.skip(1) =~= s);
    }
}

/// `i` is the last of `states` that is called `name`.
pub open spec fn is_last_called(states: Seq<StateView>, name: Seq<char>, i: int) -> bool {
    &&& 0 <= i < states.len()
    &&& states[i].name == name
    &&& forall|j: int| i < j < states.len() ==> (#[trigger] states[j]).name != name
}

/// The node of a name is the last state that has that name, and there is none where no
/// state has it.
pub proof fn law_node_of(states: Seq<StateView>, name: Seq<char>)
    ensures
        match node_of(states, name) {
            Some(i) => is_last_called(states, name, i),
            None => forall|j: int| 0 <= j < states.len() ==> (#[trigger] states[j]).name != name,
        },
    decreases states.len(),
{
    if states.len() > 0 && states.last().name != name {
        let rest = states.drop_last();
        law_node_of(rest, name);
        assert forall|j: int| 0 <= j < rest.len() implies rest[j] == #[trigger] states[j] by {}
    }
}

/// The edge `e` is the one for the transition `t`.
pub open spec fn draws(states: Seq<StateView>, t: TransitionView, e: EdgeView) -> bool {
    &&& is_last_called(states, t.source, e.source)
    &&& is_last_called(states, t.target, e.destination)
    &&& e.label == edge_label(t.label)
}

/// Every edge is drawn for one of the transitions, and joins two nodes that are there.
pub proof fn law_edges_join_states(states: Seq<StateView>, ts: Seq<TransitionView>)
    ensures
        forall|k: int|
            0 <= k < connected(states, ts).len() ==> exists|j: int|
                0 <= j < ts.len() && draws(states, #[trigger] ts[j], #[trigger] connected(states, ts)[k]),
    decreases ts.len(),
{
    if ts.len() > 0 {
        let rest = ts.drop_last();
        let t = ts.last();
        law_edges_join_states(states, rest);
        law_node_of(states, t.source);
        law_node_of(states, t.target);
        let before = connected(states, rest);
        let es = connected(states, ts);
        assert forall|k: int| 0 <= k < es.len() implies exists|j: int|
            0 <= j < ts.len() && draws(states, #[trigger] ts[j], #[trigger] es[k]) by {
            if k < before.len() {
                assert(es[k] == before[k]);
                let j = choose|j: int|
                    0 <= j < rest.len() && draws(states, #[trigger] rest[j], before[k]);
                assert(ts[j] == rest[j]);
                assert(draws(states, ts[j], es[k]));
            } else {
                assert(draws(states, ts[ts.len() - 1], es[k]));
            }
        }
    }
}

/// Every transition between two states of the machine is drawn.
pub proof fn law_transitions_drawn(states: Seq<StateView>, ts: Seq<TransitionView>, j: int)
    requires
        0 <= j < ts.len(),
        node_of(states, ts[j].source) is Some,
        node_of(states, ts[j].target) is Some,
    ensures
        exists|k: int|
            0 <= k < connected(states, ts).len() && draws(
                states,
                ts[j],
                #[trigger] connected(states, ts)[k],
            ),
    decreases ts.len(),
{
    let rest = ts.drop_last();
    let before = connected(states, rest);
    let es = connected(states, ts);
    law_node_of(states, ts[j].source);
    law_node_of(states, ts[j].target);
    if j < rest.len() {
        law_transitions_drawn(states, rest, j);
        assert(rest[j] == ts[j]);
        let k = choose|k: int| 0 <= k < before.len() && draws(states, rest[j], #[trigger] before[k]);
        assert(es[k] == before[k]);
    } else {
        assert(draws(states, ts[j], es[es.len() - 1]));
    }
}

/// The labels of several nodes.
pub open spec fn node_labels(nodes: Seq<NodeView>) -> Seq<Seq<char>> {
    nodes.map_values(|n: NodeView| n.label)
}

/// The names of several states.
pub open spec fn state_names(states: Seq<StateView>) -> Seq<Seq<char>> {
    states.map_values(|s: StateView| s.name)
}

proof fn lemma_nested_labels(
    s: Surroundings,
    m: FsmView,
    states: Seq<StateView>,
    guards: bool,
    mentions: Map<Seq<char>, NameSet>,
    depth: nat,
)
    ensures
        node_labels(nested_nodes(s, m, states, guards, mentions, depth)) == state_names(states),
    decreases states.len(),
{
    if states.len() > 0 {
        let rest = states.drop_last();
        lemma_nested_labels(s, m, rest, guards, mentions, depth);
        let before = nested_nodes(s, m, rest, guards, mentions, depth);
        let nodes = nested_nodes(s, m, states, guards, mentions, depth);
        assert(node_labels(before).len() == state_names(rest).len());
        assert forall|i: int| 0 <= i < states.len() implies node_labels(nodes)[i] == state_names(
            states,
        )[i] by {
            if i < rest.len() {
                assert(node_labels(before)[i] == state_names(rest)[i]);
            }
        }
    }
    assert(node_labels(nested_nodes(s, m, states, guards, mentions, depth)) =~= state_names(states));
}

/// Whichever way a machine is drawn, with its inner machines or without them, it has one
/// node for each state, in the order of the states, and the same edges.
pub proof fn law_nesting_adds_inside_nodes(
    s: Surroundings,
    m: FsmView,
    guards: bool,
    mentions: Map<Seq<char>, NameSet>,
)
    ensures
        node_labels(simple_diagram(m, guards, mentions).nodes) == state_names(m.states),
        node_labels(hierarchical_diagram(s, m, guards, mentions).nodes) == state_names(m.states),
        hierarchical_diagram(s, m, guards, mentions).edges == simple_diagram(
            m,
            guards,
            mentions,
        ).edges,
{
    assert(node_labels(simple_diagram(m, guards, mentions).nodes) =~= state_names(m.states));
    let depth = choose|depth: nat| nests_within(s, m, depth);
    lemma_nested_labels(s, m, m.states, guards, mentions, depth);
}

/// The diagrams of those of `names` that are machines, with all that runs inside them.
pub open spec fn inner_hierarchies(
    s: Surroundings,
    names: Seq<Seq<char>>,
    guards: bool,
    mentions: Map<Seq<char>, NameSet>,
) -> Seq<DiagramView>
    decreases names.len(),
{
    if names.len() == 0 {
        Seq::empty()
    } else {
        let before = inner_hierarchies(s, names.drop_last(), guards, mentions);
        if s.fsms.dom().contains(names.last()) {
            before.push(hierarchical_diagram(s, s.fsms[names.last()], guards, mentions))
        } else {
            before
        }
    }
}

proof fn lemma_inner_hierarchies(
    s: Surroundings,
    names: Seq<Seq<char>>,
    n: int,
    guards: bool,
    mentions: Map<Seq<char>, NameSet>,
    depth: nat,
)
    requires
        0 <= n <= names.len(),
        names_nest(s, names, names.len() as int, depth),
    ensures
        inner_diagrams(s, names.take(n), guards, mentions, depth) == inner_hierarchies(
            s,
            names.take(n),
            guards,
            mentions,
        ),
    decreases n,
{
    if n > 0 {
        lemma_inner_hierarchies(s, names, n - 1, guards, mentions, depth);
        assert(names.take(n).drop_last() =~= names.take(n - 1));
        assert(names.take(n).last() == names[n - 1]);
        let name = names[n - 1];
        if s.fsms.dom().contains(name) {
            lemma_hierarchical_diagram(
                s,
                s.fsms[name],
                guards,
                mentions,
                (depth - 1) as nat,
            );
        }
    } else {
        assert(names.take(0).len() == 0);
    }
}

proof fn lemma_nested_node(
    s: Surroundings,
    m: FsmView,
    states: Seq<StateView>,
    guards: bool,
    mentions: Map<Seq<char>, NameSet>,
    depth: nat,
    i: int,
)
    requires
        0 <= i < states.len(),
    ensures
        nested_nodes(s, m, states, guards, mentions, depth).len() == states.len(),
        nested_nodes(s, m, states, guards, mentions, depth)[i] == (NodeView {
            label: states[i].name,
            inner: inner_diagrams(s, state_machines(s, m, states[i]), guards, mentions, depth),
        }),
    decreases states.len(),
{
    let rest = states.drop_last();
    lemma_nested_labels(s, m, rest, guards, mentions, depth);
    let before = nested_nodes(s, m, rest, guards, mentions, depth);
    assert(node_labels(before).len() == state_names(rest).len());
    if i < rest.len() {
        lemma_nested_node(s, m, rest, guards, mentions, depth, i);
        assert(rest[i] == states[i]);
    }
}

/// Inside the node of a state stand the diagrams of the machines that the state names, each
/// of them with all that runs inside it.
pub proof fn law_nodes_hold_machines(
    s: Surroundings,
    m: FsmView,
    guards: bool,
    mentions: Map<Seq<char>, NameSet>,
    i: int,
)
    requires
        nests(s, m),
        0 <= i < m.states.len(),
    ensures
        hierarchical_diagram(s, m, guards, mentions).nodes[i] == (NodeView {
            label: m.states[i].name,
            inner: inner_hierarchies(s, state_machines(s, m, m.states[i]), guards, mentions),
        }),
{
    let depth = choose|depth: nat| nests_within(s, m, depth);
    lemma_hierarchical_diagram(s, m, guards, mentions, depth);
    lemma_nested_node(s, m, m.states, guards, mentions, depth, i);
    let names = state_machines(s, m, m.states[i]);
    assert(names_nest(s, names, names.len() as int, depth)) by {
        assert forall|k: int|
            0 <= k < names.len() && s.fsms.dom().contains(#[trigger] names[k]) implies depth > 0
            && nests_within(s, s.fsms[names[k]], (depth - 1) as nat) by {
            assert(names[k] == state_machines(s, m, m.states[i])[k]);
        }
    }
    lemma_inner_hierarchies(s, names, names.len() as int, guards, mentions, depth);
    assert(names.take(names.len() as int) =~= names);
}

/// A state of a machine without a context that names one type alone has an inner diagram if
/// and only if there is a machine by the name that this type goes by. It is then the diagram
/// of that machine, with all that runs inside it.
pub proof fn law_single_machine(
    s: Surroundings,
    m: FsmView,
    guards: bool,
    mentions: Map<Seq<char>, NameSet>,
    i: int,
    name: Seq<char>,
)
    requires
        nests(s, m),
        m.context_type is None,
        0 <= i < m.states.len(),
        state_discovery(m.name, m.states[i], nothing()).machines == seq![name],
    ensures
        hierarchical_diagram(s, m, guards, mentions).nodes[i].inner == if s.fsms.dom().contains(
            (s.resolve)(name),
        ) {
            seq![hierarchical_diagram(s, s.fsms[(s.resolve)(name)], guards, mentions)]
        } else {
            Seq::empty()
        },
{
    law_nodes_hold_machines(s, m, guards, mentions, i);
    let found = seq![name];
    let names = state_machines(s, m, m.states[i]);
    let resolved = (s.resolve)(name);
    assert(found.drop_last() =~= Seq::empty());
    assert(resolved_all(s.resolve, found.drop_last()) =~= Seq::empty());
    assert(names =~= seq![resolved]);
    assert(names.drop_last() =~= Seq::empty());
    let before = inner_hierarchies(s, names.drop_last(), guards, mentions);
    assert(before =~= Seq::empty());
    assert(inner_hierarchies(s, names, guards, mentions) =~= if s.fsms.dom().contains(resolved) {
        seq![hierarchical_diagram(s, s.fsms[resolved], guards, mentions)]
    } else {
        Seq::empty()
    });
}

/// The ends of several edges.
pub open spec fn edge_ends(edges: Seq<EdgeView>) -> Seq<(int, int)> {
    edges.map_values(|e: EdgeView| (e.source, e.destination))
}

proof fn lemma_same_ends(states: Seq<StateView>, a: Seq<TransitionView>, b: Seq<TransitionView>)
    requires
        routes(a) == routes(b),
    ensures
        edge_ends(connected(states, a)) == edge_ends(connected(states, b)),
    decreases a.len(),
{
    assert(routes(a).len() == a.len() && routes(b).len() == b.len());
    if a.len() > 0 {
        assert(routes(a).last() == routes(b).last());
        assert(routes(a.drop_last()) =~= routes(a).drop_last());
        assert(routes(b.drop_last()) =~= routes(b).drop_last());
        lemma_same_ends(states, a.drop_last(), b.drop_last());
        let ea = connected(states, a.drop_last());
        let eb = connected(states, b.drop_last());
        assert(edge_ends(ea).len() == ea.len() && edge_ends(eb).len() == eb.len());
        assert forall|i: int|
            0 <= i < edge_ends(connected(states, a)).len() implies #[trigger] edge_ends(
            connected(states, a),
        )[i] == edge_ends(connected(states, b))[i] by {
            if i < ea.len() {
                assert(edge_ends(ea)[i] == edge_ends(eb)[i]);
            }
        }
    }
    assert(edge_ends(connected(states, a)) =~= edge_ends(connected(states, b)));
}

/// With guards and without them, a state has the same transitions in the same order, so that
/// their labels can be told apart one by one.
pub proof fn law_same_transitions(
    fsm: Seq<char>,
    st: StateView,
    mentions: Map<Seq<char>, NameSet>,
)
    ensures
        routes(state_transitions(fsm, st, true, mentions)) == routes(
            state_transitions(fsm, st, false, mentions),
        ),
        state_transitions(fsm, st, true, mentions).len() == state_transitions(
            fsm,
            st,
            false,
            mentions,
        ).len(),
{
    let nothing = Found { transitions: Seq::<TransitionView>::empty(), visited: Seq::empty() };
    law_guards_change_labels_only(
        Scope { fsm, source: st.name, guards: true, mentions },
        Scope { fsm, source: st.name, guards: false, mentions },
        None,
        None,
        source_tree(st.process_block),
        nothing,
        nothing,
    );
    let ta = state_transitions(fsm, st, true, mentions);
    let tb = state_transitions(fsm, st, false, mentions);
    assert(routes(ta).len() == ta.len() && routes(tb).len() == tb.len());
}

proof fn lemma_same_transitions(
    fsm: Seq<char>,
    states: Seq<StateView>,
    mentions: Map<Seq<char>, NameSet>,
)
    ensures
        routes(all_transitions(fsm, states, true, mentions)) == routes(
            all_transitions(fsm, states, false, mentions),
        ),
    decreases states.len(),
{
    if states.len() > 0 {
        lemma_same_transitions(fsm, states.drop_last(), mentions);
        let st = states.last();
        law_same_transitions(fsm, st, mentions);
        let a = all_transitions(fsm, states.drop_last(), true, mentions);
        let b = all_transitions(fsm, states.drop_last(), false, mentions);
        let ta = state_transitions(fsm, st, true, mentions);
        let tb = state_transitions(fsm, st, false, mentions);
        assert(routes(a + ta) =~= routes(a) + routes(ta));
        assert(routes(b + tb) =~= routes(b) + routes(tb));
    } else {
        assert(routes(all_transitions(fsm, states, true, mentions)) =~= routes(
            all_transitions(fsm, states, false, mentions),
        ));
    }
}

/// Leaving guards out changes the labels of edges, but neither the nodes nor the edges.
pub proof fn law_guards_keep_edges(m: FsmView, mentions: Map<Seq<char>, NameSet>)
    ensures
        simple_diagram(m, true, mentions).nodes == simple_diagram(m, false, mentions).nodes,
        edge_ends(simple_diagram(m, true, mentions).edges) == edge_ends(
            simple_diagram(m, false, mentions).edges,
        ),
{
    lemma_same_transitions(m.name, m.states, mentions);
    lemma_same_ends(
        m.states,
        all_transitions(m.name, m.states, true, mentions),
        all_transitions(m.name, m.states, false, mentions),
    );
}

/// The line that tells the direction of an inner diagram.
pub open spec fn direction_line() -> Seq<char> {
    "    direction LR\n"@
}

/// Finishing a text takes out the lines that tell the direction of inner diagrams, one after
/// the other, and leaves everything else, where lines end with line feeds alone; and a text
/// whose lines end with carriage returns too is finished as if they did not.
pub proof fn law_text_finished(a: Seq<char>, b: Seq<char>)
    ensures
        ({
            let s = a + direction_line() + b;
            absent_before(s, s.len() as int, "\r\n"@) && absent_before(
                s,
                a.len() as int,
                direction_line(),
            ) ==> finished(s) == a + replaced(b, direction_line(), ""@)
        }),
        absent_before(a, a.len() as int, "\r\n"@) && absent_before(
            a,
            a.len() as int,
            direction_line(),
        ) ==> finished(a) == a,
        ({
            let s = a + "\r\n"@ + b;
            let t = a + "\n"@ + b;
            absent_before(s, a.len() as int, "\r\n"@) && absent_before(
                b,
                b.len() as int,
                "\r\n"@,
            ) && absent_before(t, t.len() as int, "\r\n"@) ==> finished(s) == finished(t)
        }),
{
    reveal_strlit("\r\n");
    reveal_strlit("\n");
    reveal_strlit("");
    reveal_strlit("    direction LR\n");
    let line = direction_line();
    let crlf = "\r\n"@;
    let s = a + line + b;
    if absent_before(s, s.len() as int, crlf) && absent_before(s, a.len() as int, line) {
        law_nothing_replaced(s, crlf, "\n"@);
        law_first_replaced(a, line, b, ""@);
        assert(a + ""@ + replaced(b, line, ""@) =~= a + replaced(b, line, ""@));
    }
    if absent_before(a, a.len() as int, crlf) && absent_before(a, a.len() as int, line) {
        law_nothing_replaced(a, crlf, "\n"@);
        law_nothing_replaced(a, line, ""@);
    }
    let u = a + crlf + b;
    let t = a + "\n"@ + b;
    if absent_before(u, a.len() as int, crlf) && absent_before(b, b.len() as int, crlf)
        && absent_before(t, t.len() as int, crlf) {
        law_first_replaced(a, crlf, b, "\n"@);
        law_nothing_replaced(b, crlf, "\n"@);
        law_nothing_replaced(t, crlf, "\n"@);
    }
}

} // verus!
