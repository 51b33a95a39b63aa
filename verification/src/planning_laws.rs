//! What is put behind a state machine: what its nodes hold, and which edges there are.
use vstd::prelude::*;

use crate::diagram::state_transitions;
use crate::diagram_laws::law_same_transitions;
use crate::expand::{
    inner_types, planned_breakdown, planned_edges, planned_nodes, planned_types, run_in_block,
    run_in_state, typed, with_types, Types,
};
use crate::expand_source::{source_edges, source_runs, state_edges};
use crate::extraction_laws::{is_last_part, lemma_last_is_part, lemma_one_last_part};
use crate::input::BlocksView;
use crate::model::{FsmView, StateView, TransitionView};
use crate::nesting::{block_discovery, nothing};
use crate::subfsm::discovered_in;
use crate::subfsm_laws::{has_machine, law_machines_discovered};
use crate::syntax::source_tree;
use crate::transition_laws::routes;
use crate::transitions::last_segment;
use crate::visit::visited;
use crate::visit_laws::{has_path, law_machines_run, law_one_for_each_visit, visits_in};

verus! {

proof fn lemma_typed(names: Seq<Seq<char>>, g: Types, x: Seq<char>)
    ensures
        typed(names, g).contains(x) <==> names.contains(x) && g(x) == Ok::<nat, Seq<char>>(0),
    decreases names.len(),
{
    if names.len() > 0 {
        let rest = names.drop_last();
        let before = typed(rest, g);
        let all = typed(names, g);
        lemma_typed(rest, g, x);
        if rest.contains(x) {
            assert(names[rest.index_of(x)] == x);
        }
        if names.contains(x) && x != names.last() {
            assert(rest[names.index_of(x)] == x);
        }
        assert(names[names.len() - 1] == names.last());
        if before.contains(x) {
            assert(all[before.index_of(x)] == x);
        }
        if g(names.last()) == Ok::<nat, Seq<char>>(0) {
            assert(all[before.len() as int] == names.last());
        }
    }
}

/// A field of the state `st` has the type `x`.
pub open spec fn has_field_type(st: StateView, x: Seq<char>) -> bool {
    exists|k: int| 0 <= k < st.fields.len() && (#[trigger] st.fields[k]).1 == x
}

/// There is one node for each state, in the order of the states, with its name. It holds the
/// types of the fields of the state, in their order, and behind them the machines that the
/// state runs, as far as they are types.
pub proof fn law_nodes_planned(
    states: Seq<StateView>,
    runs: Seq<Seq<Seq<char>>>,
    g: Types,
    i: int,
    x: Seq<char>,
)
    requires
        0 <= i < states.len(),
        states.len() == runs.len(),
    ensures
        planned_nodes(states, runs, g).len() == states.len(),
        planned_nodes(states, runs, g)[i].label == states[i].name,
        planned_nodes(states, runs, g)[i].inner.contains(x) <==> has_field_type(states[i], x) || (
        runs[i].contains(x) && g(x) == Ok::<nat, Seq<char>>(0)),
        planned_nodes(states, runs, g)[i].inner.len() >= states[i].fields.len(),
        forall|k: int|
            0 <= k < states[i].fields.len() ==> planned_nodes(states, runs, g)[i].inner[k] == (
            #[trigger] states[i].fields[k]).1,
{
    let st = states[i];
    let inner = planned_nodes(states, runs, g)[i].inner;
    let types = st.fields.map_values(|f: (Seq<char>, Seq<char>)| f.1);
    let more = typed(runs[i], g);
    assert(inner == types + more);
    lemma_typed(runs[i], g, x);
    assert forall|k: int| 0 <= k < st.fields.len() implies inner[k] == (
    #[trigger] st.fields[k]).1 by {
        assert(types[k] == st.fields[k].1);
    }
    if inner.contains(x) {
        let k = inner.index_of(x);
        if k < types.len() {
            assert(st.fields[k].1 == x);
        } else {
            assert(more[k - types.len()] == x);
        }
    }
    if has_field_type(st, x) {
        let k = choose|k: int| 0 <= k < st.fields.len() && (#[trigger] st.fields[k]).1 == x;
        assert(inner[k] == x);
    }
    if more.contains(x) {
        assert(inner[types.len() + more.index_of(x)] == x);
    }
}

proof fn lemma_with_types(types: Seq<Seq<char>>, more: Seq<Seq<char>>, x: Seq<char>)
    ensures
        with_types(types, more).contains(x) <==> types.contains(x) || more.contains(x),
        types.no_duplicates() ==> with_types(types, more).no_duplicates(),
    decreases more.len(),
{
    if more.len() > 0 {
        let rest = more.drop_last();
        lemma_with_types(types, rest, x);
        let before = with_types(types, rest);
        let last = more.last();
        if rest.contains(x) {
            assert(more[rest.index_of(x)] == x);
        }
        if more.contains(x) && x != last {
            assert(rest[more.index_of(x)] == x);
        }
        assert(more[more.len() - 1] == last);
        if !before.contains(last) {
            let now = before.push(last);
            assert(now[before.len() as int] == last);
            if before.contains(x) {
                assert(now[before.index_of(x)] == x);
            }
            if before.no_duplicates() {
                assert forall|a: int, b: int|
                    0 <= a < now.len() && 0 <= b < now.len() && a != b implies now[a] != now[b] by {
                    if a == before.len() {
                        assert(before.contains(before[b]));
                    } else if b == before.len() {
                        assert(before.contains(before[a]));
                    }
                }
            }
        }
    }
}

/// The breakdown has each type that one of the nodes holds, once, and no other.
pub proof fn law_types_planned(
    states: Seq<StateView>,
    runs: Seq<Seq<Seq<char>>>,
    g: Types,
    n: int,
    x: Seq<char>,
)
    requires
        0 <= n <= states.len(),
        states.len() == runs.len(),
    ensures
        planned_types(states, runs, g, n).no_duplicates(),
        planned_types(states, runs, g, n).contains(x) <==> exists|i: int|
            0 <= i < n && (#[trigger] planned_nodes(states, runs, g)[i]).inner.contains(x),
    decreases n,
{
    let nodes = planned_nodes(states, runs, g);
    if n > 0 {
        law_types_planned(states, runs, g, n - 1, x);
        let last = inner_types(states[n - 1], runs[n - 1], g);
        assert(nodes[n - 1].inner == last);
        lemma_with_types(planned_types(states, runs, g, n - 1), last, x);
        if exists|i: int| 0 <= i < n && (#[trigger] nodes[i]).inner.contains(x) {
            let i = choose|i: int| 0 <= i < n && (#[trigger] nodes[i]).inner.contains(x);
            if i < n - 1 {
                assert(nodes[i].inner.contains(x));
            }
        }
        if exists|i: int| 0 <= i < n - 1 && (#[trigger] nodes[i]).inner.contains(x) {
            let i = choose|i: int| 0 <= i < n - 1 && (#[trigger] nodes[i]).inner.contains(x);
            assert(nodes[i].inner.contains(x));
        }
    }
}

/// The folder of a type is named as the type is, without the path before it.
pub proof fn law_folders_planned(types: Seq<Seq<char>>, k: int, base: Seq<char>)
    requires
        0 <= k < types.len(),
        is_last_part(types[k], base),
    ensures
        planned_breakdown(types).len() == types.len(),
        planned_breakdown(types)[k] == (types[k], base),
{
    let last = last_segment(types[k]);
    lemma_last_is_part(types[k]);
    if last.len() >= base.len() {
        lemma_one_last_part(types[k], last, base);
    } else {
        lemma_one_last_part(types[k], base, last);
    }
}

/// How many calls go to a state in what the first `n` states do on an event.
pub open spec fn visits_in_states(fsm: Seq<char>, blocks: Seq<BlocksView>, n: int) -> nat
    decreases n,
{
    if n <= 0 {
        0
    } else {
        visits_in_states(fsm, blocks, n - 1) + visits_in(fsm, blocks[n - 1].process)
    }
}

/// There is one edge for each call that goes to a state, and the edges of one state stand
/// behind those of the states before it.
pub proof fn law_edges_in_order(m: FsmView, blocks: Seq<BlocksView>, i: int, n: int, k: int)
    requires
        0 <= i < n <= m.states.len(),
        m.states.len() == blocks.len(),
        0 <= k < visits_in(m.name, blocks[i].process),
    ensures
        planned_edges(m, blocks, n).len() == visits_in_states(m.name, blocks, n),
        planned_edges(m, blocks, n)[visits_in_states(m.name, blocks, i) + k] == visited(
            m.name,
            m.states[i].name,
            None,
            blocks[i].process,
        )[k],
{
    lemma_edges_counted(m, blocks, n);
    lemma_edges_counted(m, blocks, i);
    lemma_edges_kept(m, blocks, i, n, k);
}

proof fn lemma_edges_counted(m: FsmView, blocks: Seq<BlocksView>, n: int)
    ensures
        planned_edges(m, blocks, n).len() == visits_in_states(m.name, blocks, n),
    decreases n,
{
    if n > 0 {
        lemma_edges_counted(m, blocks, n - 1);
        law_one_for_each_visit(m.name, m.states[n - 1].name, None, blocks[n - 1].process);
    }
}

proof fn lemma_edges_kept(m: FsmView, blocks: Seq<BlocksView>, i: int, n: int, k: int)
    requires
        0 <= i < n,
        0 <= k < visits_in(m.name, blocks[i].process),
    ensures
        planned_edges(m, blocks, i).len() + k < planned_edges(m, blocks, n).len(),
        planned_edges(m, blocks, n)[planned_edges(m, blocks, i).len() + k] == visited(
            m.name,
            m.states[i].name,
            None,
            blocks[i].process,
        )[k],
    decreases n,
{
    law_one_for_each_visit(m.name, m.states[i].name, None, blocks[i].process);
    if i < n - 1 {
        lemma_edges_kept(m, blocks, i, n - 1, k);
    }
}

/// The edges are those that are found in what each state does on an event.
pub proof fn law_edges_planned(m: FsmView, blocks: Seq<BlocksView>, n: int, t: TransitionView)
    requires
        0 <= n <= m.states.len(),
        m.states.len() == blocks.len(),
    ensures
        planned_edges(m, blocks, n).contains(t) <==> exists|i: int|
            0 <= i < n && visited(
                m.name,
                m.states[i].name,
                None,
                (#[trigger] blocks[i]).process,
            ).contains(t),
    decreases n,
{
    if n > 0 {
        law_edges_planned(m, blocks, n - 1, t);
        let before = planned_edges(m, blocks, n - 1);
        let last = visited(m.name, m.states[n - 1].name, None, blocks[n - 1].process);
        let all = planned_edges(m, blocks, n);
        if before.contains(t) {
            assert(all[before.index_of(t)] == t);
        }
        if last.contains(t) {
            assert(all[before.len() + last.index_of(t)] == t);
        }
        if all.contains(t) {
            let k = all.index_of(t);
            if k < before.len() {
                assert(before[k] == t);
            } else {
                assert(last[k - before.len()] == t);
            }
        }
        if exists|i: int|
            0 <= i < n && visited(
                m.name,
                m.states[i].name,
                None,
                (#[trigger] blocks[i]).process,
            ).contains(t) {
            let i = choose|i: int|
                0 <= i < n && visited(
                    m.name,
                    m.states[i].name,
                    None,
                    (#[trigger] blocks[i]).process,
                ).contains(t);
            if i < n - 1 {
                assert(visited(m.name, m.states[i].name, None, blocks[i].process).contains(t));
            }
        }
        if exists|i: int|
            0 <= i < n - 1 && visited(
                m.name,
                m.states[i].name,
                None,
                (#[trigger] blocks[i]).process,
            ).contains(t) {
            let i = choose|i: int|
                0 <= i < n - 1 && visited(
                    m.name,
                    m.states[i].name,
                    None,
                    (#[trigger] blocks[i]).process,
                ).contains(t);
            assert(visited(m.name, m.states[i].name, None, blocks[i].process).contains(t));
        }
    }
}

/// The machines that a state runs are those whose names start paths in its blocks.
pub proof fn law_state_runs(fsm: Seq<char>, b: BlocksView, x: Seq<char>)
    ensures
        run_in_state(fsm, b).contains(x) <==> {
            ||| (b.entry matches Some(e) && has_path(fsm, e, x))
            ||| has_path(fsm, b.process, x)
            ||| (b.exit matches Some(e) && has_path(fsm, e, x))
        },
{
    let none = Seq::<Seq<char>>::empty();
    let one = run_in_block(fsm, b.entry, none);
    if let Some(e) = b.entry {
        law_machines_run(fsm, e, none, x);
    }
    law_machines_run(fsm, b.process, one, x);
    let two = crate::visit::run_in(fsm, b.process, one);
    if let Some(e) = b.exit {
        law_machines_run(fsm, e, two, x);
    }
}

/// The machines that a state of a machine from source text runs are those whose names start
/// paths in its blocks.
pub proof fn law_source_runs(fsm: Seq<char>, st: StateView, x: Seq<char>)
    ensures
        source_runs(fsm, st).contains(x) <==> {
            ||| (st.entry_block matches Some(b) && has_machine(fsm, source_tree(b), x))
            ||| has_machine(fsm, source_tree(st.process_block), x)
            ||| (st.exit_block matches Some(b) && has_machine(fsm, source_tree(b), x))
        },
{
    let one = block_discovery(fsm, st.entry_block, nothing());
    if let Some(b) = st.entry_block {
        law_machines_discovered(fsm, source_tree(b), nothing(), x);
    }
    let t = source_tree(st.process_block);
    law_machines_discovered(fsm, t, one, x);
    let two = discovered_in(fsm, t, one);
    if let Some(b) = st.exit_block {
        law_machines_discovered(fsm, source_tree(b), two, x);
    }
}

/// Each transition of a state has one edge, with the label that it has with guards and the one
/// that it has without them.
pub proof fn law_guarded_edges(fsm: Seq<char>, st: StateView, k: int)
    requires
        0 <= k < state_transitions(fsm, st, true, Map::empty()).len(),
    ensures
        state_edges(fsm, st).len() == state_transitions(fsm, st, true, Map::empty()).len(),
        state_edges(fsm, st).len() == state_transitions(fsm, st, false, Map::empty()).len(),
        ({
            let e = state_edges(fsm, st)[k];
            let full = state_transitions(fsm, st, true, Map::empty())[k];
            let clean = state_transitions(fsm, st, false, Map::empty())[k];
            &&& e.source == full.source && e.source == clean.source
            &&& e.target == full.target && e.target == clean.target
            &&& e.label_full == full.label
            &&& e.label_clean == clean.label
        }),
{
    law_same_transitions(fsm, st, Map::empty());
    let full = state_transitions(fsm, st, true, Map::empty());
    let clean = state_transitions(fsm, st, false, Map::empty());
    assert(routes(full)[k] == routes(clean)[k]);
}

/// The edges of some states and of some others are those of the ones and then those of the
/// others.
pub proof fn law_source_edges(
    fsm: Seq<char>,
    a: Seq<StateView>,
    b: Seq<StateView>,
    st: StateView,
)
    ensures
        source_edges(fsm, a + b) == source_edges(fsm, a) + source_edges(fsm, b),
        source_edges(fsm, seq![st]) == state_edges(fsm, st),
    decreases b.len(),
{
    let one = seq![st];
    assert(one.drop_last() =~= Seq::empty());
    assert(source_edges(fsm, one.drop_last()) =~= Seq::empty());
    assert(source_edges(fsm, one) =~= state_edges(fsm, st));
    if b.len() == 0 {
        assert(a + b =~= a);
        assert(source_edges(fsm, a) + source_edges(fsm, b) =~= source_edges(fsm, a));
    } else {
        assert((a + b).drop_last() =~= a + b.drop_last());
        assert((a + b).last() == b.last());
        law_source_edges(fsm, a, b.drop_last(), st);
        let x = source_edges(fsm, a);
        let y = source_edges(fsm, b.drop_last());
        let z = state_edges(fsm, b.last());
        assert((x + y) + z =~= x + (y + z));
    }
}

} // verus!
