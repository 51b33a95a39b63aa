//! What holds of the machines that states and machines name.
use vstd::prelude::*;

use crate::model::{FsmView, StateView};
use crate::names::with_name;
use crate::nesting::{
    block_discovery, context_name, field_machine, fields_discovery, fsm_machines, machines_named,
    nests, nests_within, nothing, resolved_all, state_discovery, state_machines, states_discovery,
    with_fields, Surroundings,
};
use crate::subfsm::{discovered_in, discovered_in_all, noticed, Discovery};
use crate::syntax::{source_tree, TreeView};

verus! {

proof fn lemma_with_name(names: Seq<Seq<char>>, name: Seq<char>, x: Seq<char>)
    ensures
        with_name(names, name).contains(x) <==> names.contains(x) || x == name,
{
    if !names.contains(name) {
        let now = names.push(name);
        assert(now[names.len() as int] == name);
        if names.contains(x) {
            let i = names.index_of(x);
            assert(now[i] == x);
        }
    }
}

/// `r` has `x` among its machines where `d` or `e` has it, and likewise among its fields.
spec fn joins_at(d: Discovery, e: Discovery, r: Discovery, x: Seq<char>) -> bool {
    &&& r.machines.contains(x) <==> d.machines.contains(x) || e.machines.contains(x)
    &&& r.fields.contains(x) <==> d.fields.contains(x) || e.fields.contains(x)
}

proof fn lemma_noticed(fsm: Seq<char>, t: TreeView, d: Discovery, x: Seq<char>)
    ensures
        joins_at(d, noticed(fsm, t, nothing()), noticed(fsm, t, d), x),
{
    assert forall|name: Seq<char>|
        #![trigger with_name(d.machines, name)]
        #![trigger with_name(d.fields, name)]
        {
            &&& with_name(d.machines, name).contains(x) <==> d.machines.contains(x) || x == name
            &&& with_name(d.fields, name).contains(x) <==> d.fields.contains(x) || x == name
            &&& with_name(Seq::<Seq<char>>::empty(), name).contains(x) <==> x == name
        } by {
        lemma_with_name(d.machines, name, x);
        lemma_with_name(d.fields, name, x);
        lemma_with_name(Seq::empty(), name, x);
    }
}

proof fn lemma_discovered_in(fsm: Seq<char>, t: TreeView, d: Discovery, x: Seq<char>)
    ensures
        joins_at(d, discovered_in(fsm, t, nothing()), discovered_in(fsm, t, d), x),
    decreases t, 1nat,
{
    lemma_noticed(fsm, t, d, x);
    lemma_discovered_in_all(fsm, t.children, noticed(fsm, t, d), x);
    lemma_discovered_in_all(fsm, t.children, noticed(fsm, t, nothing()), x);
}

proof fn lemma_discovered_in_all(fsm: Seq<char>, ts: Seq<TreeView>, d: Discovery, x: Seq<char>)
    ensures
        joins_at(d, discovered_in_all(fsm, ts, nothing()), discovered_in_all(fsm, ts, d), x),
    decreases ts, 0nat,
{
    if ts.len() > 0 {
        let rest = ts.drop_last();
        lemma_discovered_in_all(fsm, rest, d, x);
        lemma_discovered_in(fsm, ts.last(), discovered_in_all(fsm, rest, d), x);
        lemma_discovered_in(fsm, ts.last(), discovered_in_all(fsm, rest, nothing()), x);
    }
}

proof fn lemma_block_discovery(
    fsm: Seq<char>,
    block: Option<Seq<char>>,
    d: Discovery,
    x: Seq<char>,
)
    ensures
        joins_at(d, block_discovery(fsm, block, nothing()), block_discovery(fsm, block, d), x),
{
    match block {
        Some(b) => {
            lemma_discovered_in(fsm, source_tree(b), d, x);
        },
        None => {},
    }
}

proof fn lemma_fields_discovery(
    fsm: Seq<char>,
    fields: Seq<(Seq<char>, Seq<char>)>,
    d: Discovery,
    x: Seq<char>,
)
    ensures
        joins_at(d, fields_discovery(fsm, fields, nothing()), fields_discovery(fsm, fields, d), x),
    decreases fields.len(),
{
    if fields.len() > 0 {
        let rest = fields.drop_last();
        let t = source_tree(fields.last().1);
        lemma_fields_discovery(fsm, rest, d, x);
        lemma_discovered_in(fsm, t, fields_discovery(fsm, rest, d), x);
        lemma_discovered_in(fsm, t, fields_discovery(fsm, rest, nothing()), x);
    }
}

proof fn lemma_state_discovery(fsm: Seq<char>, s: StateView, d: Discovery, x: Seq<char>)
    ensures
        joins_at(d, state_discovery(fsm, s, nothing()), state_discovery(fsm, s, d), x),
{
    let e0 = block_discovery(fsm, s.entry_block, nothing());
    let e1 = block_discovery(fsm, s.entry_block, d);
    lemma_block_discovery(fsm, s.entry_block, d, x);
    let t = source_tree(s.process_block);
    lemma_discovered_in(fsm, t, e0, x);
    lemma_discovered_in(fsm, t, e1, x);
    let p0 = discovered_in(fsm, t, e0);
    let p1 = discovered_in(fsm, t, e1);
    lemma_block_discovery(fsm, s.exit_block, p0, x);
    lemma_block_discovery(fsm, s.exit_block, p1, x);
    lemma_fields_discovery(fsm, s.fields, block_discovery(fsm, s.exit_block, p0), x);
    lemma_fields_discovery(fsm, s.fields, block_discovery(fsm, s.exit_block, p1), x);
}

/// What is discovered in several states is what is discovered in one of them.
proof fn lemma_states_discovery(fsm: Seq<char>, states: Seq<StateView>, x: Seq<char>)
    ensures
        states_discovery(fsm, states, nothing()).machines.contains(x) <==> exists|i: int|
            0 <= i < states.len() && #[trigger] state_discovery(
                fsm,
                states[i],
                nothing(),
            ).machines.contains(x),
        states_discovery(fsm, states, nothing()).fields.contains(x) <==> exists|i: int|
            0 <= i < states.len() && #[trigger] state_discovery(
                fsm,
                states[i],
                nothing(),
            ).fields.contains(x),
    decreases states.len(),
{
    if states.len() > 0 {
        let rest = states.drop_last();
        lemma_states_discovery(fsm, rest, x);
        lemma_state_discovery(fsm, states.last(), states_discovery(fsm, rest, nothing()), x);
        assert forall|i: int| 0 <= i < rest.len() implies #[trigger] rest[i] == states[i] by {}
        if states_discovery(fsm, rest, nothing()).machines.contains(x) {
            let i = choose|i: int|
                0 <= i < rest.len() && #[trigger] state_discovery(
                    fsm,
                    rest[i],
                    nothing(),
                ).machines.contains(x);
            assert(state_discovery(fsm, states[i], nothing()).machines.contains(x));
        }
        if states_discovery(fsm, rest, nothing()).fields.contains(x) {
            let i = choose|i: int|
                0 <= i < rest.len() && #[trigger] state_discovery(
                    fsm,
                    rest[i],
                    nothing(),
                ).fields.contains(x);
            assert(state_discovery(fsm, states[i], nothing()).fields.contains(x));
        }
        assert(states[states.len() - 1] == states.last());
        assert forall|i: int|
            0 <= i < states.len() && #[trigger] state_discovery(
                fsm,
                states[i],
                nothing(),
            ).machines.contains(x) implies states_discovery(
            fsm,
            states,
            nothing(),
        ).machines.contains(x) by {
            if i < rest.len() {
                assert(state_discovery(fsm, rest[i], nothing()).machines.contains(x));
            }
        }
        assert forall|i: int|
            0 <= i < states.len() && #[trigger] state_discovery(
                fsm,
                states[i],
                nothing(),
            ).fields.contains(x) implies states_discovery(
            fsm,
            states,
            nothing(),
        ).fields.contains(x) by {
            if i < rest.len() {
                assert(state_discovery(fsm, rest[i], nothing()).fields.contains(x));
            }
        }
    }
}

proof fn lemma_resolved_all(
    g: spec_fn(Seq<char>) -> Seq<char>,
    names: Seq<Seq<char>>,
    x: Seq<char>,
)
    ensures
        resolved_all(g, names).contains(x) <==> exists|y: Seq<char>| #[trigger]
            names.contains(y) && g(y) == x,
    decreases names.len(),
{
    if names.len() > 0 {
        let rest = names.drop_last();
        lemma_resolved_all(g, rest, x);
        lemma_with_name(resolved_all(g, rest), g(names.last()), x);
        assert forall|y: Seq<char>| names.contains(y) <==> rest.contains(y) || y == names.last() by {
            if names.contains(y) {
                let i = names.index_of(y);
                if i < rest.len() {
                    assert(rest[i] == y);
                }
            }
            if rest.contains(y) {
                let i = rest.index_of(y);
                assert(names[i] == y);
            }
            assert(names[names.len() - 1] == names.last());
        }
        if resolved_all(g, rest).contains(x) {
            let y = choose|y: Seq<char>| #[trigger] rest.contains(y) && g(y) == x;
            assert(names.contains(y));
        }
        if x == g(names.last()) {
            assert(names.contains(names.last()));
        }
    }
}

proof fn lemma_with_fields(
    s: Surroundings,
    context: Seq<char>,
    fields: Seq<Seq<char>>,
    names: Seq<Seq<char>>,
    x: Seq<char>,
)
    ensures
        with_fields(s, context, fields, names).contains(x) <==> names.contains(x) || exists|
            f: Seq<char>,
        | #[trigger]
            fields.contains(f) && field_machine(s, context, f) == Some(x),
    decreases fields.len(),
{
    if fields.len() > 0 {
        let rest = fields.drop_last();
        lemma_with_fields(s, context, rest, names, x);
        match field_machine(s, context, fields.last()) {
            Some(base) => {
                lemma_with_name(with_fields(s, context, rest, names), base, x);
            },
            None => {},
        }
        assert forall|f: Seq<char>| fields.contains(f) <==> rest.contains(f) || f
            == fields.last() by {
            if fields.contains(f) {
                let i = fields.index_of(f);
                if i < rest.len() {
                    assert(rest[i] == f);
                }
            }
            if rest.contains(f) {
                let i = rest.index_of(f);
                assert(fields[i] == f);
            }
            assert(fields[fields.len() - 1] == fields.last());
        }
        if exists|f: Seq<char>| #[trigger]
            rest.contains(f) && field_machine(s, context, f) == Some(x) {
            let f = choose|f: Seq<char>| #[trigger]
                rest.contains(f) && field_machine(s, context, f) == Some(x);
            assert(fields.contains(f));
        }
        if field_machine(s, context, fields.last()) == Some(x) {
            assert(fields.contains(fields.last()));
        }
    }
}

/// `x` is one of the machines that `d`, discovered in `m`, stands for: `d` names it, or uses
/// a field of the context that holds it.
pub open spec fn stands_for(s: Surroundings, m: FsmView, d: Discovery, x: Seq<char>) -> bool {
    ||| exists|y: Seq<char>| #[trigger] d.machines.contains(y) && (s.resolve)(y) == x
    ||| exists|f: Seq<char>| #[trigger]
        d.fields.contains(f) && (context_name(s, m) matches Some(context) && field_machine(
            s,
            context,
            f,
        ) == Some(x))
}

/// The machines that a discovery stands for are those that it names, and those that are
/// held by the fields of the context that it uses.
pub proof fn law_machines_named(s: Surroundings, m: FsmView, d: Discovery, x: Seq<char>)
    ensures
        machines_named(s, m, d).contains(x) <==> stands_for(s, m, d, x),
{
    lemma_resolved_all(s.resolve, d.machines, x);
    match context_name(s, m) {
        Some(context) => {
            lemma_with_fields(s, context, d.fields, resolved_all(s.resolve, d.machines), x);
        },
        None => {},
    }
}

/// A machine as a whole names exactly the machines that its states name.
pub proof fn law_fsm_names_what_states_name(s: Surroundings, m: FsmView, x: Seq<char>)
    ensures
        fsm_machines(s, m).contains(x) <==> exists|i: int|
            0 <= i < m.states.len() && #[trigger] state_machines(s, m, m.states[i]).contains(x),
{
    let whole = states_discovery(m.name, m.states, nothing());
    law_machines_named(s, m, whole, x);
    if stands_for(s, m, whole, x) {
        if exists|y: Seq<char>| #[trigger] whole.machines.contains(y) && (s.resolve)(y) == x {
            let y = choose|y: Seq<char>| #[trigger]
                whole.machines.contains(y) && (s.resolve)(y) == x;
            lemma_states_discovery(m.name, m.states, y);
            let i = choose|i: int|
                0 <= i < m.states.len() && #[trigger] state_discovery(
                    m.name,
                    m.states[i],
                    nothing(),
                ).machines.contains(y);
            law_machines_named(s, m, state_discovery(m.name, m.states[i], nothing()), x);
            assert(state_machines(s, m, m.states[i]).contains(x));
        } else {
            let context = context_name(s, m)->0;
            let f = choose|f: Seq<char>| #[trigger]
                whole.fields.contains(f) && field_machine(s, context, f) == Some(x);
            lemma_states_discovery(m.name, m.states, f);
            let i = choose|i: int|
                0 <= i < m.states.len() && #[trigger] state_discovery(
                    m.name,
                    m.states[i],
                    nothing(),
                ).fields.contains(f);
            law_machines_named(s, m, state_discovery(m.name, m.states[i], nothing()), x);
            assert(state_machines(s, m, m.states[i]).contains(x));
        }
    }
    assert forall|i: int|
        0 <= i < m.states.len() && #[trigger] state_machines(s, m, m.states[i]).contains(
            x,
        ) implies fsm_machines(s, m).contains(x) by {
        let part = state_discovery(m.name, m.states[i], nothing());
        law_machines_named(s, m, part, x);
        if exists|y: Seq<char>| #[trigger] part.machines.contains(y) && (s.resolve)(y) == x {
            let y = choose|y: Seq<char>| #[trigger]
                part.machines.contains(y) && (s.resolve)(y) == x;
            lemma_states_discovery(m.name, m.states, y);
            assert(whole.machines.contains(y));
        } else {
            let context = context_name(s, m)->0;
            let f = choose|f: Seq<char>| #[trigger]
                part.fields.contains(f) && field_machine(s, context, f) == Some(x);
            lemma_states_discovery(m.name, m.states, f);
            assert(whole.fields.contains(f));
        }
    }
}

/// Where the nesting below a machine comes to an end, so does the nesting below each
/// machine that it names.
pub proof fn law_nesting_goes_down(s: Surroundings, m: FsmView, x: Seq<char>)
    requires
        nests(s, m),
        fsm_machines(s, m).contains(x),
        s.fsms.dom().contains(x),
    ensures
        nests(s, s.fsms[x]),
{
    let depth = choose|depth: nat| nests_within(s, m, depth);
    law_fsm_names_what_states_name(s, m, x);
    let i = choose|i: int|
        0 <= i < m.states.len() && #[trigger] state_machines(s, m, m.states[i]).contains(x);
    let k = state_machines(s, m, m.states[i]).index_of(x);
    assert(s.fsms.dom().contains(state_machines(s, m, m.states[i])[k]));
    assert(nests_within(s, s.fsms[x], (depth - 1) as nat));
}

} // verus!
