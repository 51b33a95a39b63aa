//! Which machines run inside which: the machines that a state names, and whether the
//! nesting comes to an end.
use vstd::prelude::*;
use vstd::seq_lib::seq_to_set_is_finite;
use vstd::set_lib::lemma_len_subset;

use crate::labels::label_view;
use crate::model::{
    block_fits, field_views, fsm_fits, state_fits, FsmDefinition, FsmView, StateDefinition,
    StateView,
};
use crate::names::{with_name, NameMap, NameSet};
use crate::nesting_laws::law_fsm_names_what_states_name;
use crate::reach::{law_below_below, reachable, reaches};
use crate::subfsm::{discovered_in, Discovery, SubFsmExtractor};
use crate::syntax::{parse_source, source_tree, SyntaxTree};
use crate::text::{replace_all, replaced};
use crate::transitions::{last_of_path, last_segment};

verus! {

/// All that is known of the source that machines stand in.
pub struct Surroundings {
    /// The machines, by name.
    pub fsms: Map<Seq<char>, FsmView>,
    /// The fields of each struct, and their types.
    pub structs: Map<Seq<char>, NameMap<String>>,
    /// The name that each type goes by.
    pub resolve: spec_fn(Seq<char>) -> Seq<char>,
}

/// What the machines of a map say.
pub open spec fn fsm_views(fsms: Map<Seq<char>, &FsmDefinition>) -> Map<Seq<char>, FsmView> {
    Map::new(|k: Seq<char>| fsms.dom().contains(k), |k: Seq<char>| fsms[k]@)
}

/// The parser of source text takes every machine.
pub open spec fn all_fit(fsms: Map<Seq<char>, FsmView>) -> bool {
    forall|k: Seq<char>| #[trigger] fsms.dom().contains(k) ==> fsm_fits(fsms[k])
}

/// Whatever `f` returns is what `g` says. This is what can be known of `f` from outside.
pub open spec fn resolves<F: Fn(&str) -> String>(
    f: F,
    g: spec_fn(Seq<char>) -> Seq<char>,
) -> bool {
    forall|x: &str, y: String| #[trigger] call_ensures(f, (x,), y) ==> y@ == g(x@)
}

/// What is discovered once the source text `block` has been looked at, if there is one.
pub open spec fn block_discovery(
    fsm: Seq<char>,
    block: Option<Seq<char>>,
    d: Discovery,
) -> Discovery {
    match block {
        Some(b) => discovered_in(fsm, source_tree(b), d),
        None => d,
    }
}

/// What is discovered once the types of `fields` have been looked at.
pub open spec fn fields_discovery(
    fsm: Seq<char>,
    fields: Seq<(Seq<char>, Seq<char>)>,
    d: Discovery,
) -> Discovery
    decreases fields.len(),
{
    if fields.len() == 0 {
        d
    } else {
        discovered_in(
            fsm,
            source_tree(fields.last().1),
            fields_discovery(fsm, fields.drop_last(), d),
        )
    }
}

/// What is discovered once the state `s` of the machine `fsm` has been looked at: its
/// blocks, and then the types of its fields.
pub open spec fn state_discovery(fsm: Seq<char>, s: StateView, d: Discovery) -> Discovery {
    let entered = block_discovery(fsm, s.entry_block, d);
    let processed = discovered_in(fsm, source_tree(s.process_block), entered);
    fields_discovery(fsm, s.fields, block_discovery(fsm, s.exit_block, processed))
}

/// What is discovered once all of `states` have been looked at.
pub open spec fn states_discovery(
    fsm: Seq<char>,
    states: Seq<StateView>,
    d: Discovery,
) -> Discovery
    decreases states.len(),
{
    if states.len() == 0 {
        d
    } else {
        state_discovery(fsm, states.last(), states_discovery(fsm, states.drop_last(), d))
    }
}

/// Nothing discovered.
pub open spec fn nothing() -> Discovery {
    Discovery { machines: Seq::empty(), fields: Seq::empty() }
}

/// The names that `names` go by, each once.
pub open spec fn resolved_all(
    g: spec_fn(Seq<char>) -> Seq<char>,
    names: Seq<Seq<char>>,
) -> Seq<Seq<char>>
    decreases names.len(),
{
    if names.len() == 0 {
        Seq::empty()
    } else {
        with_name(resolved_all(g, names.drop_last()), g(names.last()))
    }
}

/// The name of the struct that is the context of the machine `m`.
pub open spec fn context_name(s: Surroundings, m: FsmView) -> Option<Seq<char>> {
    match m.context_type {
        Some(c) => Some((s.resolve)(replaced(c, " "@, ""@))),
        None => None,
    }
}

/// The machine that the field `field` of the struct `context` holds, if it holds one.
pub open spec fn field_machine(
    s: Surroundings,
    context: Seq<char>,
    field: Seq<char>,
) -> Option<Seq<char>> {
    if s.structs.dom().contains(context) && s.structs[context]@.dom().contains(field) {
        let base = last_segment((s.resolve)(s.structs[context]@[field]@));
        if s.fsms.dom().contains(base) {
            Some(base)
        } else {
            None
        }
    } else {
        None
    }
}

/// `names` with the machines that the fields `fields` of the struct `context` hold.
pub open spec fn with_fields(
    s: Surroundings,
    context: Seq<char>,
    fields: Seq<Seq<char>>,
    names: Seq<Seq<char>>,
) -> Seq<Seq<char>>
    decreases fields.len(),
{
    if fields.len() == 0 {
        names
    } else {
        let before = with_fields(s, context, fields.drop_last(), names);
        match field_machine(s, context, fields.last()) {
            Some(base) => with_name(before, base),
            None => before,
        }
    }
}

/// The machines that `d`, discovered in the machine `m`, stands for: those that are named,
/// and those that are held by the fields of the context that are used.
pub open spec fn machines_named(s: Surroundings, m: FsmView, d: Discovery) -> Seq<Seq<char>> {
    let named = resolved_all(s.resolve, d.machines);
    match context_name(s, m) {
        Some(context) => with_fields(s, context, d.fields, named),
        None => named,
    }
}

/// The machines that the state `st` of `m` names.
pub open spec fn state_machines(s: Surroundings, m: FsmView, st: StateView) -> Seq<Seq<char>> {
    machines_named(s, m, state_discovery(m.name, st, nothing()))
}

/// The machines that the whole of `m` names.
pub open spec fn fsm_machines(s: Surroundings, m: FsmView) -> Seq<Seq<char>> {
    machines_named(s, m, states_discovery(m.name, m.states, nothing()))
}

/// `t` is the type of one of the fields `fields` of the struct `table`.
pub open spec fn is_field_type(
    table: Map<Seq<char>, String>,
    fields: Seq<Seq<char>>,
    t: Seq<char>,
) -> bool {
    exists|k: int|
        0 <= k < fields.len() && table.dom().contains(#[trigger] fields[k]) && t
            == table[fields[k]]@
}

/// It takes the name that `t` goes by to tell the machines that `d`, discovered in the machine
/// `m`, stands for: `t` is named, or a field of the context that is used has that type.
pub open spec fn is_asked_for(s: Surroundings, m: FsmView, d: Discovery, t: Seq<char>) -> bool {
    ||| d.machines.contains(t)
    ||| (context_name(s, m) matches Some(context) && s.structs.dom().contains(context)
        && is_field_type(s.structs[context]@, d.fields, t))
}

/// `f` can be asked for all that it takes to tell the machines that `d`, discovered in the
/// machine `m`, stands for.
pub open spec fn answers<F: Fn(&str) -> String>(
    f: F,
    s: Surroundings,
    m: FsmView,
    d: Discovery,
) -> bool {
    forall|x: &str| is_asked_for(s, m, d, x@) ==> #[trigger] call_requires(f, (x,))
}

/// `t` is the context of the machine `m`, without spaces.
pub open spec fn is_context(m: FsmView, t: Seq<char>) -> bool {
    m.context_type matches Some(c) && t == replaced(c, " "@, ""@)
}

/// `f` can be asked for the context of the machine `m`, if it has one.
pub open spec fn answers_context<F: Fn(&str) -> String>(f: F, m: FsmView) -> bool {
    forall|x: &str| is_context(m, x@) ==> #[trigger] call_requires(f, (x,))
}

/// `f` can be asked for all that it takes to tell the machines that the state `st` of `m`
/// names.
pub open spec fn answers_in<F: Fn(&str) -> String>(
    f: F,
    s: Surroundings,
    m: FsmView,
    st: StateView,
) -> bool {
    answers(f, s, m, state_discovery(m.name, st, nothing()))
}

/// `f` can be asked for all that it takes to tell the machines that the states of `m` name.
pub open spec fn answers_all<F: Fn(&str) -> String>(f: F, s: Surroundings, m: FsmView) -> bool {
    &&& answers_context(f, m)
    &&& forall|i: int| 0 <= i < m.states.len() ==> #[trigger] answers_in(f, s, m, m.states[i])
}

/// `f` can be asked for all that it takes to tell the machines that run below `m`.
pub open spec fn answers_below<F: Fn(&str) -> String>(
    f: F,
    s: Surroundings,
    m: FsmView,
) -> bool {
    &&& answers_all(f, s, m)
    &&& forall|x: Seq<char>| #[trigger] reachable(s, m, x) ==> answers_all(f, s, s.fsms[x])
}

/// What can be asked for all that runs below `m` can be asked for all that runs below a machine
/// that a state of `m` names.
pub proof fn lemma_answers_go_down<F: Fn(&str) -> String>(
    f: F,
    s: Surroundings,
    m: FsmView,
    i: int,
    x: Seq<char>,
)
    requires
        answers_below(f, s, m),
        0 <= i < m.states.len(),
        state_machines(s, m, m.states[i]).contains(x),
        s.fsms.dom().contains(x),
    ensures
        answers_below(f, s, s.fsms[x]),
{
    law_fsm_names_what_states_name(s, m, x);
    assert(reaches(s, m, x, 0));
    assert(reachable(s, m, x));
    assert forall|y: Seq<char>| #[trigger] reachable(s, s.fsms[x], y) implies answers_all(
        f,
        s,
        s.fsms[y],
    ) by {
        law_below_below(s, m, x, y);
    }
}

/// Looks at the source text `block`, if there is one.
pub fn discover_block(x: &mut SubFsmExtractor, block: &Option<String>)
    requires
        block_fits(label_view(*block)),
    ensures
        final(x).fsm_name == old(x).fsm_name,
        final(x).found() == block_discovery(
            old(x).fsm_name@,
            label_view(*block),
            old(x).found(),
        ),
        old(x).wf() ==> final(x).wf(),
{
    match block {
        Some(b) => {
            let tree: SyntaxTree = parse_source(b.as_str());
            x.extract(&tree);
        },
        None => {},
    }
}

/// Looks at the blocks of the state `st`, and then at the types of its fields.
pub fn discover_state(x: &mut SubFsmExtractor, st: &StateDefinition)
    requires
        state_fits(st@),
    ensures
        final(x).fsm_name == old(x).fsm_name,
        final(x).found() == state_discovery(old(x).fsm_name@, st@, old(x).found()),
        old(x).wf() ==> final(x).wf(),
{
    discover_block(x, &st.entry_block);
    let process: SyntaxTree = parse_source(st.process_block.as_str());
    x.extract(&process);
    discover_block(x, &st.exit_block);
    let ghost start = x.found();
    let ghost fv = field_views(st.fields@);
    let ghost name = old(x).fsm_name@;
    let mut i: usize = 0;
    assert(fv.take(0) =~= Seq::empty());
    while i < st.fields.len()
        invariant
            fv == field_views(st.fields@),
            state_fits(st@),
            i <= st.fields@.len(),
            x.fsm_name == old(x).fsm_name,
            name == old(x).fsm_name@,
            old(x).wf() ==> x.wf(),
            x.found() == fields_discovery(name, fv.take(i as int), start),
        decreases st.fields@.len() - i,
    {
        assert(st@.fields[i as int] == fv[i as int]);
        assert(fv.take(i + 1).drop_last() =~= fv.take(i as int));
        let tree: SyntaxTree = parse_source(st.fields[i].1.as_str());
        x.extract(&tree);
        i = i + 1;
    }
    assert(fv.take(i as int) =~= fv);
}

/// Looks at all states of the machine `m`.
pub fn discover_fsm(m: &FsmDefinition) -> (x: SubFsmExtractor)
    requires
        fsm_fits(m@),
    ensures
        x.fsm_name@ == m.name@,
        x.found() == states_discovery(m.name@, m@.states, nothing()),
        x.wf(),
{
    let mut x: SubFsmExtractor = SubFsmExtractor::new(m.name.clone());
    let ghost sv = m@.states;
    let mut i: usize = 0;
    assert(sv.take(0) =~= Seq::empty());
    while i < m.states.len()
        invariant
            sv == m@.states,
            fsm_fits(m@),
            i <= m.states@.len(),
            x.fsm_name@ == m.name@,
            x.wf(),
            x.found() == states_discovery(m.name@, sv.take(i as int), nothing()),
        decreases m.states@.len() - i,
    {
        assert(sv[i as int] == m.states@[i as int]@);
        assert(sv.take(i + 1).drop_last() =~= sv.take(i as int));
        discover_state(&mut x, &m.states[i]);
        i = i + 1;
    }
    assert(sv.take(i as int) =~= sv);
    x
}

/// What is known, where types go by the names that `g` says.
pub open spec fn surroundings(
    fsms: Map<Seq<char>, &FsmDefinition>,
    structs: Map<Seq<char>, NameMap<String>>,
    g: spec_fn(Seq<char>) -> Seq<char>,
) -> Surroundings {
    Surroundings { fsms: fsm_views(fsms), structs, resolve: g }
}

/// The names that `names` go by, each once.
fn resolve_all<F: Fn(&str) -> String>(names: &NameSet, resolve_type: &F) -> (r: NameSet)
    requires
        forall|x: &str| names@.contains(x@) ==> #[trigger] call_requires(*resolve_type, (x,)),
    ensures
        forall|g: spec_fn(Seq<char>) -> Seq<char>| #[trigger]
            resolves(*resolve_type, g) ==> r@ == resolved_all(g, names@),
        r.wf(),
{
    let mut r: NameSet = NameSet::new();
    let mut i: usize = 0;
    assert(names@.take(0) =~= Seq::empty());
    while i < names.len()
        invariant
            forall|x: &str| names@.contains(x@) ==> #[trigger] call_requires(*resolve_type, (x,)),
            i <= names@.len(),
            r.wf(),
            forall|g: spec_fn(Seq<char>) -> Seq<char>| #[trigger]
                resolves(*resolve_type, g) ==> r@ == resolved_all(g, names@.take(i as int)),
        decreases names@.len() - i,
    {
        assert(names@.take(i + 1).drop_last() =~= names@.take(i as int));
        let name: &str = names.get(i).as_str();
        assert(names@[i as int] == name@);
        assert(call_requires(*resolve_type, (name,)));
        let resolved: String = resolve_type(name);
        r.insert(resolved);
        i = i + 1;
    }
    assert(names@.take(i as int) =~= names@);
    r
}

/// Puts the machines that the fields `fields` of a context hold into `names`.
fn add_fields<F: Fn(&str) -> String>(
    context: &str,
    table: &NameMap<String>,
    fields: &NameSet,
    all_fsms: &NameMap<&FsmDefinition>,
    context_struct_map: &NameMap<NameMap<String>>,
    resolve_type: &F,
    names: &mut NameSet,
)
    requires
        forall|x: &str|
            is_field_type(table@, fields@, x@) ==> #[trigger] call_requires(*resolve_type, (x,)),
        context_struct_map@.dom().contains(context@),
        *table == context_struct_map@[context@],
    ensures
        forall|g: spec_fn(Seq<char>) -> Seq<char>| #[trigger]
            resolves(*resolve_type, g) ==> final(names)@ == with_fields(
                surroundings(all_fsms@, context_struct_map@, g),
                context@,
                fields@,
                old(names)@,
            ),
        old(names).wf() ==> final(names).wf(),
{
    let mut i: usize = 0;
    assert(fields@.take(0) =~= Seq::empty());
    while i < fields.len()
        invariant
            forall|x: &str|
                is_field_type(table@, fields@, x@) ==> #[trigger] call_requires(
                    *resolve_type,
                    (x,),
                ),
            context_struct_map@.dom().contains(context@),
            *table == context_struct_map@[context@],
            i <= fields@.len(),
            old(names).wf() ==> names.wf(),
            forall|g: spec_fn(Seq<char>) -> Seq<char>| #[trigger]
                resolves(*resolve_type, g) ==> names@ == with_fields(
                    surroundings(all_fsms@, context_struct_map@, g),
                    context@,
                    fields@.take(i as int),
                    old(names)@,
                ),
        decreases fields@.len() - i,
    {
        assert(fields@.take(i + 1).drop_last() =~= fields@.take(i as int));
        let field: &str = fields.get(i).as_str();
        match table.get(field) {
            Some(ty) => {
                let ty_str: &str = ty.as_str();
                assert(table@.dom().contains(fields@[i as int]));
                assert(call_requires(*resolve_type, (ty_str,)));
                let resolved: String = resolve_type(ty_str);
                let base: String = last_of_path(resolved.as_str());
                if all_fsms.contains_key(base.as_str()) {
                    names.insert(base);
                }
            },
            None => {},
        }
        i = i + 1;
    }
    assert(fields@.take(i as int) =~= fields@);
}

/// `context` is the struct that is the context of the machine `m`, with its name, or there is
/// none.
pub open spec fn is_context_struct(
    context: Option<(String, &NameMap<String>)>,
    s: Surroundings,
    m: FsmView,
) -> bool {
    match context {
        Some((name, table)) => {
            &&& context_name(s, m) == Some(name@)
            &&& s.structs.dom().contains(name@)
            &&& s.structs[name@] == *table
        },
        None => context_name(s, m) matches Some(name) ==> !s.structs.dom().contains(name),
    }
}

/// The struct that is the context of the machine `m`, with its name, if there is one.
pub fn find_context<'a, F: Fn(&str) -> String>(
    m: &FsmDefinition,
    all_fsms: &NameMap<&FsmDefinition>,
    context_struct_map: &'a NameMap<NameMap<String>>,
    resolve_type: &F,
) -> (r: Option<(String, &'a NameMap<String>)>)
    requires
        answers_context(*resolve_type, m@),
    ensures
        forall|g: spec_fn(Seq<char>) -> Seq<char>| #[trigger]
            resolves(*resolve_type, g) ==> is_context_struct(
                r,
                surroundings(all_fsms@, context_struct_map@, g),
                m@,
            ),
{
    match &m.context_type {
        Some(c) => {
            let joined: String = replace_all(c.as_str(), " ", "");
            let joined_str: &str = joined.as_str();
            assert(is_context(m@, joined_str@));
            assert(call_requires(*resolve_type, (joined_str,)));
            let name: String = resolve_type(joined_str);
            match context_struct_map.get(name.as_str()) {
                Some(table) => Some((name, table)),
                None => None,
            }
        },
        None => None,
    }
}

/// The machines that `x`, which has looked into the machine `m` with the context `context`,
/// stands for.
pub fn name_in_context<F: Fn(&str) -> String>(
    m: &FsmDefinition,
    x: &SubFsmExtractor,
    context: &Option<(String, &NameMap<String>)>,
    all_fsms: &NameMap<&FsmDefinition>,
    context_struct_map: &NameMap<NameMap<String>>,
    resolve_type: &F,
) -> (r: NameSet)
    requires
        exists|g: spec_fn(Seq<char>) -> Seq<char>| #[trigger]
            resolves(*resolve_type, g) && {
                let s = surroundings(all_fsms@, context_struct_map@, g);
                is_context_struct(*context, s, m@) && answers(*resolve_type, s, m@, x.found())
            },
    ensures
        forall|g: spec_fn(Seq<char>) -> Seq<char>| #[trigger]
            resolves(*resolve_type, g) && is_context_struct(
                *context,
                surroundings(all_fsms@, context_struct_map@, g),
                m@,
            ) ==> r@ == machines_named(
                surroundings(all_fsms@, context_struct_map@, g),
                m@,
                x.found(),
            ),
        r.wf(),
{
    let mut names: NameSet = resolve_all(&x.discovered, resolve_type);
    match context {
        Some((name, table)) => {
            add_fields(
                name.as_str(),
                table,
                &x.context_fields,
                all_fsms,
                context_struct_map,
                resolve_type,
                &mut names,
            );
        },
        None => {
            proof {
                assert forall|g: spec_fn(Seq<char>) -> Seq<char>| #[trigger]
                    resolves(*resolve_type, g) && is_context_struct(
                        *context,
                        surroundings(all_fsms@, context_struct_map@, g),
                        m@,
                    ) implies names@ == machines_named(
                    surroundings(all_fsms@, context_struct_map@, g),
                    m@,
                    x.found(),
                ) by {
                    let s = surroundings(all_fsms@, context_struct_map@, g);
                    if let Some(name) = context_name(s, m@) {
                        lemma_no_struct(s, name, x.context_fields@, names@);
                    }
                }
            }
        },
    }
    names
}

/// The machines that `x`, which has looked into the machine `m`, stands for.
pub fn name_machines<F: Fn(&str) -> String>(
    m: &FsmDefinition,
    x: &SubFsmExtractor,
    all_fsms: &NameMap<&FsmDefinition>,
    context_struct_map: &NameMap<NameMap<String>>,
    resolve_type: &F,
) -> (r: NameSet)
    requires
        answers_context(*resolve_type, m@),
        exists|g: spec_fn(Seq<char>) -> Seq<char>| #[trigger]
            resolves(*resolve_type, g) && answers(
                *resolve_type,
                surroundings(all_fsms@, context_struct_map@, g),
                m@,
                x.found(),
            ),
    ensures
        forall|g: spec_fn(Seq<char>) -> Seq<char>| #[trigger]
            resolves(*resolve_type, g) ==> r@ == machines_named(
                surroundings(all_fsms@, context_struct_map@, g),
                m@,
                x.found(),
            ),
        r.wf(),
{
    let context: Option<(String, &NameMap<String>)> = find_context(
        m,
        all_fsms,
        context_struct_map,
        resolve_type,
    );
    name_in_context(m, x, &context, all_fsms, context_struct_map, resolve_type)
}

/// Where there is no struct there are no fields.
proof fn lemma_no_struct(
    s: Surroundings,
    context: Seq<char>,
    fields: Seq<Seq<char>>,
    names: Seq<Seq<char>>,
)
    requires
        !s.structs.dom().contains(context),
    ensures
        with_fields(s, context, fields, names) == names,
    decreases fields.len(),
{
    if fields.len() > 0 {
        lemma_no_struct(s, context, fields.drop_last(), names);
    }
}

/// No machine runs more than `depth` levels below `m`.
pub open spec fn nests_within(s: Surroundings, m: FsmView, depth: nat) -> bool
    decreases depth,
{
    forall|i: int, k: int|
        0 <= i < m.states.len() && 0 <= k < state_machines(s, m, m.states[i]).len()
            && s.fsms.dom().contains(#[trigger] state_machines(s, m, m.states[i])[k]) ==> depth > 0
            && nests_within(
            s,
            s.fsms[state_machines(s, m, m.states[i])[k]],
            (depth - 1) as nat,
        )
}

/// The nesting of machines below `m` comes to an end: no machine runs below itself.
pub open spec fn nests(s: Surroundings, m: FsmView) -> bool {
    exists|depth: nat| nests_within(s, m, depth)
}

/// What nests within some depth nests within any greater one.
pub proof fn lemma_nests_deeper(s: Surroundings, m: FsmView, depth: nat, more: nat)
    requires
        nests_within(s, m, depth),
        depth <= more,
    ensures
        nests_within(s, m, more),
    decreases depth,
{
    assert forall|i: int, k: int|
        0 <= i < m.states.len() && 0 <= k < state_machines(s, m, m.states[i]).len()
            && s.fsms.dom().contains(#[trigger] state_machines(s, m, m.states[i])[k]) implies more
        > 0 && nests_within(
        s,
        s.fsms[state_machines(s, m, m.states[i])[k]],
        (more - 1) as nat,
    ) by {
        let name = state_machines(s, m, m.states[i])[k];
        assert(nests_within(s, s.fsms[name], (depth - 1) as nat));
        lemma_nests_deeper(s, s.fsms[name], (depth - 1) as nat, (more - 1) as nat);
    }
}

/// The least depth that `m` nests within.
proof fn lemma_least_depth(s: Surroundings, m: FsmView, depth: nat) -> (least: nat)
    requires
        nests_within(s, m, depth),
    ensures
        nests_within(s, m, least),
        least <= depth,
        least > 0 ==> !nests_within(s, m, (least - 1) as nat),
    decreases depth,
{
    if depth > 0 && nests_within(s, m, (depth - 1) as nat) {
        lemma_least_depth(s, m, (depth - 1) as nat)
    } else {
        depth
    }
}

/// A machine below `m` whose least depth is one less than the least depth of `m`.
proof fn lemma_deepest_below(s: Surroundings, m: FsmView, depth: nat) -> (name: Seq<char>)
    requires
        depth > 0,
        nests_within(s, m, depth),
        !nests_within(s, m, (depth - 1) as nat),
    ensures
        s.fsms.dom().contains(name),
        nests_within(s, s.fsms[name], (depth - 1) as nat),
        depth > 1 ==> !nests_within(s, s.fsms[name], (depth - 2) as nat),
{
    let less = (depth - 1) as nat;
    let (i, k) = choose|i: int, k: int|
        0 <= i < m.states.len() && 0 <= k < state_machines(s, m, m.states[i]).len()
            && s.fsms.dom().contains(#[trigger] state_machines(s, m, m.states[i])[k]) && !(less > 0
            && nests_within(
            s,
            s.fsms[state_machines(s, m, m.states[i])[k]],
            (less - 1) as nat,
        ));
    state_machines(s, m, m.states[i])[k]
}

/// One machine for each level below a machine, all of them different.
proof fn lemma_levels(s: Surroundings, name: Seq<char>, depth: nat) -> (names: Set<Seq<char>>)
    requires
        s.fsms.dom().contains(name),
        nests_within(s, s.fsms[name], depth),
        depth > 0 ==> !nests_within(s, s.fsms[name], (depth - 1) as nat),
    ensures
        names.finite(),
        names.len() == depth + 1,
        names.subset_of(s.fsms.dom()),
        forall|n: Seq<char>| #[trigger] names.contains(n) ==> nests_within(s, s.fsms[n], depth),
    decreases depth,
{
    if depth == 0 {
        Set::empty().insert(name)
    } else {
        let below = lemma_deepest_below(s, s.fsms[name], depth);
        let names = lemma_levels(s, below, (depth - 1) as nat);
        assert(!names.contains(name));
        assert forall|n: Seq<char>| #[trigger] names.insert(name).contains(n) implies nests_within(
            s,
            s.fsms[n],
            depth,
        ) by {
            if n != name {
                lemma_nests_deeper(s, s.fsms[n], (depth - 1) as nat, depth);
            }
        }
        names.insert(name)
    }
}

/// If the nesting below `m` comes to an end, it does so after as many levels as there are
/// machines.
pub proof fn lemma_nests_within_all(s: Surroundings, m: FsmView)
    requires
        s.fsms.dom().finite(),
        nests(s, m),
    ensures
        nests_within(s, m, s.fsms.dom().len()),
{
    let some = choose|depth: nat| nests_within(s, m, depth);
    let least = lemma_least_depth(s, m, some);
    if least > 0 {
        let below = lemma_deepest_below(s, m, least);
        let names = lemma_levels(s, below, (least - 1) as nat);
        lemma_len_subset(names, s.fsms.dom());
    }
    lemma_nests_deeper(s, m, least, s.fsms.dom().len());
}

/// There are as many machines as there are names for them, at most.
pub proof fn lemma_machine_count(all_fsms: &NameMap<&FsmDefinition>)
    ensures
        fsm_views(all_fsms@).dom().finite(),
        fsm_views(all_fsms@).dom().len() <= all_fsms.names().len(),
{
    all_fsms.lemma_names();
    let names = all_fsms.names();
    assert(fsm_views(all_fsms@).dom() =~= names.to_set()) by {
        assert forall|k: Seq<char>| fsm_views(all_fsms@).dom().contains(k)
            <==> names.to_set().contains(k) by {
            assert(all_fsms@.dom().contains(k) <==> names.contains(k));
        }
    }
    seq_to_set_is_finite(names);
    names.lemma_cardinality_of_set();
}

/// The first `n` of `names` nest within `depth` below a machine that runs them.
pub open spec fn names_nest(s: Surroundings, names: Seq<Seq<char>>, n: int, depth: nat) -> bool {
    forall|k: int|
        0 <= k < n && s.fsms.dom().contains(#[trigger] names[k]) ==> depth > 0 && nests_within(
            s,
            s.fsms[names[k]],
            (depth - 1) as nat,
        )
}

/// The machines that the first `n` states of `m` name nest within `depth` below `m`.
pub open spec fn states_nest(s: Surroundings, m: FsmView, n: int, depth: nat) -> bool {
    forall|i: int, k: int|
        0 <= i < n && 0 <= k < state_machines(s, m, m.states[i]).len() && s.fsms.dom().contains(
            #[trigger] state_machines(s, m, m.states[i])[k],
        ) ==> depth > 0 && nests_within(
            s,
            s.fsms[state_machines(s, m, m.states[i])[k]],
            (depth - 1) as nat,
        )
}

/// Whether no machine runs more than `depth` levels below `m`. The ghost argument says what
/// `resolve_type` answers.
fn nests_in<F: Fn(&str) -> String>(
    m: &FsmDefinition,
    all_fsms: &NameMap<&FsmDefinition>,
    context_struct_map: &NameMap<NameMap<String>>,
    resolve_type: &F,
    depth: usize,
    Ghost(h): Ghost<spec_fn(Seq<char>) -> Seq<char>>,
) -> (r: bool)
    requires
        resolves(*resolve_type, h),
        answers_below(*resolve_type, surroundings(all_fsms@, context_struct_map@, h), m@),
        fsm_fits(m@),
        all_fit(fsm_views(all_fsms@)),
    ensures
        forall|g: spec_fn(Seq<char>) -> Seq<char>| #[trigger]
            resolves(*resolve_type, g) ==> r == nests_within(
                surroundings(all_fsms@, context_struct_map@, g),
                m@,
                depth as nat,
            ),
    decreases depth,
{
    let ghost mv = m@;
    let context: Option<(String, &NameMap<String>)> = find_context(
        m,
        all_fsms,
        context_struct_map,
        resolve_type,
    );
    let mut i: usize = 0;
    while i < m.states.len()
        invariant
            mv == m@,
            resolves(*resolve_type, h),
            answers_below(
                *resolve_type,
                surroundings(all_fsms@, context_struct_map@, h),
                mv,
            ),
            fsm_fits(m@),
            all_fit(fsm_views(all_fsms@)),
            i <= m.states@.len(),
            forall|g: spec_fn(Seq<char>) -> Seq<char>| #[trigger]
                resolves(*resolve_type, g) ==> is_context_struct(
                    context,
                    surroundings(all_fsms@, context_struct_map@, g),
                    m@,
                ),
            forall|g: spec_fn(Seq<char>) -> Seq<char>| #[trigger]
                resolves(*resolve_type, g) ==> states_nest(
                    surroundings(all_fsms@, context_struct_map@, g),
                    mv,
                    i as int,
                    depth as nat,
                ),
        decreases m.states@.len() - i,
    {
        let mut x: SubFsmExtractor = SubFsmExtractor::new(m.name.clone());
        assert(mv.states[i as int] == m.states@[i as int]@);
        discover_state(&mut x, &m.states[i]);
        assert(answers_in(
            *resolve_type,
            surroundings(all_fsms@, context_struct_map@, h),
            mv,
            mv.states[i as int],
        ));
        let names: NameSet = name_in_context(
            m,
            &x,
            &context,
            all_fsms,
            context_struct_map,
            resolve_type,
        );
        let mut k: usize = 0;
        while k < names.len()
            invariant
                mv == m@,
                resolves(*resolve_type, h),
                answers_below(
                    *resolve_type,
                    surroundings(all_fsms@, context_struct_map@, h),
                    mv,
                ),
                all_fit(fsm_views(all_fsms@)),
                i < m.states@.len(),
                k <= names@.len(),
                forall|g: spec_fn(Seq<char>) -> Seq<char>| #[trigger]
                    resolves(*resolve_type, g) ==> {
                        let s = surroundings(all_fsms@, context_struct_map@, g);
                        &&& names@ == state_machines(s, mv, mv.states[i as int])
                        &&& names_nest(s, names@, k as int, depth as nat)
                    },
            decreases names@.len() - k,
        {
            match all_fsms.get(names.get(k).as_str()) {
                Some(sub) => {
                    assert(fsm_views(all_fsms@).dom().contains(names@[k as int]));
                    proof {
                        lemma_answers_go_down(
                            *resolve_type,
                            surroundings(all_fsms@, context_struct_map@, h),
                            mv,
                            i as int,
                            names@[k as int],
                        );
                    }
                    if depth == 0 || !nests_in(
                        sub,
                        all_fsms,
                        context_struct_map,
                        resolve_type,
                        depth - 1,
                        Ghost(h),
                    ) {
                        proof {
                            assert forall|g: spec_fn(Seq<char>) -> Seq<char>| #[trigger]
                                resolves(*resolve_type, g) implies !nests_within(
                                surroundings(all_fsms@, context_struct_map@, g),
                                m@,
                                depth as nat,
                            ) by {
                                let s = surroundings(all_fsms@, context_struct_map@, g);
                                assert(state_machines(s, mv, mv.states[i as int])[k as int]
                                    == names@[k as int]);
                            }
                        }
                        return false;
                    }
                },
                None => {},
            }
            k = k + 1;
        }
        i = i + 1;
    }
    true
}

/// Whether the nesting of machines below `m` comes to an end.
pub fn nests_finitely<F: Fn(&str) -> String>(
    m: &FsmDefinition,
    all_fsms: &NameMap<&FsmDefinition>,
    context_struct_map: &NameMap<NameMap<String>>,
    resolve_type: &F,
) -> (r: bool)
    requires
        exists|g: spec_fn(Seq<char>) -> Seq<char>| #[trigger]
            resolves(*resolve_type, g) && answers_below(
                *resolve_type,
                surroundings(all_fsms@, context_struct_map@, g),
                m@,
            ),
        fsm_fits(m@),
        all_fit(fsm_views(all_fsms@)),
    ensures
        forall|g: spec_fn(Seq<char>) -> Seq<char>| #[trigger]
            resolves(*resolve_type, g) ==> r == nests(
                surroundings(all_fsms@, context_struct_map@, g),
                m@,
            ),
{
    let ghost h = choose|g: spec_fn(Seq<char>) -> Seq<char>| #[trigger]
        resolves(*resolve_type, g) && answers_below(
            *resolve_type,
            surroundings(all_fsms@, context_struct_map@, g),
            m@,
        );
    let r: bool = nests_in(
        m,
        all_fsms,
        context_struct_map,
        resolve_type,
        all_fsms.len(),
        Ghost(h),
    );
    proof {
        lemma_machine_count(all_fsms);
        assert forall|g: spec_fn(Seq<char>) -> Seq<char>| #[trigger]
            resolves(*resolve_type, g) implies r == nests(
            surroundings(all_fsms@, context_struct_map@, g),
            m@,
        ) by {
            let s = surroundings(all_fsms@, context_struct_map@, g);
            if nests(s, m@) {
                lemma_nests_within_all(s, m@);
                lemma_nests_deeper(s, m@, s.fsms.dom().len(), all_fsms.names().len());
            }
        }
    }
    r
}

} // verus!
