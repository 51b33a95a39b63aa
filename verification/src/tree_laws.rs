//! What is found in a source tree, and which files are written for it.
use vstd::prelude::*;

use crate::config::{BreakdownMode, DiagramMode};
use crate::diagram::{hierarchical_diagram, simple_diagram};
use crate::macro_body::call_fsm;
use crate::model::FsmView;
use crate::names::NameMap;
use crate::nesting::{nests, Surroundings};
use crate::output::{
    breakdown_files, breakdown_plan, law_breakdown_files, machine_file, planned_files, root_files,
    shows_one_below, tree_output, FileView, Look,
};
use crate::positions::{lemma_unspaced, unspaced};
use crate::reach::reachable;
use crate::source::{gathered, mentions_of, ItemView};
use crate::workspace::{by_name, field_table, root_fsms, roots_among, tree_surroundings, FinderView};

verus! {

/// The machine that an item writes down, if it is the call of a state machine.
pub open spec fn machine_in(item: ItemView) -> Seq<FsmView> {
    match item {
        ItemView::Macro(path, call) => if path == "state_machine"@ && call_fsm(call) is Some {
            seq![call_fsm(call)->0]
        } else {
            Seq::empty()
        },
        _ => Seq::empty(),
    }
}

/// The machines that `items` write down, one after the other.
pub open spec fn machines_in(items: Seq<ItemView>) -> Seq<FsmView>
    decreases items.len(),
{
    if items.len() == 0 {
        Seq::empty()
    } else {
        machine_in(items[0]) + machines_in(items.drop_first())
    }
}

proof fn lemma_machines_in(items: Seq<ItemView>)
    requires
        items.len() > 0,
    ensures
        machines_in(items) == machines_in(items.drop_last()) + machine_in(items.last()),
    decreases items.len(),
{
    if items.len() == 1 {
        assert(items.drop_first() =~= Seq::empty());
        assert(items.drop_last() =~= Seq::empty());
        assert(machines_in(items.drop_first()) =~= Seq::empty());
        assert(machines_in(items.drop_last()) =~= Seq::empty());
        assert(machines_in(items) =~= machine_in(items.last()));
        assert(machines_in(items.drop_last()) + machine_in(items.last()) =~= machine_in(
            items.last(),
        ));
    } else {
        let rest = items.drop_first();
        lemma_machines_in(rest);
        assert(rest.drop_last() =~= items.drop_last().drop_first());
        assert(rest.last() == items.last());
        assert(items.drop_last()[0] == items[0]);
        let a = machine_in(items[0]);
        let b = machines_in(rest.drop_last());
        let c = machine_in(items.last());
        assert(a + (b + c) =~= (a + b) + c);
    }
}

/// All state machines that stand in a file are found, in their order, behind those that were
/// found before.
pub proof fn law_machines_gathered(f: FinderView, items: Seq<ItemView>)
    ensures
        gathered(f, items).fsms == f.fsms + machines_in(items),
    decreases items.len(),
{
    if items.len() == 0 {
        assert(f.fsms + machines_in(items) =~= f.fsms);
    } else {
        law_machines_gathered(f, items.drop_last());
        lemma_machines_in(items);
        let before = gathered(f, items.drop_last()).fsms;
        assert(gathered(f, items).fsms =~= before + machine_in(items.last()));
        assert((f.fsms + machines_in(items.drop_last())) + machine_in(items.last()) =~= f.fsms + (
        machines_in(items.drop_last()) + machine_in(items.last())));
    }
}

/// The item at `i` is the last struct that is called `name`.
pub open spec fn is_last_struct(items: Seq<ItemView>, name: Seq<char>, i: int) -> bool {
    &&& 0 <= i < items.len()
    &&& items[i] matches ItemView::Struct(n, _) && n == name
    &&& forall|j: int|
        i < j < items.len() ==> !(#[trigger] items[j] matches ItemView::Struct(n, _) && n == name)
}

/// No struct among `items` is called `name`.
pub open spec fn no_struct(items: Seq<ItemView>, name: Seq<char>) -> bool {
    forall|j: int|
        0 <= j < items.len() ==> !(#[trigger] items[j] matches ItemView::Struct(n, _) && n
            == name)
}

/// The field at `i` is the last one that is called `name`.
pub open spec fn is_last_field(
    fields: Seq<(Seq<char>, Seq<char>)>,
    name: Seq<char>,
    i: int,
) -> bool {
    &&& 0 <= i < fields.len()
    &&& fields[i].0 == name
    &&& forall|j: int| i < j < fields.len() ==> (#[trigger] fields[j]).0 != name
}

proof fn lemma_table(fields: Seq<(Seq<char>, Seq<char>)>, name: Seq<char>)
    ensures
        forall|i: int| #[trigger]
            is_last_field(fields, name, i) ==> field_table(fields).dom().contains(name)
                && field_table(fields)[name] == unspaced(fields[i].1),
        (forall|j: int| 0 <= j < fields.len() ==> (#[trigger] fields[j]).0 != name)
            ==> !field_table(fields).dom().contains(name),
    decreases fields.len(),
{
    if fields.len() > 0 {
        let rest = fields.drop_last();
        lemma_table(rest, name);
        lemma_unspaced(fields.last().1);
        assert(fields[fields.len() - 1] == fields.last());
        assert forall|j: int| 0 <= j < rest.len() implies #[trigger] rest[j] == fields[j] by {}
        assert forall|i: int| #[trigger] is_last_field(fields, name, i) implies field_table(
            fields,
        ).dom().contains(name) && field_table(fields)[name] == unspaced(fields[i].1) by {
            if i < rest.len() {
                assert(fields.last().0 != name);
                assert(is_last_field(rest, name, i));
            }
        }
        if forall|j: int| 0 <= j < fields.len() ==> (#[trigger] fields[j]).0 != name {
            assert forall|j: int| 0 <= j < rest.len() implies (#[trigger] rest[j]).0 != name by {
                assert(fields[j].0 != name);
            }
            assert(fields[fields.len() - 1].0 != name);
        }
    }
}

/// Of each struct that stands in a file the fields are known, with their types without spaces.
/// Where two have one name, the last one counts, and likewise with fields.
pub proof fn law_structs_gathered(
    f: FinderView,
    items: Seq<ItemView>,
    name: Seq<char>,
    i: int,
    field: Seq<char>,
    k: int,
)
    requires
        is_last_struct(items, name, i),
        is_last_field(items[i]->Struct_1, field, k),
    ensures
        gathered(f, items).structs.dom().contains(name),
        gathered(f, items).structs[name].dom().contains(field),
        gathered(f, items).structs[name][field] == unspaced(items[i]->Struct_1[k].1),
    decreases items.len(),
{
    let rest = items.drop_last();
    if i < rest.len() {
        assert(rest[i] == items[i]);
        assert forall|j: int| i < j < rest.len() implies !(
        #[trigger] rest[j] matches ItemView::Struct(n, _) && n == name) by {
            assert(rest[j] == items[j]);
        }
        law_structs_gathered(f, rest, name, i, field, k);
        assert(items[items.len() - 1] == items.last());
    } else {
        lemma_table(items[i]->Struct_1, field);
    }
}

/// A struct that stands in no file is not known, but from before.
pub proof fn law_no_struct_gathered(f: FinderView, items: Seq<ItemView>, name: Seq<char>)
    requires
        no_struct(items, name),
    ensures
        gathered(f, items).structs.dom().contains(name) <==> f.structs.dom().contains(name),
        f.structs.dom().contains(name) ==> gathered(f, items).structs[name] == f.structs[name],
    decreases items.len(),
{
    if items.len() > 0 {
        let rest = items.drop_last();
        assert forall|j: int| 0 <= j < rest.len() implies !(
        #[trigger] rest[j] matches ItemView::Struct(n, _) && n == name) by {
            assert(rest[j] == items[j]);
        }
        law_no_struct_gathered(f, rest, name);
        assert(items[items.len() - 1] == items.last());
    }
}

/// The item is a function or a method that is called `name`.
pub open spec fn is_function(item: ItemView, name: Seq<char>) -> bool {
    match item {
        ItemView::Function(n, _) => n == name,
        ItemView::Method(n, _) => n == name,
        _ => false,
    }
}

/// The paths that a function or a method mentions.
pub open spec fn paths_in(item: ItemView) -> Seq<(int, Seq<char>)> {
    match item {
        ItemView::Function(_, paths) => paths,
        ItemView::Method(_, paths) => paths,
        _ => Seq::empty(),
    }
}

/// The item at `i` is the last function or method that is called `name`.
pub open spec fn is_last_function(items: Seq<ItemView>, name: Seq<char>, i: int) -> bool {
    &&& 0 <= i < items.len()
    &&& is_function(items[i], name)
    &&& forall|j: int| i < j < items.len() ==> !is_function(#[trigger] items[j], name)
}

proof fn lemma_mentions(paths: Seq<(int, Seq<char>)>, x: Seq<char>)
    ensures
        mentions_of(paths).contains(x) <==> exists|k: int|
            0 <= k < paths.len() && (#[trigger] paths[k]).0 >= 2 && unspaced(paths[k].1) == x,
    decreases paths.len(),
{
    if paths.len() > 0 {
        let rest = paths.drop_last();
        let n = rest.len() as int;
        lemma_mentions(rest, x);
        lemma_unspaced(paths.last().1);
        let before = mentions_of(rest);
        let name = unspaced(paths.last().1);
        assert(paths[n] == paths.last());
        assert forall|k: int| 0 <= k < n implies #[trigger] paths[k] == rest[k] by {}
        if paths.last().0 >= 2 && !before.contains(name) {
            let now = before.push(name);
            assert(now[before.len() as int] == name);
            if before.contains(x) {
                assert(now[before.index_of(x)] == x);
            }
        }
        if exists|k: int|
            0 <= k < n && (#[trigger] rest[k]).0 >= 2 && unspaced(rest[k].1) == x {
            let k = choose|k: int|
                0 <= k < n && (#[trigger] rest[k]).0 >= 2 && unspaced(rest[k].1) == x;
            assert(paths[k].0 >= 2);
        }
        if exists|k: int|
            0 <= k < paths.len() && (#[trigger] paths[k]).0 >= 2 && unspaced(paths[k].1) == x {
            let k = choose|k: int|
                0 <= k < paths.len() && (#[trigger] paths[k]).0 >= 2 && unspaced(paths[k].1) == x;
            if k < n {
                assert(rest[k].0 >= 2);
            }
        }
    }
}

/// Of each function and each method that stands in a file the paths that it mentions are
/// known, without spaces, as far as they name something inside something else. Where two have
/// one name, the last one counts.
pub proof fn law_functions_gathered(
    f: FinderView,
    items: Seq<ItemView>,
    name: Seq<char>,
    i: int,
    x: Seq<char>,
)
    requires
        is_last_function(items, name, i),
    ensures
        gathered(f, items).functions.dom().contains(name),
        gathered(f, items).functions[name].contains(x) <==> exists|k: int|
            0 <= k < paths_in(items[i]).len() && (#[trigger] paths_in(items[i])[k]).0 >= 2
                && unspaced(paths_in(items[i])[k].1) == x,
    decreases items.len(),
{
    let rest = items.drop_last();
    if i < rest.len() {
        assert(rest[i] == items[i]);
        assert forall|j: int| i < j < rest.len() implies !is_function(
            #[trigger] rest[j],
            name,
        ) by {
            assert(rest[j] == items[j]);
        }
        law_functions_gathered(f, rest, name, i, x);
        assert(items[items.len() - 1] == items.last());
    } else {
        lemma_mentions(paths_in(items[i]), x);
    }
}

/// The machine at `i` is the last one that is called `name`.
pub open spec fn is_last_machine(fsms: Seq<FsmView>, name: Seq<char>, i: int) -> bool {
    &&& 0 <= i < fsms.len()
    &&& fsms[i].name == name
    &&& forall|j: int| i < j < fsms.len() ==> (#[trigger] fsms[j]).name != name
}

/// A name stands for the last machine that has it, and for none where no machine has it.
pub proof fn law_machine_by_name(fsms: Seq<FsmView>, name: Seq<char>)
    ensures
        by_name(fsms).dom().contains(name) <==> exists|i: int| #[trigger]
            is_last_machine(fsms, name, i),
        forall|i: int| #[trigger]
            is_last_machine(fsms, name, i) ==> by_name(fsms)[name] == fsms[i],
    decreases fsms.len(),
{
    if fsms.len() > 0 {
        let rest = fsms.drop_last();
        let n = rest.len() as int;
        law_machine_by_name(rest, name);
        assert(fsms[n] == fsms.last());
        assert forall|j: int| 0 <= j < n implies #[trigger] rest[j] == fsms[j] by {}
        assert forall|i: int| #[trigger] is_last_machine(fsms, name, i) implies by_name(
            fsms,
        ).dom().contains(name) && by_name(fsms)[name] == fsms[i] by {
            if i < n {
                assert(fsms[n].name != name);
                assert(is_last_machine(rest, name, i));
            }
        }
        if by_name(fsms).dom().contains(name) {
            if fsms.last().name == name {
                assert(is_last_machine(fsms, name, n));
            } else {
                let i = choose|i: int| #[trigger] is_last_machine(rest, name, i);
                assert forall|j: int| i < j < fsms.len() implies (#[trigger] fsms[j]).name
                    != name by {
                    if j < n {
                        assert(rest[j].name != name);
                    }
                }
                assert(is_last_machine(fsms, name, i));
            }
        }
    }
}

/// The roots stand in the order of the machines.
pub proof fn law_roots_in_order(
    s: Surroundings,
    all: Seq<FsmView>,
    a: Seq<FsmView>,
    b: Seq<FsmView>,
)
    ensures
        roots_among(s, all, a + b) == roots_among(s, all, a) + roots_among(s, all, b),
    decreases b.len(),
{
    if b.len() == 0 {
        assert(a + b =~= a);
        assert(roots_among(s, all, a) + roots_among(s, all, b) =~= roots_among(s, all, a));
    } else {
        assert((a + b).drop_last() =~= a + b.drop_last());
        assert((a + b).last() == b.last());
        law_roots_in_order(s, all, a, b.drop_last());
        let x = roots_among(s, all, a);
        assert(roots_among(s, all, a + b) =~= x + roots_among(s, all, b));
    }
}

/// The file `f` in `folder` shows the machine `x`, with the machines inside it or without them.
pub open spec fn file_shows(
    s: Surroundings,
    f: FileView,
    folder: Seq<char>,
    nested: bool,
    look: Look,
    x: Seq<char>,
) -> bool {
    &&& f.folder == Some(folder)
    &&& f.name == x + ".mermaid"@
    &&& f.diagram == if nested {
        hierarchical_diagram(s, s.fsms[x], look.guards, look.mentions)
    } else {
        simple_diagram(s.fsms[x], look.guards, look.mentions)
    }
}

/// Where the diagrams of a breakdown of this kind go, flat or nested.
pub open spec fn breakdown_goes(mode: BreakdownMode, nested: bool, folder: Seq<char>) -> bool {
    match mode {
        BreakdownMode::Off => false,
        BreakdownMode::Flat => !nested && folder == "breakdown"@,
        BreakdownMode::Nested => nested && folder == "breakdown"@,
        BreakdownMode::Both => if nested {
            folder == "breakdown_nested"@
        } else {
            folder == "breakdown_flat"@
        },
    }
}

proof fn lemma_planned(
    s: Surroundings,
    m: FsmView,
    plan: Seq<(Seq<char>, bool)>,
    look: Look,
    j: int,
    f: FileView,
)
    requires
        0 <= j < plan.len(),
        breakdown_files(s, m, plan[j].0, plan[j].1, look).contains(f),
    ensures
        planned_files(s, m, plan, look).contains(f),
    decreases plan.len(),
{
    let rest = plan.drop_last();
    let before = planned_files(s, m, rest, look);
    let all = planned_files(s, m, plan, look);
    if j < rest.len() {
        assert(rest[j] == plan[j]);
        lemma_planned(s, m, rest, look, j, f);
        assert(all[before.index_of(f)] == f);
    } else {
        let last = breakdown_files(s, m, plan.last().0, plan.last().1, look);
        assert(all[before.len() + last.index_of(f)] == f);
    }
}

proof fn lemma_planned_from(
    s: Surroundings,
    m: FsmView,
    plan: Seq<(Seq<char>, bool)>,
    look: Look,
    k: int,
) -> (j: int)
    requires
        0 <= k < planned_files(s, m, plan, look).len(),
    ensures
        0 <= j < plan.len(),
        breakdown_files(s, m, plan[j].0, plan[j].1, look).contains(
            planned_files(s, m, plan, look)[k],
        ),
    decreases plan.len(),
{
    let rest = plan.drop_last();
    let before = planned_files(s, m, rest, look);
    if k < before.len() {
        let j = lemma_planned_from(s, m, rest, look, k);
        assert(rest[j] == plan[j]);
        j
    } else {
        let last = breakdown_files(s, m, plan.last().0, plan.last().1, look);
        assert(last[k - before.len()] == planned_files(s, m, plan, look)[k]);
        plan.len() - 1
    }
}

proof fn lemma_plan(mode: BreakdownMode, nested: bool, folder: Seq<char>)
    ensures
        breakdown_goes(mode, nested, folder) <==> exists|j: int|
            0 <= j < breakdown_plan(mode).len() && #[trigger] breakdown_plan(mode)[j] == (
                folder,
                nested,
            ),
{
    let plan = breakdown_plan(mode);
    match mode {
        BreakdownMode::Off => {},
        BreakdownMode::Flat => {
            assert(plan[0] == ("breakdown"@, false));
        },
        BreakdownMode::Nested => {
            assert(plan[0] == ("breakdown"@, true));
        },
        BreakdownMode::Both => {
            assert(plan[0] == ("breakdown_flat"@, false));
            assert(plan[1] == ("breakdown_nested"@, true));
        },
    }
}

/// The first file for a root machine stands in its own folder, has its name, and shows it in
/// the way that is asked for.
pub proof fn law_root_has_a_file(
    s: Surroundings,
    m: FsmView,
    mode: DiagramMode,
    breakdown: BreakdownMode,
    look: Look,
)
    ensures
        root_files(s, m, mode, breakdown, look).len() >= 1,
        ({
            let f = root_files(s, m, mode, breakdown, look)[0];
            &&& f.folder is None
            &&& f.name == m.name + ".mermaid"@
            &&& f.diagram == match mode {
                DiagramMode::Simple => simple_diagram(m, look.guards, look.mentions),
                DiagramMode::Hierarchical => hierarchical_diagram(
                    s,
                    m,
                    look.guards,
                    look.mentions,
                ),
            }
        }),
        breakdown == BreakdownMode::Off ==> root_files(s, m, mode, breakdown, look).len() == 1,
{
    if breakdown == BreakdownMode::Off {
        assert(breakdown_plan(breakdown).len() == 0);
    }
}

/// For each machine below a root there is a file in each folder of the breakdown that is asked
/// for, flat, nested or both.
pub proof fn law_machines_have_files(
    s: Surroundings,
    m: FsmView,
    mode: DiagramMode,
    breakdown: BreakdownMode,
    look: Look,
    nested: bool,
    folder: Seq<char>,
    x: Seq<char>,
)
    requires
        s.fsms.dom().finite(),
        reachable(s, m, x),
        breakdown_goes(breakdown, nested, folder),
    ensures
        exists|f: FileView|
            root_files(s, m, mode, breakdown, look).contains(f) && #[trigger] file_shows(
                s,
                f,
                folder,
                nested,
                look,
                x,
            ),
{
    lemma_plan(breakdown, nested, folder);
    let plan = breakdown_plan(breakdown);
    let j = choose|j: int| 0 <= j < plan.len() && #[trigger] plan[j] == (folder, nested);
    law_breakdown_files(s, m, folder, nested, look);
    let f = machine_file(s, folder, nested, look, x);
    lemma_planned(s, m, plan, look, j, f);
    let more = planned_files(s, m, plan, look);
    let all = root_files(s, m, mode, breakdown, look);
    let k = 1 + more.index_of(f);
    assert(0 <= k < all.len() && all[k] == f);
    assert(all.contains(f));
    assert(file_shows(s, f, folder, nested, look, x));
}

/// Every other file for a root machine shows a machine below it, in a folder of the breakdown
/// that is asked for.
pub proof fn law_files_show_machines(
    s: Surroundings,
    m: FsmView,
    mode: DiagramMode,
    breakdown: BreakdownMode,
    look: Look,
    k: int,
)
    requires
        s.fsms.dom().finite(),
        1 <= k < root_files(s, m, mode, breakdown, look).len(),
    ensures
        exists|nested: bool, folder: Seq<char>, x: Seq<char>|
            reachable(s, m, x) && breakdown_goes(breakdown, nested, folder)
                && #[trigger] file_shows(
                s,
                root_files(s, m, mode, breakdown, look)[k],
                folder,
                nested,
                look,
                x,
            ),
{
    let plan = breakdown_plan(breakdown);
    let all = root_files(s, m, mode, breakdown, look);
    let j = lemma_planned_from(s, m, plan, look, k - 1);
    let (folder, nested) = plan[j];
    assert(plan[j] == (folder, nested));
    lemma_plan(breakdown, nested, folder);
    law_breakdown_files(s, m, folder, nested, look);
    let files = breakdown_files(s, m, folder, nested, look);
    let f = all[k];
    let i = files.index_of(f);
    assert(shows_one_below(s, m, folder, nested, look, files[i]));
    let x = choose|x: Seq<char>|
        reachable(s, m, x) && f == #[trigger] machine_file(s, folder, nested, look, x);
    assert(file_shows(s, f, folder, nested, look, x));
}

/// Nested diagrams are asked for.
pub open spec fn asks_nested(mode: DiagramMode, breakdown: BreakdownMode) -> bool {
    ||| mode == DiagramMode::Hierarchical
    ||| breakdown == BreakdownMode::Nested
    ||| breakdown == BreakdownMode::Both
}

/// Each root is drawn, in the order of the roots, under its own name. It has its files, unless
/// nested diagrams are asked for and a machine runs inside itself.
pub proof fn law_roots_are_drawn(
    fsms: Seq<FsmView>,
    structs: Map<Seq<char>, NameMap<String>>,
    mode: DiagramMode,
    breakdown: BreakdownMode,
    look: Look,
    i: int,
)
    requires
        0 <= i < root_fsms(fsms, structs).len(),
    ensures
        tree_output(fsms, structs, mode, breakdown, look).len() == root_fsms(fsms, structs).len(),
        ({
            let s = tree_surroundings(fsms, structs);
            let m = root_fsms(fsms, structs)[i];
            let r = tree_output(fsms, structs, mode, breakdown, look)[i];
            &&& r.name == m.name
            &&& r.files is None <==> asks_nested(mode, breakdown) && !nests(s, m)
            &&& r.files matches Some(files) ==> files == root_files(s, m, mode, breakdown, look)
        }),
{
}

} // verus!
