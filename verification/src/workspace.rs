//! What a source tree holds: state machines, structs, and functions with the states that
//! they mention.
use vstd::prelude::*;

use crate::fence::parsable;
use crate::macro_body::{call_fsm, parse_macro_call};
use crate::model::{field_views, fsm_fits, FsmDefinition, FsmView};
use crate::names::{with_name, NameMap, NameSet};
use crate::nesting::{all_fit, fsm_machines, fsm_views, Surroundings};
use crate::reach::{as_is, machines_of, plainly};
use crate::text::{replace_all, replaced, same};

verus! {

/// What several machines say.
pub open spec fn machine_views(fsms: Seq<FsmDefinition>) -> Seq<FsmView> {
    fsms.map_values(|m: FsmDefinition| m@)
}

/// What several machines say that stand elsewhere.
pub open spec fn machine_ref_views(fsms: Seq<&FsmDefinition>) -> Seq<FsmView> {
    fsms.map_values(|m: &FsmDefinition| m@)
}

/// `fsms` with the machine that the macro call `call` of the macro `path` writes down, if it
/// writes one down.
pub open spec fn with_macro(
    fsms: Seq<FsmView>,
    path: Seq<char>,
    call: Seq<char>,
) -> Seq<FsmView> {
    if path == "state_machine"@ {
        match call_fsm(call) {
            Some(m) => fsms.push(m),
            None => fsms,
        }
    } else {
        fsms
    }
}

/// The types of the fields of a struct, without spaces. Where two fields have one name, it
/// is that of the last one.
pub open spec fn field_table(fields: Seq<(Seq<char>, Seq<char>)>) -> Map<Seq<char>, Seq<char>>
    decreases fields.len(),
{
    if fields.len() == 0 {
        Map::empty()
    } else {
        field_table(fields.drop_last()).insert(
            fields.last().0,
            replaced(fields.last().1, " "@, ""@),
        )
    }
}

/// What a table of types says.
pub open spec fn table_view(table: Map<Seq<char>, String>) -> Map<Seq<char>, Seq<char>> {
    Map::new(|k: Seq<char>| table.dom().contains(k), |k: Seq<char>| table[k]@)
}

/// `mentions` with the path `path` of `segments` segments, if it names something inside
/// something else.
pub open spec fn with_path(
    mentions: Seq<Seq<char>>,
    segments: int,
    path: Seq<char>,
) -> Seq<Seq<char>> {
    if segments >= 2 {
        with_name(mentions, replaced(path, " "@, ""@))
    } else {
        mentions
    }
}

/// Gathers the paths that a function mentions.
#[derive(Debug)]
pub struct MentionVisitor {
    pub mentions: NameSet,
}

impl MentionVisitor {
    /// A visitor that has seen no path yet.
    pub fn new() -> (r: Self)
        ensures
            r.mentions@ == Seq::<Seq<char>>::empty(),
            r.mentions.wf(),
    {
        MentionVisitor { mentions: NameSet::new() }
    }

    /// Sees a path of `segments` segments with the text `path`.
    pub fn visit_path(&mut self, segments: usize, path: &str)
        ensures
            final(self).mentions@ == with_path(old(self).mentions@, segments as int, path@),
            old(self).mentions.wf() ==> final(self).mentions.wf(),
    {
        if segments >= 2 {
            self.mentions.insert(replace_all(path, " ", ""));
        }
    }
}

/// Gathers what is found in source files.
#[derive(Debug)]
pub struct WorkspaceFinder {
    pub found_fsms: Vec<FsmDefinition>,
    pub found_structs: NameMap<NameMap<String>>,
    pub found_functions: NameMap<NameSet>,
}

/// What a [`WorkspaceFinder`] has found: machines, the types of the fields of each struct, and
/// the paths that each function mentions.
#[verifier::ext_equal]
pub struct FinderView {
    pub fsms: Seq<FsmView>,
    pub structs: Map<Seq<char>, Map<Seq<char>, Seq<char>>>,
    pub functions: Map<Seq<char>, Seq<Seq<char>>>,
}

/// What several tables of types say.
pub open spec fn tables_view(structs: Map<Seq<char>, NameMap<String>>) -> Map<
    Seq<char>,
    Map<Seq<char>, Seq<char>>,
> {
    Map::new(|k: Seq<char>| structs.dom().contains(k), |k: Seq<char>| table_view(structs[k]@))
}

/// What the mentions of several functions say.
pub open spec fn mentions_view(functions: Map<Seq<char>, NameSet>) -> Map<
    Seq<char>,
    Seq<Seq<char>>,
> {
    Map::new(|k: Seq<char>| functions.dom().contains(k), |k: Seq<char>| functions[k]@)
}

impl View for WorkspaceFinder {
    type V = FinderView;

    open spec fn view(&self) -> FinderView {
        FinderView {
            fsms: machine_views(self.found_fsms@),
            structs: tables_view(self.found_structs@),
            functions: mentions_view(self.found_functions@),
        }
    }
}

impl WorkspaceFinder {
    /// The machines that have been found.
    pub open spec fn fsms(&self) -> Seq<FsmView> {
        machine_views(self.found_fsms@)
    }

    /// A finder that has found nothing yet.
    pub fn new() -> (r: Self)
        ensures
            r.fsms() == Seq::<FsmView>::empty(),
            r.found_structs@ == Map::<Seq<char>, NameMap<String>>::empty(),
            r.found_functions@ == Map::<Seq<char>, NameSet>::empty(),
    {
        let r = WorkspaceFinder {
            found_fsms: Vec::new(),
            found_structs: NameMap::new(),
            found_functions: NameMap::new(),
        };
        assert(r.fsms() =~= Seq::<FsmView>::empty());
        r
    }

    /// Whether the parser of source text takes every machine that has been found.
    pub fn is_parsable(&self) -> (r: bool)
        ensures
            r == each_fits(self.fsms()),
    {
        let mut i: usize = 0;
        while i < self.found_fsms.len()
            invariant
                i <= self.found_fsms@.len(),
                forall|k: int| 0 <= k < i ==> fsm_fits(#[trigger] self.fsms()[k]),
            decreases self.found_fsms@.len() - i,
        {
            if !self.found_fsms[i].is_parsable() {
                assert(!fsm_fits(self.fsms()[i as int]));
                return false;
            }
            i = i + 1;
        }
        true
    }

    /// Sees a call of the macro `path`, which has the text `call`.
    pub fn visit_macro(&mut self, path: &str, call: &str)
        requires
            path@ == "state_machine"@ ==> parsable(call@),
        ensures
            final(self).fsms() == with_macro(old(self).fsms(), path@, call@),
            final(self).found_structs == old(self).found_structs,
            final(self).found_functions == old(self).found_functions,
    {
        if same(path, "state_machine") {
            match parse_macro_call(call) {
                Some(fsm) => {
                    let ghost before = self.found_fsms@;
                    self.found_fsms.push(fsm);
                    assert(machine_views(self.found_fsms@) =~= machine_views(before).push(fsm@));
                },
                None => {},
            }
        }
    }

    /// Sees a struct with the named fields `fields`, each with the text of its type.
    pub fn visit_item_struct(&mut self, name: String, fields: &Vec<(String, String)>)
        ensures
            final(self).found_fsms == old(self).found_fsms,
            final(self).found_functions == old(self).found_functions,
            final(self).found_structs@ == old(self).found_structs@.insert(
                name@,
                final(self).found_structs@[name@],
            ),
            table_view(final(self).found_structs@[name@]@) == field_table(field_views(fields@)),
    {
        let ghost fv = field_views(fields@);
        let mut table: NameMap<String> = NameMap::new();
        let mut i: usize = 0;
        assert(fv.take(0) =~= Seq::empty());
        assert(table_view(table@) =~= Map::empty());
        while i < fields.len()
            invariant
                fv == field_views(fields@),
                i <= fields@.len(),
                table_view(table@) == field_table(fv.take(i as int)),
            decreases fields@.len() - i,
        {
            assert(fv.take(i + 1).drop_last() =~= fv.take(i as int));
            assert(fv[i as int] == (fields@[i as int].0@, fields@[i as int].1@));
            let ghost before = table@;
            let ty: String = replace_all(fields[i].1.as_str(), " ", "");
            table.insert(fields[i].0.clone(), ty);
            assert(table_view(table@) =~= table_view(before).insert(fv[i as int].0, ty@));
            i = i + 1;
        }
        assert(fv.take(i as int) =~= fv);
        self.found_structs.insert(name, table);
    }

    /// Sees a function that mentions the paths `mentions`.
    pub fn visit_item_fn(&mut self, name: String, mentions: NameSet)
        ensures
            final(self).found_fsms == old(self).found_fsms,
            final(self).found_structs == old(self).found_structs,
            final(self).found_functions@ == old(self).found_functions@.insert(name@, mentions),
    {
        self.found_functions.insert(name, mentions);
    }

    /// Sees a method that mentions the paths `mentions`. Methods and functions share their
    /// names.
    pub fn visit_impl_item_fn(&mut self, name: String, mentions: NameSet)
        ensures
            final(self).found_fsms == old(self).found_fsms,
            final(self).found_structs == old(self).found_structs,
            final(self).found_functions@ == old(self).found_functions@.insert(name@, mentions),
    {
        self.found_functions.insert(name, mentions);
    }
}

/// The machines by their names. Where two have one name, it is that of the last one.
pub open spec fn by_name(fsms: Seq<FsmView>) -> Map<Seq<char>, FsmView>
    decreases fsms.len(),
{
    if fsms.len() == 0 {
        Map::empty()
    } else {
        by_name(fsms.drop_last()).insert(fsms.last().name, fsms.last())
    }
}

/// The parser of source text takes every one of `fsms`.
pub open spec fn each_fits(fsms: Seq<FsmView>) -> bool {
    forall|i: int| 0 <= i < fsms.len() ==> fsm_fits(#[trigger] fsms[i])
}

proof fn lemma_by_name(fsms: Seq<FsmView>, k: Seq<char>)
    requires
        by_name(fsms).dom().contains(k),
    ensures
        exists|i: int| 0 <= i < fsms.len() && by_name(fsms)[k] == #[trigger] fsms[i],
    decreases fsms.len(),
{
    if fsms.len() > 0 {
        if k == fsms.last().name {
            assert(by_name(fsms)[k] == fsms[fsms.len() - 1]);
        } else {
            let rest = fsms.drop_last();
            lemma_by_name(rest, k);
            let i = choose|i: int| 0 <= i < rest.len() && by_name(rest)[k] == #[trigger] rest[i];
            assert(fsms[i] == rest[i]);
        }
    }
}

/// The machines of a map fit where those that it was made of fit.
pub proof fn lemma_map_fits(fsms: Seq<FsmView>)
    requires
        each_fits(fsms),
    ensures
        all_fit(by_name(fsms)),
{
    assert forall|k: Seq<char>| #[trigger] by_name(fsms).dom().contains(k) implies fsm_fits(
        by_name(fsms)[k],
    ) by {
        lemma_by_name(fsms, k);
    }
}

/// The machines by their names.
pub fn map_fsms(fsms: &Vec<FsmDefinition>) -> (r: NameMap<&FsmDefinition>)
    ensures
        fsm_views(r@) == by_name(machine_views(fsms@)),
        r.wf(),
{
    let ghost fv = machine_views(fsms@);
    let mut r: NameMap<&FsmDefinition> = NameMap::new();
    let mut i: usize = 0;
    assert(fv.take(0) =~= Seq::empty());
    assert(fsm_views(r@) =~= Map::empty());
    while i < fsms.len()
        invariant
            fv == machine_views(fsms@),
            i <= fsms@.len(),
            r.wf(),
            fsm_views(r@) == by_name(fv.take(i as int)),
        decreases fsms@.len() - i,
    {
        assert(fv.take(i + 1).drop_last() =~= fv.take(i as int));
        assert(fv[i as int] == fsms@[i as int]@);
        let ghost before = r@;
        r.insert(fsms[i].name.clone(), &fsms[i]);
        assert(fsm_views(r@) =~= fsm_views(before).insert(fv[i as int].name, fv[i as int]));
        i = i + 1;
    }
    assert(fv.take(i as int) =~= fv);
    r
}

/// What is known of a source tree with these machines and these structs.
pub open spec fn tree_surroundings(
    fsms: Seq<FsmView>,
    structs: Map<Seq<char>, NameMap<String>>,
) -> Surroundings {
    Surroundings { fsms: by_name(fsms), structs, resolve: as_is() }
}

/// One of `fsms` names the machine `name`.
pub open spec fn is_named(s: Surroundings, fsms: Seq<FsmView>, name: Seq<char>) -> bool {
    exists|i: int| 0 <= i < fsms.len() && #[trigger] fsm_machines(s, fsms[i]).contains(name)
}

/// Those of `fsms` that no machine of `all` names, in their order.
pub open spec fn roots_among(
    s: Surroundings,
    all: Seq<FsmView>,
    fsms: Seq<FsmView>,
) -> Seq<FsmView>
    decreases fsms.len(),
{
    if fsms.len() == 0 {
        Seq::empty()
    } else {
        let before = roots_among(s, all, fsms.drop_last());
        if is_named(s, all, fsms.last().name) {
            before
        } else {
            before.push(fsms.last())
        }
    }
}

/// The machines that no machine names, in their order.
pub open spec fn root_fsms(
    fsms: Seq<FsmView>,
    structs: Map<Seq<char>, NameMap<String>>,
) -> Seq<FsmView> {
    roots_among(tree_surroundings(fsms, structs), fsms, fsms)
}

/// All names that `fsms` name.
fn all_children(
    fsms: &Vec<FsmDefinition>,
    all_fsms: &NameMap<&FsmDefinition>,
    struct_map: &NameMap<NameMap<String>>,
) -> (r: NameSet)
    requires
        each_fits(machine_views(fsms@)),
    ensures
        forall|x: Seq<char>| #[trigger]
            r@.contains(x) <==> is_named(
                plainly(all_fsms@, struct_map@),
                machine_views(fsms@),
                x,
            ),
{
    let ghost fv = machine_views(fsms@);
    let ghost s = plainly(all_fsms@, struct_map@);
    let mut r: NameSet = NameSet::new();
    let mut i: usize = 0;
    while i < fsms.len()
        invariant
            fv == machine_views(fsms@),
            s == plainly(all_fsms@, struct_map@),
            each_fits(fv),
            i <= fsms@.len(),
            forall|x: Seq<char>| #[trigger]
                r@.contains(x) <==> exists|k: int|
                    0 <= k < i && #[trigger] fsm_machines(s, fv[k]).contains(x),
        decreases fsms@.len() - i,
    {
        assert(fv[i as int] == fsms@[i as int]@);
        let names: NameSet = machines_of(&fsms[i], all_fsms, struct_map);
        let ghost before = r@;
        add_names(&mut r, &names);
        proof {
            assert forall|x: Seq<char>| #[trigger] r@.contains(x) implies exists|k: int|
                0 <= k < i + 1 && #[trigger] fsm_machines(s, fv[k]).contains(x) by {
                if before.contains(x) {
                    let k = choose|k: int|
                        0 <= k < i && #[trigger] fsm_machines(s, fv[k]).contains(x);
                    assert(fsm_machines(s, fv[k]).contains(x));
                } else {
                    assert(fsm_machines(s, fv[i as int]).contains(x));
                }
            }
            assert forall|x: Seq<char>|
                (exists|k: int| 0 <= k < i + 1 && #[trigger] fsm_machines(s, fv[k]).contains(
                    x,
                )) implies #[trigger] r@.contains(x) by {
                let k = choose|k: int|
                    0 <= k < i + 1 && #[trigger] fsm_machines(s, fv[k]).contains(x);
                if k < i {
                    assert(before.contains(x));
                }
            }
        }
        i = i + 1;
    }
    r
}

/// Puts all of `more` into `names`.
fn add_names(names: &mut NameSet, more: &NameSet)
    ensures
        forall|x: Seq<char>| #[trigger]
            final(names)@.contains(x) <==> old(names)@.contains(x) || more@.contains(x),
{
    let mut i: usize = 0;
    while i < more.len()
        invariant
            i <= more@.len(),
            forall|x: Seq<char>| #[trigger]
                names@.contains(x) <==> old(names)@.contains(x) || more@.take(i as int).contains(x),
        decreases more@.len() - i,
    {
        let ghost before = names@;
        let name: String = more.get(i).clone();
        names.insert(name);
        proof {
            let now = with_name(before, more@[i as int]);
            assert forall|x: Seq<char>| #[trigger] now.contains(x) <==> before.contains(x) || x
                == more@[i as int] by {
                if before.contains(x) {
                    assert(now[before.index_of(x)] == x);
                }
                if !before.contains(more@[i as int]) {
                    assert(now[before.len() as int] == more@[i as int]);
                }
            }
            assert forall|x: Seq<char>| #[trigger]
                more@.take(i + 1).contains(x) <==> more@.take(i as int).contains(x) || x
                    == more@[i as int] by {
                if more@.take(i as int).contains(x) {
                    let k = more@.take(i as int).index_of(x);
                    assert(more@.take(i + 1)[k] == x);
                }
                assert(more@.take(i + 1)[i as int] == more@[i as int]);
                if more@.take(i + 1).contains(x) && x != more@[i as int] {
                    let k = more@.take(i + 1).index_of(x);
                    assert(more@.take(i as int)[k] == x);
                }
            }
        }
        i = i + 1;
    }
    assert(more@.take(i as int) =~= more@);
}

/// The machines of `fsms` that none of them names.
pub fn find_roots<'a>(
    fsms: &'a Vec<FsmDefinition>,
    struct_map: &NameMap<NameMap<String>>,
) -> (r: Vec<&'a FsmDefinition>)
    requires
        each_fits(machine_views(fsms@)),
    ensures
        machine_ref_views(r@) == root_fsms(machine_views(fsms@), struct_map@),
{
    let ghost fv = machine_views(fsms@);
    let all_fsms: NameMap<&FsmDefinition> = map_fsms(fsms);
    let ghost s = tree_surroundings(fv, struct_map@);
    assert(s == plainly(all_fsms@, struct_map@));
    let children: NameSet = all_children(fsms, &all_fsms, struct_map);
    let mut r: Vec<&'a FsmDefinition> = Vec::new();
    let mut i: usize = 0;
    assert(fv.take(0) =~= Seq::empty());
    assert(machine_ref_views(r@) =~= Seq::empty());
    while i < fsms.len()
        invariant
            fv == machine_views(fsms@),
            i <= fsms@.len(),
            forall|x: Seq<char>| #[trigger] children@.contains(x) <==> is_named(s, fv, x),
            machine_ref_views(r@) == roots_among(s, fv, fv.take(i as int)),
        decreases fsms@.len() - i,
    {
        assert(fv.take(i + 1).drop_last() =~= fv.take(i as int));
        assert(fv.take(i + 1).last() == fv[i as int]);
        assert(fv[i as int] == fsms@[i as int]@);
        if !children.contains(fsms[i].name.as_str()) {
            let ghost before = r@;
            r.push(&fsms[i]);
            assert(machine_ref_views(r@) =~= machine_ref_views(before).push(fv[i as int]));
        }
        i = i + 1;
    }
    assert(fv.take(i as int) =~= fv);
    r
}

/// The roots are exactly the machines that no machine names.
pub proof fn law_roots(s: Surroundings, all: Seq<FsmView>, fsms: Seq<FsmView>, m: FsmView)
    ensures
        roots_among(s, all, fsms).contains(m) <==> fsms.contains(m) && !is_named(s, all, m.name),
    decreases fsms.len(),
{
    if fsms.len() > 0 {
        let rest = fsms.drop_last();
        law_roots(s, all, rest, m);
        let before = roots_among(s, all, rest);
        let now = roots_among(s, all, fsms);
        if before.contains(m) {
            assert(now[before.index_of(m)] == m);
        }
        if rest.contains(m) {
            assert(fsms[rest.index_of(m)] == m);
        }
        if fsms.contains(m) && m != fsms.last() {
            assert(rest[fsms.index_of(m)] == m);
        }
        assert(fsms[fsms.len() - 1] == fsms.last());
        if !is_named(s, all, fsms.last().name) {
            assert(now[before.len() as int] == fsms.last());
        }
    }
}

/// Whether a file with the extension `extension` is looked into.
pub fn is_source(extension: Option<&str>) -> (r: bool)
    ensures
        r == (extension matches Some(e) && e@ == "rs"@),
{
    match extension {
        Some(e) => same(e, "rs"),
        None => false,
    }
}

} // verus!
