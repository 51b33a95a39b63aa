//! The files that are written for a root machine: its own diagram, and the diagrams of the
//! machines below it.
use vstd::prelude::*;

use crate::config::{BreakdownMode, DiagramMode};
use crate::diagram::{
    generate_mermaid_hierarchical, generate_mermaid_simple, hierarchical_diagram, simple_diagram,
    DiagramView, StateDiagram,
};
use crate::labels::label_view;
use crate::model::{fsm_fits, FsmDefinition, FsmView};
use crate::names::{NameMap, NameSet};
use crate::nesting::{
    all_fit, fsm_views, lemma_machine_count, nests, nests_finitely, resolves, Surroundings,
};
use crate::reach::{
    as_is, as_written, collect_all_subfsms, law_machines_below, law_nesting_below, machines_below,
    plainly, reachable,
};
use crate::text::concat2;
use crate::workspace::{
    each_fits, find_roots, law_roots, lemma_map_fits, machine_ref_views, map_fsms, root_fsms,
    tree_surroundings, WorkspaceFinder,
};

verus! {

/// A file with a diagram: its folder below that of the root machine, if it does not stand
/// there itself, and its name.
#[derive(Debug)]
pub struct DiagramFile {
    pub folder: Option<String>,
    pub name: String,
    pub diagram: StateDiagram,
}

/// What a [`DiagramFile`] says.
#[verifier::ext_equal]
pub struct FileView {
    pub folder: Option<Seq<char>>,
    pub name: Seq<char>,
    pub diagram: DiagramView,
}

impl View for DiagramFile {
    type V = FileView;

    open spec fn view(&self) -> FileView {
        FileView { folder: label_view(self.folder), name: self.name@, diagram: self.diagram@ }
    }
}

/// What several files say.
pub open spec fn file_views(files: Seq<DiagramFile>) -> Seq<FileView> {
    files.map_values(|f: DiagramFile| f@)
}

/// How diagrams are drawn.
pub struct Look {
    pub guards: bool,
    pub mentions: Map<Seq<char>, NameSet>,
}

/// The name of the file for the machine `name`.
pub open spec fn file_name(name: Seq<char>) -> Seq<char> {
    name + ".mermaid"@
}

/// The diagram of `m`, with the machines that run inside its states if it is `nested`.
pub open spec fn drawn(s: Surroundings, m: FsmView, nested: bool, look: Look) -> DiagramView {
    if nested {
        hierarchical_diagram(s, m, look.guards, look.mentions)
    } else {
        simple_diagram(m, look.guards, look.mentions)
    }
}

/// The file in `folder` for the machine `name`.
pub open spec fn machine_file(
    s: Surroundings,
    folder: Seq<char>,
    nested: bool,
    look: Look,
    name: Seq<char>,
) -> FileView {
    FileView {
        folder: Some(folder),
        name: file_name(name),
        diagram: drawn(s, s.fsms[name], nested, look),
    }
}

/// The files in `folder` for the machines below `m`: one for each.
pub open spec fn breakdown_files(
    s: Surroundings,
    m: FsmView,
    folder: Seq<char>,
    nested: bool,
    look: Look,
) -> Seq<FileView> {
    machines_below(s, m).map_values(|x: Seq<char>| machine_file(s, folder, nested, look, x))
}

/// The folders of a breakdown, and whether the diagrams in each are nested.
pub open spec fn breakdown_plan(mode: BreakdownMode) -> Seq<(Seq<char>, bool)> {
    match mode {
        BreakdownMode::Off => Seq::empty(),
        BreakdownMode::Flat => seq![("breakdown"@, false)],
        BreakdownMode::Nested => seq![("breakdown"@, true)],
        BreakdownMode::Both => seq![("breakdown_flat"@, false), ("breakdown_nested"@, true)],
    }
}

/// The files in all folders of `plan`.
pub open spec fn planned_files(
    s: Surroundings,
    m: FsmView,
    plan: Seq<(Seq<char>, bool)>,
    look: Look,
) -> Seq<FileView>
    decreases plan.len(),
{
    if plan.len() == 0 {
        Seq::empty()
    } else {
        planned_files(s, m, plan.drop_last(), look) + breakdown_files(
            s,
            m,
            plan.last().0,
            plan.last().1,
            look,
        )
    }
}

/// The files for the root machine `m`: first its own, and then those of the breakdown.
pub open spec fn root_files(
    s: Surroundings,
    m: FsmView,
    mode: DiagramMode,
    breakdown: BreakdownMode,
    look: Look,
) -> Seq<FileView> {
    seq![
        FileView {
            folder: None,
            name: file_name(m.name),
            diagram: drawn(s, m, mode == DiagramMode::Hierarchical, look),
        },
    ] + planned_files(s, m, breakdown_plan(breakdown), look)
}

/// Whether nested diagrams are drawn at all.
pub open spec fn draws_nested(mode: DiagramMode, breakdown: BreakdownMode) -> bool {
    mode == DiagramMode::Hierarchical || breakdown == BreakdownMode::Nested || breakdown
        == BreakdownMode::Both
}

/// A folder with nested diagrams is planned only where nested diagrams are drawn.
proof fn lemma_plan_nested(mode: DiagramMode, breakdown: BreakdownMode, i: int)
    requires
        0 <= i < breakdown_plan(breakdown).len(),
        breakdown_plan(breakdown)[i].1,
    ensures
        draws_nested(mode, breakdown),
{
    match breakdown {
        BreakdownMode::Off => {
            assert(breakdown_plan(breakdown).len() == 0);
        },
        BreakdownMode::Flat => {
            assert(breakdown_plan(breakdown).len() == 1);
            assert(!breakdown_plan(breakdown)[0].1);
        },
        BreakdownMode::Nested => {},
        BreakdownMode::Both => {},
    }
}

/// The name of the file for the machine `name`.
pub fn mermaid_file_name(name: &str) -> (r: String)
    ensures
        r@ == file_name(name@),
{
    concat2(name, ".mermaid")
}

/// The diagram of `fsm`, with the machines that run inside its states if it is `nested`.
fn draw(
    fsm: &FsmDefinition,
    all_fsms: &NameMap<&FsmDefinition>,
    struct_map: &NameMap<NameMap<String>>,
    nested: bool,
    include_guards: bool,
    function_mentions: &NameMap<NameSet>,
) -> (r: StateDiagram)
    requires
        fsm_fits(fsm@),
        all_fit(fsm_views(all_fsms@)),
        nested ==> nests(plainly(all_fsms@, struct_map@), fsm@),
    ensures
        r@ == drawn(
            plainly(all_fsms@, struct_map@),
            fsm@,
            nested,
            (Look { guards: include_guards, mentions: function_mentions@ }),
        ),
{
    assert(resolves(as_written, as_is()));
    if nested {
        generate_mermaid_hierarchical(
            fsm,
            all_fsms,
            struct_map,
            include_guards,
            function_mentions,
            as_written,
        )
    } else {
        generate_mermaid_simple(fsm, include_guards, function_mentions)
    }
}

/// The files in the folder `sub_dir` for the machines below `fsm`.
pub fn save_breakdown(
    fsm: &FsmDefinition,
    all_fsms: &NameMap<&FsmDefinition>,
    struct_map: &NameMap<NameMap<String>>,
    sub_dir: &str,
    nested: bool,
    include_guards: bool,
    function_mentions: &NameMap<NameSet>,
) -> (r: Vec<DiagramFile>)
    requires
        fsm_fits(fsm@),
        all_fit(fsm_views(all_fsms@)),
        nested ==> nests(plainly(all_fsms@, struct_map@), fsm@),
    ensures
        file_views(r@) == breakdown_files(
            plainly(all_fsms@, struct_map@),
            fsm@,
            sub_dir@,
            nested,
            (Look { guards: include_guards, mentions: function_mentions@ }),
        ),
{
    let ghost s = plainly(all_fsms@, struct_map@);
    let ghost look = Look { guards: include_guards, mentions: function_mentions@ };
    let mut discovered: NameSet = NameSet::new();
    collect_all_subfsms(fsm, all_fsms, struct_map, &mut discovered);
    let ghost below = machines_below(s, fsm@);
    proof {
        lemma_machine_count(all_fsms);
        law_machines_below(s, fsm@);
    }
    let mut r: Vec<DiagramFile> = Vec::new();
    let mut i: usize = 0;
    let ghost files = breakdown_files(s, fsm@, sub_dir@, nested, look);
    while i < discovered.len()
        invariant
            s == plainly(all_fsms@, struct_map@),
            look == (Look { guards: include_guards, mentions: function_mentions@ }),
            below == machines_below(s, fsm@),
            discovered@ == below,
            files == breakdown_files(s, fsm@, sub_dir@, nested, look),
            all_fit(fsm_views(all_fsms@)),
            nested ==> nests(s, fsm@),
            forall|x: Seq<char>| #[trigger] below.contains(x) <==> reachable(s, fsm@, x),
            i <= below.len(),
            file_views(r@) == files.take(i as int),
        decreases below.len() - i,
    {
        let name: &String = discovered.get(i);
        assert(below.contains(name@));
        assert(s.fsms.dom().contains(name@));
        match all_fsms.get(name.as_str()) {
            Some(sub_fsm) => {
                assert(s.fsms[name@] == sub_fsm@);
                proof {
                    if nested {
                        law_nesting_below(s, fsm@, name@);
                    }
                }
                let diagram: StateDiagram = draw(
                    sub_fsm,
                    all_fsms,
                    struct_map,
                    nested,
                    include_guards,
                    function_mentions,
                );
                let ghost before = r@;
                let f = DiagramFile {
                    folder: Some(sub_dir.to_string()),
                    name: mermaid_file_name(name.as_str()),
                    diagram,
                };
                r.push(f);
                assert(f@ == files[i as int]);
                assert(file_views(r@) =~= file_views(before).push(f@));
                assert(files.take(i + 1) =~= files.take(i as int).push(files[i as int]));
            },
            None => {},
        }
        i = i + 1;
    }
    assert(files.take(i as int) =~= files);
    r
}

/// The folders of a breakdown, and whether the diagrams in each are nested.
pub fn plan_breakdown(mode: BreakdownMode) -> (r: Vec<(String, bool)>)
    ensures
        r@.map_values(|p: (String, bool)| (p.0@, p.1)) == breakdown_plan(mode),
{
    let mut r: Vec<(String, bool)> = Vec::new();
    match mode {
        BreakdownMode::Off => {},
        BreakdownMode::Flat => {
            r.push(("breakdown".to_string(), false));
        },
        BreakdownMode::Nested => {
            r.push(("breakdown".to_string(), true));
        },
        BreakdownMode::Both => {
            r.push(("breakdown_flat".to_string(), false));
            r.push(("breakdown_nested".to_string(), true));
        },
    }
    assert(r@.map_values(|p: (String, bool)| (p.0@, p.1)) =~= breakdown_plan(mode));
    r
}

/// The files for the root machine `fsm`.
pub fn draw_root(
    fsm: &FsmDefinition,
    all_fsms: &NameMap<&FsmDefinition>,
    struct_map: &NameMap<NameMap<String>>,
    mode: DiagramMode,
    breakdown: BreakdownMode,
    include_guards: bool,
    function_mentions: &NameMap<NameSet>,
) -> (r: Vec<DiagramFile>)
    requires
        fsm_fits(fsm@),
        all_fit(fsm_views(all_fsms@)),
        draws_nested(mode, breakdown) ==> nests(plainly(all_fsms@, struct_map@), fsm@),
    ensures
        file_views(r@) == root_files(
            plainly(all_fsms@, struct_map@),
            fsm@,
            mode,
            breakdown,
            (Look { guards: include_guards, mentions: function_mentions@ }),
        ),
{
    let ghost s = plainly(all_fsms@, struct_map@);
    let ghost look = Look { guards: include_guards, mentions: function_mentions@ };
    let mut r: Vec<DiagramFile> = Vec::new();
    let diagram: StateDiagram = draw(
        fsm,
        all_fsms,
        struct_map,
        mode == DiagramMode::Hierarchical,
        include_guards,
        function_mentions,
    );
    let first = DiagramFile { folder: None, name: mermaid_file_name(fsm.name.as_str()), diagram };
    let ghost head = seq![first@];
    r.push(first);
    let plan: Vec<(String, bool)> = plan_breakdown(breakdown);
    let ghost pv = plan@.map_values(|p: (String, bool)| (p.0@, p.1));
    let mut i: usize = 0;
    assert(pv.take(0) =~= Seq::empty());
    assert(file_views(r@) =~= head + Seq::<FileView>::empty());
    while i < plan.len()
        invariant
            s == plainly(all_fsms@, struct_map@),
            look == (Look { guards: include_guards, mentions: function_mentions@ }),
            fsm_fits(fsm@),
            all_fit(fsm_views(all_fsms@)),
            draws_nested(mode, breakdown) ==> nests(s, fsm@),
            pv == plan@.map_values(|p: (String, bool)| (p.0@, p.1)),
            pv == breakdown_plan(breakdown),
            i <= plan@.len(),
            file_views(r@) == head + planned_files(s, fsm@, pv.take(i as int), look),
        decreases plan@.len() - i,
    {
        assert(pv.take(i + 1).drop_last() =~= pv.take(i as int));
        assert(pv.take(i + 1).last() == pv[i as int]);
        assert(pv[i as int] == (plan@[i as int].0@, plan@[i as int].1));
        proof {
            if plan@[i as int].1 {
                lemma_plan_nested(mode, breakdown, i as int);
            }
        }
        let mut files: Vec<DiagramFile> = save_breakdown(
            fsm,
            all_fsms,
            struct_map,
            plan[i].0.as_str(),
            plan[i].1,
            include_guards,
            function_mentions,
        );
        let ghost before = r@;
        let ghost fv = files@;
        r.append(&mut files);
        assert(file_views(r@) =~= file_views(before) + file_views(fv));
        assert(file_views(r@) =~= head + planned_files(s, fsm@, pv.take(i + 1), look));
        i = i + 1;
    }
    assert(pv.take(i as int) =~= pv);
    r
}

/// The files for the root machine `fsm`, or nothing where nested diagrams are drawn and a
/// machine runs inside itself.
pub fn try_draw_root(
    fsm: &FsmDefinition,
    all_fsms: &NameMap<&FsmDefinition>,
    struct_map: &NameMap<NameMap<String>>,
    mode: DiagramMode,
    breakdown: BreakdownMode,
    include_guards: bool,
    function_mentions: &NameMap<NameSet>,
) -> (r: Option<Vec<DiagramFile>>)
    requires
        fsm_fits(fsm@),
        all_fit(fsm_views(all_fsms@)),
    ensures
        match r {
            Some(files) => {
                &&& draws_nested(mode, breakdown) ==> nests(
                    plainly(all_fsms@, struct_map@),
                    fsm@,
                )
                &&& file_views(files@) == root_files(
                    plainly(all_fsms@, struct_map@),
                    fsm@,
                    mode,
                    breakdown,
                    (Look { guards: include_guards, mentions: function_mentions@ }),
                )
            },
            None => draws_nested(mode, breakdown) && !nests(
                plainly(all_fsms@, struct_map@),
                fsm@,
            ),
        },
{
    assert(resolves(as_written, as_is()));
    let nested: bool = mode == DiagramMode::Hierarchical || breakdown == BreakdownMode::Nested
        || breakdown == BreakdownMode::Both;
    if nested && !nests_finitely(fsm, all_fsms, struct_map, &as_written) {
        None
    } else {
        Some(
            draw_root(
                fsm,
                all_fsms,
                struct_map,
                mode,
                breakdown,
                include_guards,
                function_mentions,
            ),
        )
    }
}

/// What is drawn of a root machine.
#[derive(Debug)]
pub struct RootOutput {
    pub name: String,
    /// The files, or nothing where nested diagrams are drawn and a machine runs inside itself.
    pub files: Option<Vec<DiagramFile>>,
}

/// What a [`RootOutput`] says.
#[verifier::ext_equal]
pub struct RootView {
    pub name: Seq<char>,
    pub files: Option<Seq<FileView>>,
}

impl View for RootOutput {
    type V = RootView;

    open spec fn view(&self) -> RootView {
        RootView {
            name: self.name@,
            files: match self.files {
                Some(files) => Some(file_views(files@)),
                None => None,
            },
        }
    }
}

/// What several [`RootOutput`]s say.
pub open spec fn root_views(roots: Seq<RootOutput>) -> Seq<RootView> {
    roots.map_values(|r: RootOutput| r@)
}

/// What is drawn of the root machine `m`.
pub open spec fn root_output(
    s: Surroundings,
    m: FsmView,
    mode: DiagramMode,
    breakdown: BreakdownMode,
    look: Look,
) -> RootView {
    RootView {
        name: m.name,
        files: if draws_nested(mode, breakdown) && !nests(s, m) {
            None
        } else {
            Some(root_files(s, m, mode, breakdown, look))
        },
    }
}

/// What is drawn of a source tree with these machines and these structs: its roots, in their
/// order.
pub open spec fn tree_output(
    fsms: Seq<FsmView>,
    structs: Map<Seq<char>, NameMap<String>>,
    mode: DiagramMode,
    breakdown: BreakdownMode,
    look: Look,
) -> Seq<RootView> {
    root_fsms(fsms, structs).map_values(
        |m: FsmView| root_output(tree_surroundings(fsms, structs), m, mode, breakdown, look),
    )
}

/// What is drawn of the source tree that `finder` has looked at.
pub fn draw_workspace(
    finder: &WorkspaceFinder,
    mode: DiagramMode,
    breakdown: BreakdownMode,
    include_guards: bool,
) -> (r: Vec<RootOutput>)
    requires
        each_fits(finder.fsms()),
    ensures
        root_views(r@) == tree_output(
            finder.fsms(),
            finder.found_structs@,
            mode,
            breakdown,
            (Look { guards: include_guards, mentions: finder.found_functions@ }),
        ),
{
    let ghost fv = finder.fsms();
    let ghost structs = finder.found_structs@;
    let ghost look = Look { guards: include_guards, mentions: finder.found_functions@ };
    let ghost s = tree_surroundings(fv, structs);
    let all_fsms: NameMap<&FsmDefinition> = map_fsms(&finder.found_fsms);
    assert(s == plainly(all_fsms@, structs));
    proof {
        lemma_map_fits(fv);
    }
    let roots: Vec<&FsmDefinition> = find_roots(&finder.found_fsms, &finder.found_structs);
    let ghost rv = root_fsms(fv, structs);
    let ghost out = tree_output(fv, structs, mode, breakdown, look);
    let mut r: Vec<RootOutput> = Vec::new();
    let mut i: usize = 0;
    while i < roots.len()
        invariant
            fv == finder.fsms(),
            structs == finder.found_structs@,
            look == (Look { guards: include_guards, mentions: finder.found_functions@ }),
            s == tree_surroundings(fv, structs),
            s == plainly(all_fsms@, structs),
            each_fits(fv),
            all_fit(fsm_views(all_fsms@)),
            rv == root_fsms(fv, structs),
            rv == machine_ref_views(roots@),
            out == tree_output(fv, structs, mode, breakdown, look),
            i <= roots@.len(),
            root_views(r@) == out.take(i as int),
        decreases roots@.len() - i,
    {
        let fsm: &FsmDefinition = roots[i];
        assert(rv[i as int] == fsm@);
        proof {
            assert(rv.contains(fsm@));
            law_roots(s, fv, fv, fsm@);
            let k = fv.index_of(fsm@);
            assert(fsm_fits(fv[k]));
        }
        let files: Option<Vec<DiagramFile>> = try_draw_root(
            fsm,
            &all_fsms,
            &finder.found_structs,
            mode,
            breakdown,
            include_guards,
            &finder.found_functions,
        );
        let ghost before = r@;
        let one = RootOutput { name: fsm.name.clone(), files };
        r.push(one);
        assert(one@ == out[i as int]);
        assert(root_views(r@) =~= root_views(before).push(one@));
        assert(out.take(i + 1) =~= out.take(i as int).push(out[i as int]));
        i = i + 1;
    }
    assert(out.take(i as int) =~= out);
    r
}

/// The file `f` in `folder` is that of a machine below `m`.
pub open spec fn shows_one_below(
    s: Surroundings,
    m: FsmView,
    folder: Seq<char>,
    nested: bool,
    look: Look,
    f: FileView,
) -> bool {
    exists|x: Seq<char>|
        reachable(s, m, x) && f == #[trigger] machine_file(s, folder, nested, look, x)
}

/// A breakdown has one file for each machine below the root, and no file for any other.
pub proof fn law_breakdown_files(
    s: Surroundings,
    m: FsmView,
    folder: Seq<char>,
    nested: bool,
    look: Look,
)
    requires
        s.fsms.dom().finite(),
    ensures
        forall|x: Seq<char>|
            reachable(s, m, x) ==> breakdown_files(s, m, folder, nested, look).contains(
                #[trigger] machine_file(s, folder, nested, look, x),
            ),
        forall|k: int|
            0 <= k < breakdown_files(s, m, folder, nested, look).len() ==> shows_one_below(
                s,
                m,
                folder,
                nested,
                look,
                #[trigger] breakdown_files(s, m, folder, nested, look)[k],
            ),
        forall|i: int, j: int|
            0 <= i < j < breakdown_files(s, m, folder, nested, look).len()
                ==> #[trigger] breakdown_files(s, m, folder, nested, look)[i].name
                != #[trigger] breakdown_files(s, m, folder, nested, look)[j].name,
{
    law_machines_below(s, m);
    let below = machines_below(s, m);
    let files = breakdown_files(s, m, folder, nested, look);
    assert forall|x: Seq<char>| reachable(s, m, x) implies files.contains(
        #[trigger] machine_file(s, folder, nested, look, x),
    ) by {
        assert(below.contains(x));
        assert(files[below.index_of(x)] == machine_file(s, folder, nested, look, x));
    }
    assert forall|k: int| 0 <= k < files.len() implies shows_one_below(
        s,
        m,
        folder,
        nested,
        look,
        #[trigger] files[k],
    ) by {
        assert(below.contains(below[k]));
        assert(files[k] == machine_file(s, folder, nested, look, below[k]));
    }
    assert forall|i: int, j: int| 0 <= i < j < files.len() implies #[trigger] files[i].name
        != #[trigger] files[j].name by {
        let a = below[i];
        let b = below[j];
        assert(a != b);
        if file_name(a) == file_name(b) {
            assert(file_name(a).len() == a.len() + ".mermaid"@.len());
            assert(file_name(b).len() == b.len() + ".mermaid"@.len());
            assert(a =~= b) by {
                assert(file_name(a).take(a.len() as int) =~= a);
                assert(file_name(b).take(b.len() as int) =~= b);
            }
        }
    }
}

} // verus!
