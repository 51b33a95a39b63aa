//! What stands in a source file: macro calls, structs, and functions.
use quote::ToTokens;
use syn::visit::Visit;
use vstd::prelude::*;

use crate::fence::{is_parsable, parsable};
use crate::model::field_views;
use crate::text::same;
use crate::workspace::{
    field_table, mentions_view, tables_view, with_macro, with_path, FinderView,
    MentionVisitor, WorkspaceFinder,
};

verus! {

/// An item of a source file.
#[derive(Debug)]
pub enum SourceItem {
    /// A macro call: the path of the macro, and the text of the call.
    Macro(String, String),
    /// A struct: its name, and the names and the types of its named fields.
    Struct(String, Vec<(String, String)>),
    /// A function: its name, and the paths that it mentions, each with the number of its
    /// segments.
    Function(String, Vec<(usize, String)>),
    /// A method: its name, and the paths that it mentions, each with the number of its
    /// segments.
    Method(String, Vec<(usize, String)>),
}

/// What a [`SourceItem`] says.
pub enum ItemView {
    Macro(Seq<char>, Seq<char>),
    Struct(Seq<char>, Seq<(Seq<char>, Seq<char>)>),
    Function(Seq<char>, Seq<(int, Seq<char>)>),
    Method(Seq<char>, Seq<(int, Seq<char>)>),
}

/// What several paths say.
pub open spec fn path_views(paths: Seq<(usize, String)>) -> Seq<(int, Seq<char>)> {
    paths.map_values(|p: (usize, String)| (p.0 as int, p.1@))
}

impl View for SourceItem {
    type V = ItemView;

    open spec fn view(&self) -> ItemView {
        match self {
            SourceItem::Macro(path, call) => ItemView::Macro(path@, call@),
            SourceItem::Struct(name, fields) => ItemView::Struct(name@, field_views(fields@)),
            SourceItem::Function(name, paths) => ItemView::Function(name@, path_views(paths@)),
            SourceItem::Method(name, paths) => ItemView::Method(name@, path_views(paths@)),
        }
    }
}

/// What several items say.
pub open spec fn item_views(items: Seq<SourceItem>) -> Seq<ItemView> {
    items.map_values(|i: SourceItem| i@)
}

/// The paths of `paths` that name something inside something else, each once.
pub open spec fn mentions_of(paths: Seq<(int, Seq<char>)>) -> Seq<Seq<char>>
    decreases paths.len(),
{
    if paths.len() == 0 {
        Seq::empty()
    } else {
        with_path(mentions_of(paths.drop_last()), paths.last().0, paths.last().1)
    }
}

/// What has been found once `item` has been seen.
pub open spec fn with_item(f: FinderView, item: ItemView) -> FinderView {
    match item {
        ItemView::Macro(path, call) => FinderView { fsms: with_macro(f.fsms, path, call), ..f },
        ItemView::Struct(name, fields) => FinderView {
            structs: f.structs.insert(name, field_table(fields)),
            ..f
        },
        ItemView::Function(name, paths) => FinderView {
            functions: f.functions.insert(name, mentions_of(paths)),
            ..f
        },
        ItemView::Method(name, paths) => FinderView {
            functions: f.functions.insert(name, mentions_of(paths)),
            ..f
        },
    }
}

/// What has been found once all of `items` have been seen, one after the other.
pub open spec fn gathered(f: FinderView, items: Seq<ItemView>) -> FinderView
    decreases items.len(),
{
    if items.len() == 0 {
        f
    } else {
        with_item(gathered(f, items.drop_last()), items.last())
    }
}

/// If `item` is the call of a state machine, the parser of source text takes it.
pub open spec fn is_taken(item: ItemView) -> bool {
    match item {
        ItemView::Macro(path, call) => path == "state_machine"@ ==> parsable(call),
        _ => true,
    }
}

/// The parser of source text takes all calls of state machines in `items`.
pub open spec fn all_taken(items: Seq<ItemView>) -> bool {
    forall|i: int| 0 <= i < items.len() ==> is_taken(#[trigger] items[i])
}

/// The paths of `paths` that name something inside something else.
fn find_mentions(paths: &Vec<(usize, String)>) -> (r: MentionVisitor)
    ensures
        r.mentions@ == mentions_of(path_views(paths@)),
{
    let ghost pv = path_views(paths@);
    let mut v: MentionVisitor = MentionVisitor::new();
    let mut i: usize = 0;
    assert(pv.take(0) =~= Seq::empty());
    while i < paths.len()
        invariant
            pv == path_views(paths@),
            i <= paths@.len(),
            v.mentions@ == mentions_of(pv.take(i as int)),
        decreases paths@.len() - i,
    {
        assert(pv.take(i + 1).drop_last() =~= pv.take(i as int));
        assert(pv.take(i + 1).last() == (paths@[i as int].0 as int, paths@[i as int].1@));
        v.visit_path(paths[i].0, paths[i].1.as_str());
        i = i + 1;
    }
    assert(pv.take(i as int) =~= pv);
    v
}

/// Hands all of `items` to `finder`.
pub fn gather(items: &Vec<SourceItem>, finder: &mut WorkspaceFinder)
    requires
        all_taken(item_views(items@)),
    ensures
        final(finder)@ == gathered(old(finder)@, item_views(items@)),
{
    let ghost iv = item_views(items@);
    let ghost start = finder@;
    let mut i: usize = 0;
    assert(iv.take(0) =~= Seq::empty());
    while i < items.len()
        invariant
            iv == item_views(items@),
            all_taken(iv),
            i <= items@.len(),
            finder@ == gathered(start, iv.take(i as int)),
        decreases items@.len() - i,
    {
        assert(iv[i as int] == items@[i as int]@);
        assert(is_taken(iv[i as int]));
        assert(iv.take(i + 1).drop_last() =~= iv.take(i as int));
        assert(iv.take(i + 1).last() == iv[i as int]);
        let ghost before = *finder;
        match &items[i] {
            SourceItem::Macro(path, call) => {
                finder.visit_macro(path.as_str(), call.as_str());
            },
            SourceItem::Struct(name, fields) => {
                finder.visit_item_struct(name.clone(), fields);
                assert(tables_view(finder.found_structs@) =~= tables_view(
                    before.found_structs@,
                ).insert(name@, field_table(field_views(fields@))));
            },
            SourceItem::Function(name, paths) => {
                let v: MentionVisitor = find_mentions(paths);
                finder.visit_item_fn(name.clone(), v.mentions);
                assert(mentions_view(finder.found_functions@) =~= mentions_view(
                    before.found_functions@,
                ).insert(name@, mentions_of(path_views(paths@))));
            },
            SourceItem::Method(name, paths) => {
                let v: MentionVisitor = find_mentions(paths);
                finder.visit_impl_item_fn(name.clone(), v.mentions);
                assert(mentions_view(finder.found_functions@) =~= mentions_view(
                    before.found_functions@,
                ).insert(name@, mentions_of(path_views(paths@))));
            },
        }
        assert(finder@ =~= with_item(before@, iv[i as int]));
        i = i + 1;
    }
    assert(iv.take(i as int) =~= iv);
}

/// Whether the parser of source text takes all calls of state machines in `items`.
pub fn are_taken(items: &Vec<SourceItem>) -> (r: bool)
    ensures
        r == all_taken(item_views(items@)),
{
    let ghost iv = item_views(items@);
    let mut i: usize = 0;
    while i < items.len()
        invariant
            iv == item_views(items@),
            i <= items@.len(),
            forall|k: int| 0 <= k < i ==> is_taken(#[trigger] iv[k]),
        decreases items@.len() - i,
    {
        assert(iv[i as int] == items@[i as int]@);
        match &items[i] {
            SourceItem::Macro(path, call) => {
                if same(path.as_str(), "state_machine") && !is_parsable(call.as_str()) {
                    assert(!is_taken(iv[i as int]));
                    return false;
                }
            },
            _ => {},
        }
        i = i + 1;
    }
    true
}

/// What a parser of files answers of a text: its items, or that it is no Rust.
pub type Files = spec_fn(Seq<char>) -> Option<Seq<ItemView>>;

/// What optional items say.
pub open spec fn file_view(r: Option<Vec<SourceItem>>) -> Option<Seq<ItemView>> {
    match r {
        Some(items) => Some(item_views(items@)),
        None => None,
    }
}

/// Every answer of `f` is the one of `w`.
pub open spec fn reads_as<P: Fn(&str) -> Option<Vec<SourceItem>>>(f: P, w: Files) -> bool {
    forall|x: &str, y: Option<Vec<SourceItem>>| #[trigger]
        call_ensures(f, (x,), y) ==> file_view(y) == w(x@)
}

/// `finder` has gone from `before` to `after` by a file with the items `items`, and says `r`:
/// whether there are items, and the parser of source text takes all their state machines.
/// Otherwise nothing is found.
pub open spec fn processed(
    items: Option<Seq<ItemView>>,
    before: FinderView,
    after: FinderView,
    r: bool,
) -> bool {
    &&& r == (items matches Some(found) && all_taken(found))
    &&& after == if r {
        gathered(before, items->0)
    } else {
        before
    }
}

/// Hands what stands in a file with the text `text` to `finder`, where `parse` parses files. A
/// file that is no Rust is passed over.
pub fn process_source_with<P: Fn(&str) -> Option<Vec<SourceItem>>>(
    text: &str,
    finder: &mut WorkspaceFinder,
    parse: &P,
) -> (r: bool)
    requires
        forall|x: &str| #[trigger] call_requires(*parse, (x,)),
    ensures
        exists|items: Option<Seq<ItemView>>| #[trigger]
            processed(items, old(finder)@, final(finder)@, r),
        !r ==> *final(finder) == *old(finder),
        forall|w: Files| #[trigger]
            reads_as(*parse, w) ==> processed(w(text@), old(finder)@, final(finder)@, r),
{
    let ghost before = finder@;
    assert(call_requires(*parse, (text,)));
    let items: Option<Vec<SourceItem>> = parse(text);
    let ghost found = file_view(items);
    let r: bool = match &items {
        Some(list) => if are_taken(list) {
            gather(list, finder);
            true
        } else {
            false
        },
        None => false,
    };
    assert(processed(found, before, finder@, r));
    r
}

/// The macro calls of `syn`.
#[verifier::external_type_specification]
#[verifier::external_body]
pub struct ExMacro(syn::Macro);

/// The structs of `syn`.
#[verifier::external_type_specification]
#[verifier::external_body]
pub struct ExItemStruct(syn::ItemStruct);

/// The functions of `syn`.
#[verifier::external_type_specification]
#[verifier::external_body]
pub struct ExItemFn(syn::ItemFn);

/// The methods of `syn`.
#[verifier::external_type_specification]
#[verifier::external_body]
pub struct ExImplItemFn(syn::ImplItemFn);

/// The blocks of `syn`.
#[verifier::external_type_specification]
#[verifier::external_body]
pub struct ExBlock(syn::Block);

/// Notes the paths that `syn::visit::Visit` comes to in a block.
struct PathCollector {
    paths: Vec<(usize, String)>,
}

impl<'ast> Visit<'ast> for PathCollector {
    /// Called by `syn::visit::Visit` for a path: notes the number of its segments and its
    /// text, and goes on with `syn::visit::visit_path`. Nothing is claimed of them.
    #[verifier::external_body]
    fn visit_path(&mut self, i: &'ast syn::Path) {
        self.paths.push((i.segments.len(), i.to_token_stream().to_string()));
        syn::visit::visit_path(self, i);
    }
}

/// Calls `syn::visit::Visit::visit_block`, and returns the paths that it comes to. Nothing is
/// claimed of them.
#[verifier::external_body]
fn paths_of(block: &syn::Block) -> (r: Vec<(usize, String)>) {
    let mut collector = PathCollector { paths: Vec::new() };
    collector.visit_block(block);
    collector.paths
}

/// Notes the items that `syn::visit::Visit` comes to in a file.
struct ItemCollector {
    items: Vec<SourceItem>,
}

impl<'ast> Visit<'ast> for ItemCollector {
    /// Called by `syn::visit::Visit` for a macro call: notes its path and its text, and goes on
    /// with `syn::visit::visit_macro`. Nothing is claimed of them.
    #[verifier::external_body]
    fn visit_macro(&mut self, i: &'ast syn::Macro) {
        let path = i.path.to_token_stream().to_string();
        self.items.push(SourceItem::Macro(path, i.to_token_stream().to_string()));
        syn::visit::visit_macro(self, i);
    }

    /// Called by `syn::visit::Visit` for a struct: notes its name and its named fields with the
    /// texts of their types, and goes on with `syn::visit::visit_item_struct`. Nothing is
    /// claimed of them.
    #[verifier::external_body]
    fn visit_item_struct(&mut self, i: &'ast syn::ItemStruct) {
        let fields = match &i.fields {
            syn::Fields::Named(named) => named.named.iter().map(
                |f| (f.ident.to_token_stream().to_string(), f.ty.to_token_stream().to_string()),
            ).collect(),
            syn::Fields::Unnamed(_) => Vec::new(),
            syn::Fields::Unit => Vec::new(),
        };
        self.items.push(SourceItem::Struct(i.ident.to_string(), fields));
        syn::visit::visit_item_struct(self, i);
    }

    /// Called by `syn::visit::Visit` for a function: notes its name and the paths in its block,
    /// and goes on with `syn::visit::visit_item_fn`. Nothing is claimed of them.
    #[verifier::external_body]
    fn visit_item_fn(&mut self, i: &'ast syn::ItemFn) {
        self.items.push(SourceItem::Function(i.sig.ident.to_string(), paths_of(&i.block)));
        syn::visit::visit_item_fn(self, i);
    }

    /// Called by `syn::visit::Visit` for a method: notes its name and the paths in its block,
    /// and goes on with `syn::visit::visit_impl_item_fn`. Nothing is claimed of them.
    #[verifier::external_body]
    fn visit_impl_item_fn(&mut self, i: &'ast syn::ImplItemFn) {
        self.items.push(SourceItem::Method(i.sig.ident.to_string(), paths_of(&i.block)));
        syn::visit::visit_impl_item_fn(self, i);
    }
}

/// Calls `syn::parse_file`, and walks the file with `syn::visit::Visit::visit_file`. Nothing is
/// claimed of the items: they rest on the lexer that `proc_macro2` uses, which inside a
/// procedural macro is the one of the compiler.
#[verifier::external_body]
fn parse_file(text: &str) -> (r: Option<Vec<SourceItem>>) {
    let file = syn::parse_file(text).ok()?;
    let mut collector = ItemCollector { items: Vec::new() };
    collector.visit_file(&file);
    Some(collector.items)
}

/// The parser of files in `syn` answers as `w` does.
pub closed spec fn syn_reads_as(w: Files) -> bool {
    reads_as(parse_file, w)
}

/// Hands what stands in a file with the text `text` to `finder`, as `syn` parses it. A file
/// that is no Rust is passed over.
pub fn process_source(text: &str, finder: &mut WorkspaceFinder) -> (r: bool)
    ensures
        exists|items: Option<Seq<ItemView>>| #[trigger]
            processed(items, old(finder)@, final(finder)@, r),
        !r ==> *final(finder) == *old(finder),
        forall|w: Files| #[trigger]
            syn_reads_as(w) ==> processed(w(text@), old(finder)@, final(finder)@, r),
{
    process_source_with(text, finder, &parse_file)
}

} // verus!
