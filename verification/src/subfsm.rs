//! The machines that a state runs: which of the types that its source text names are
//! state machines.
use vstd::prelude::*;

use crate::names::{with_name, NameSet};
use crate::syntax::{nth_place, Role, SyntaxTree, TreeView};
use crate::text::{ends, ends_with, pieces, replace_all, replaced, same, split_on, to_chars, views};

verus! {

/// What `char::is_uppercase` of the standard library says of `c`.
pub uninterp spec fn uppercase(c: char) -> bool;

/// What `char::is_lowercase` of the standard library says of `c`.
pub uninterp spec fn lowercase(c: char) -> bool;

/// Calls `char::is_uppercase`. The contract says that it answers the same for the same
/// character, and that of the ASCII characters it is true of the letters `A` to `Z` alone;
/// which others have the Unicode property `Uppercase` it leaves to the standard library.
#[verifier::external_body]
fn is_uppercase(c: char) -> (r: bool)
    ensures
        r == uppercase(c),
        c <= '\u{7f}' ==> r == ('A' <= c <= 'Z'),
{
    c.is_uppercase()
}

/// Calls `char::is_lowercase`. The contract says that it answers the same for the same
/// character, and that of the ASCII characters it is true of the letters `a` to `z` alone;
/// which others have the Unicode property `Lowercase` it leaves to the standard library.
#[verifier::external_body]
fn is_lowercase(c: char) -> (r: bool)
    ensures
        r == lowercase(c),
        c <= '\u{7f}' ==> r == ('a' <= c <= 'z'),
{
    c.is_lowercase()
}

/// `c` is an upper case letter.
pub open spec fn is_upper(c: char) -> bool {
    if c <= '\u{7f}' {
        'A' <= c <= 'Z'
    } else {
        uppercase(c)
    }
}

/// `c` is a lower case letter.
pub open spec fn is_lower(c: char) -> bool {
    if c <= '\u{7f}' {
        'a' <= c <= 'z'
    } else {
        lowercase(c)
    }
}

/// `name` is neither the machine `fsm` itself nor a type that every machine uses.
pub open spec fn is_foreign(fsm: Seq<char>, name: Seq<char>) -> bool {
    &&& name != "Self"@
    &&& name != fsm
    &&& name != "Transition"@
    &&& name != "Option"@
    &&& name != "Result"@
    &&& name != "String"@
}

/// The ending of `name` tells that it is an event, a context or a state.
pub open spec fn is_helper_type(name: Seq<char>) -> bool {
    ||| ends(name, "Event"@)
    ||| ends(name, "Evt"@)
    ||| ends(name, "Context"@)
    ||| ends(name, "Ctx"@)
    ||| ends(name, "State"@)
}

/// `name` is written in camel case, or its ending tells that it is a machine.
pub open spec fn looks_like_fsm(name: Seq<char>) -> bool {
    ||| exists|i: int| 0 <= i < name.len() && is_lower(#[trigger] name[i])
    ||| ends(name, "FSM"@)
    ||| ends(name, "Fsm"@)
}

/// `name`, the first segment of a path in the machine `fsm`, is taken for a machine.
pub open spec fn is_subfsm(fsm: Seq<char>, name: Seq<char>) -> bool {
    &&& name.len() > 0
    &&& is_upper(name[0])
    &&& is_foreign(fsm, name)
    &&& !is_helper_type(name)
    &&& looks_like_fsm(name)
}

/// The machine that the path `text` is taken to name: the first of two segments or more.
pub open spec fn path_subfsm(fsm: Seq<char>, text: Seq<char>) -> Option<Seq<char>> {
    let segments = pieces(replaced(text, " "@, ""@), "::"@);
    if segments.len() >= 2 && is_subfsm(fsm, segments[0]) {
        Some(segments[0])
    } else {
        None
    }
}

/// What has been discovered: machines, and the fields that are read or called.
#[verifier::ext_equal]
pub struct Discovery {
    pub machines: Seq<Seq<char>>,
    pub fields: Seq<Seq<char>>,
}

/// What is discovered once the node `t` itself has been looked at.
pub open spec fn noticed(fsm: Seq<char>, t: TreeView, d: Discovery) -> Discovery {
    if t.kind == "PATH"@ {
        match path_subfsm(fsm, t.text) {
            Some(name) => Discovery { machines: with_name(d.machines, name), ..d },
            None => d,
        }
    } else if t.kind == "FIELD_EXPR"@ {
        match nth_place(t.children, Role::Name, 0) {
            Some(i) => Discovery { fields: with_name(d.fields, t.children[i].text), ..d },
            None => d,
        }
    } else {
        d
    }
}

/// What is discovered once `t` and everything below it have been looked at, in the order
/// of the text.
pub open spec fn discovered_in(fsm: Seq<char>, t: TreeView, d: Discovery) -> Discovery
    decreases t,
{
    discovered_in_all(fsm, t.children, noticed(fsm, t, d))
}

/// What is discovered once all of `ts` have been looked at, one after the other.
pub open spec fn discovered_in_all(fsm: Seq<char>, ts: Seq<TreeView>, d: Discovery) -> Discovery
    decreases ts,
{
    if ts.len() == 0 {
        d
    } else {
        discovered_in(fsm, ts.last(), discovered_in_all(fsm, ts.drop_last(), d))
    }
}

/// Whether `name`, the first segment of a path in the machine `fsm`, is taken for a
/// machine.
pub fn names_subfsm(fsm: &str, name: &str) -> (r: bool)
    ensures
        r == is_subfsm(fsm@, name@),
{
    let chars: Vec<char> = to_chars(name);
    if chars.len() == 0 || !is_uppercase(chars[0]) {
        return false;
    }
    if same(name, "Self") || same(name, fsm) || same(name, "Transition") || same(name, "Option")
        || same(name, "Result") || same(name, "String") {
        return false;
    }
    if ends_with(name, "Event") || ends_with(name, "Evt") || ends_with(name, "Context")
        || ends_with(name, "Ctx") || ends_with(name, "State") {
        return false;
    }
    has_lowercase(&chars) || ends_with(name, "FSM") || ends_with(name, "Fsm")
}

/// Whether one of `chars` is a lower case letter.
fn has_lowercase(chars: &Vec<char>) -> (r: bool)
    ensures
        r == exists|i: int| 0 <= i < chars@.len() && is_lower(#[trigger] chars@[i]),
{
    let mut i: usize = 0;
    while i < chars.len()
        invariant
            i <= chars@.len(),
            forall|k: int| 0 <= k < i ==> !is_lower(#[trigger] chars@[k]),
        decreases chars@.len() - i,
    {
        if is_lowercase(chars[i]) {
            return true;
        }
        i = i + 1;
    }
    false
}

/// Discovers the machines that one machine runs.
#[derive(Debug)]
pub struct SubFsmExtractor {
    pub fsm_name: String,
    pub discovered: NameSet,
    pub context_fields: NameSet,
}

impl SubFsmExtractor {
    /// What the extractor has discovered.
    pub open spec fn found(&self) -> Discovery {
        Discovery { machines: self.discovered@, fields: self.context_fields@ }
    }

    /// Nothing has been discovered twice.
    pub open spec fn wf(&self) -> bool {
        self.discovered.wf() && self.context_fields.wf()
    }

    /// An extractor that has discovered nothing yet.
    pub fn new(fsm_name: String) -> (r: Self)
        ensures
            r.fsm_name == fsm_name,
            r.found() == (Discovery { machines: Seq::empty(), fields: Seq::empty() }),
            r.wf(),
    {
        SubFsmExtractor { fsm_name, discovered: NameSet::new(), context_fields: NameSet::new() }
    }

    /// Looks at the node `node`, but not at what is below it.
    fn notice(&mut self, node: &SyntaxTree)
        ensures
            final(self).fsm_name == old(self).fsm_name,
            final(self).found() == noticed(old(self).fsm_name@, node@, old(self).found()),
            old(self).wf() ==> final(self).wf(),
    {
        if node.is_kind("PATH") {
            let path: String = replace_all(node.text.as_str(), " ", "");
            let segments: Vec<String> = split_on(path.as_str(), "::");
            assert(views(segments@)[0] == segments@[0]@);
            if segments.len() >= 2 && names_subfsm(self.fsm_name.as_str(), segments[0].as_str()) {
                self.discovered.insert(segments[0].clone());
            }
        } else if node.is_kind("FIELD_EXPR") {
            match node.nth(Role::Name, 0) {
                Some(i) => {
                    assert(node@.children[i as int] == node.children@[i as int]@);
                    self.context_fields.insert(node.children[i].text.clone());
                },
                None => {},
            }
        }
    }

    /// Looks at `node` and at everything below it.
    pub fn extract(&mut self, node: &SyntaxTree)
        ensures
            final(self).fsm_name == old(self).fsm_name,
            final(self).found() == discovered_in(old(self).fsm_name@, node@, old(self).found()),
            old(self).wf() ==> final(self).wf(),
        decreases *node,
    {
        self.notice(node);
        let ghost fsm = old(self).fsm_name@;
        let ghost ts = node@.children;
        let ghost start = self.found();
        let mut i: usize = 0;
        assert(ts.take(0) =~= Seq::<TreeView>::empty());
        while i < node.children.len()
            invariant
                ts == node@.children,
                ts.len() == node.children@.len(),
                i <= node.children@.len(),
                fsm == old(self).fsm_name@,
                self.fsm_name == old(self).fsm_name,
                old(self).wf() ==> self.wf(),
                self.found() == discovered_in_all(fsm, ts.take(i as int), start),
            decreases node.children@.len() - i,
        {
            assert(ts[i as int] == node.children@[i as int]@);
            assert(ts.take(i + 1).drop_last() =~= ts.take(i as int));
            self.extract(&node.children[i]);
            i = i + 1;
        }
        assert(ts.take(i as int) =~= ts);
    }
}

/// Everything in `names` is taken for a machine by the machine `fsm`.
pub open spec fn all_subfsms(fsm: Seq<char>, names: Seq<Seq<char>>) -> bool {
    forall|i: int| 0 <= i < names.len() ==> is_subfsm(fsm, #[trigger] names[i])
}

/// Only what is taken for a machine is discovered as one, and so never the machine itself.
pub proof fn law_discovered_are_subfsms(fsm: Seq<char>, t: TreeView, d: Discovery)
    requires
        all_subfsms(fsm, d.machines),
    ensures
        all_subfsms(fsm, discovered_in(fsm, t, d).machines),
        !discovered_in(fsm, t, d).machines.contains(fsm),
    decreases t, 1nat,
{
    lemma_all_discovered_are_subfsms(fsm, t.children, noticed(fsm, t, d));
}

proof fn lemma_all_discovered_are_subfsms(fsm: Seq<char>, ts: Seq<TreeView>, d: Discovery)
    requires
        all_subfsms(fsm, d.machines),
    ensures
        all_subfsms(fsm, discovered_in_all(fsm, ts, d).machines),
    decreases ts, 0nat,
{
    if ts.len() > 0 {
        lemma_all_discovered_are_subfsms(fsm, ts.drop_last(), d);
        law_discovered_are_subfsms(fsm, ts.last(), discovered_in_all(fsm, ts.drop_last(), d));
    }
}

} // verus!
