//! The transitions of a state, found in the source text of what it does on an event.
use vstd::prelude::*;

use crate::labels::{clean_tokens, cleaned, copy_label, label_view, merge_labels, merged};
use crate::model::{transition_views, TransitionInfo, TransitionView};
use crate::names::{with_name, NameMap, NameSet};
use crate::syntax::{
    condition_place, else_place, nth_place, then_place, Role, SyntaxTree, TreeView,
};
use crate::text::{
    before, concat2, contains, holds, pieces, replace_all, replaced, same, split_on, starts,
    starts_with, text_before, trim, trimmed, views,
};

verus! {

/// Where transitions are looked for.
pub struct Scope {
    /// The name of the machine.
    pub fsm: Seq<char>,
    /// The state that the transitions start from.
    pub source: Seq<char>,
    /// Labels tell the guards.
    pub guards: bool,
    /// The paths that each function mentions.
    pub mentions: Map<Seq<char>, NameSet>,
}

/// What has been found.
#[verifier::ext_equal]
pub struct Found {
    pub transitions: Seq<TransitionView>,
    /// The functions that have been looked into.
    pub visited: Seq<Seq<char>>,
}

/// The part of a path behind its last `::`.
pub open spec fn last_segment(path: Seq<char>) -> Seq<char> {
    pieces(path, "::"@).last()
}

/// The state that `text`, an argument of `Transition::To`, names: what stands before a
/// parenthesis or a brace, and there behind the last `::`. The machine itself is no
/// state of its own.
pub open spec fn target_of(fsm: Seq<char>, text: Seq<char>) -> Option<Seq<char>> {
    let path = trimmed(before(before(replaced(text, " "@, ""@), "("@), "{"@));
    let target = last_segment(path);
    if target == fsm || target == "Self"@ || target.len() == 0 {
        None
    } else {
        Some(target)
    }
}

/// The label of a transition: the label at that place without the white space around
/// it, or none.
pub open spec fn shown(label: Option<Seq<char>>) -> Seq<char> {
    match label {
        Some(l) => trimmed(l),
        None => trimmed(Seq::empty()),
    }
}

/// The label of a transition that is found by following the function `func`.
pub open spec fn shown_via(label: Option<Seq<char>>, func: Seq<char>) -> Seq<char> {
    match label {
        Some(l) => trimmed(l),
        None => trimmed("(via "@ + func + ")"@),
    }
}

/// The state that the path `name` mentions, if it mentions one of the machine `fsm`.
pub open spec fn mentioned_state(fsm: Seq<char>, name: Seq<char>) -> Option<Seq<char>> {
    let state = last_segment(name);
    if (starts(name, fsm + "::"@) || starts(name, "Self::"@)) && state != fsm && state != "Self"@ {
        Some(state)
    } else {
        None
    }
}

/// The transitions to the states that `names` mention.
pub open spec fn mentioned(
    sc: Scope,
    label: Option<Seq<char>>,
    func: Seq<char>,
    names: Seq<Seq<char>>,
) -> Seq<TransitionView>
    decreases names.len(),
{
    if names.len() == 0 {
        Seq::empty()
    } else {
        let before = mentioned(sc, label, func, names.drop_last());
        match mentioned_state(sc.fsm, names.last()) {
            Some(state) => before.push(
                TransitionView { source: sc.source, target: state, label: shown_via(label, func) },
            ),
            None => before,
        }
    }
}

/// What is found once the function `func` has been followed. It is followed once: the
/// states that it mentions may be gone to.
pub open spec fn followed(
    sc: Scope,
    label: Option<Seq<char>>,
    func: Seq<char>,
    found: Found,
) -> Found {
    if found.visited.contains(func) {
        found
    } else {
        Found {
            transitions: found.transitions + if sc.mentions.dom().contains(func) {
                mentioned(sc, label, func, sc.mentions[func]@)
            } else {
                Seq::empty()
            },
            visited: with_name(found.visited, func),
        }
    }
}

/// The text of the node at `place`, or none.
pub open spec fn text_at(ts: Seq<TreeView>, place: Option<int>) -> Seq<char> {
    match place {
        Some(i) => ts[i].text,
        None => Seq::empty(),
    }
}

/// The label inside a match arm: the pattern is an event, and the guard is a guard.
pub open spec fn arm_label(sc: Scope, label: Option<Seq<char>>, ts: Seq<TreeView>) -> Seq<char> {
    let event = merged(label, cleaned(text_at(ts, nth_place(ts, Role::Pat, 0))), false);
    match nth_place(ts, Role::Guard, 0) {
        Some(i) => if sc.guards {
            merged(Some(event), cleaned(ts[i].text), true)
        } else {
            event
        },
        None => event,
    }
}

/// A condition that takes an event apart.
pub open spec fn is_event(cond: Seq<char>) -> bool {
    holds(cond, "let"@) && (holds(cond, "evt"@) || holds(cond, "event"@))
}

/// The condition of an `if`, as it is shown.
pub open spec fn shown_condition(ts: Seq<TreeView>) -> Seq<char> {
    match condition_place(ts) {
        Some(i) => cleaned(ts[i].text),
        None => Seq::empty(),
    }
}

/// The label inside an `if`: a condition that takes an event apart is an event, and any
/// other one a guard.
pub open spec fn if_label(sc: Scope, label: Option<Seq<char>>, ts: Seq<TreeView>) -> Option<
    Seq<char>,
> {
    let cond = shown_condition(ts);
    if cond.len() > 0 && sc.guards {
        Some(merged(label, cond, !is_event(cond)))
    } else {
        label
    }
}

/// The state that a call with the parts `ts` goes to by its first argument.
pub open spec fn call_target(fsm: Seq<char>, ts: Seq<TreeView>) -> Option<Seq<char>> {
    match nth_place(ts, Role::Args, 0) {
        Some(a) => match nth_place(ts[a].children, Role::Expr, 0) {
            Some(e) => target_of(fsm, ts[a].children[e].text),
            None => None,
        },
        None => None,
    }
}

/// What is found once a call with the parts `ts` has been looked at, its parts not yet.
pub open spec fn called(
    sc: Scope,
    label: Option<Seq<char>>,
    ts: Seq<TreeView>,
    found: Found,
) -> Found {
    match nth_place(ts, Role::Expr, 0) {
        Some(i) => {
            let path = replaced(ts[i].text, " "@, ""@);
            if holds(path, "Transition::To"@) {
                match call_target(sc.fsm, ts) {
                    Some(target) => Found {
                        transitions: found.transitions.push(
                            TransitionView { source: sc.source, target, label: shown(label) },
                        ),
                        visited: found.visited,
                    },
                    None => found,
                }
            } else {
                followed(sc, label, last_segment(path), found)
            }
        },
        None => found,
    }
}

/// What is found once a method call with the parts `ts` has been looked at, its parts
/// not yet.
pub open spec fn method_called(
    sc: Scope,
    label: Option<Seq<char>>,
    ts: Seq<TreeView>,
    found: Found,
) -> Found {
    match nth_place(ts, Role::Name, 0) {
        Some(i) => followed(sc, label, ts[i].text, found),
        None => found,
    }
}

/// What is found once the whole of `t` has been looked at, where `label` is the label
/// around it.
pub open spec fn extracted(
    sc: Scope,
    label: Option<Seq<char>>,
    t: TreeView,
    found: Found,
) -> Found
    decreases t,
{
    if t.kind == "MATCH_ARM"@ {
        extracted_at(
            sc,
            Some(arm_label(sc, label, t.children)),
            t.children,
            nth_place(t.children, Role::Expr, 0),
            found,
        )
    } else if t.kind == "IF_EXPR"@ {
        let inner = if_label(sc, label, t.children);
        let then_found = extracted_at(sc, inner, t.children, then_place(t.children), found);
        extracted_at(sc, inner, t.children, else_place(t.children), then_found)
    } else if t.kind == "CALL_EXPR"@ {
        extracted_all(sc, label, t.children, called(sc, label, t.children, found))
    } else if t.kind == "METHOD_CALL_EXPR"@ {
        extracted_all(sc, label, t.children, method_called(sc, label, t.children, found))
    } else {
        extracted_all(sc, label, t.children, found)
    }
}

/// What is found once the tree at `place` has been looked at, if there is one.
pub open spec fn extracted_at(
    sc: Scope,
    label: Option<Seq<char>>,
    ts: Seq<TreeView>,
    place: Option<int>,
    found: Found,
) -> Found
    decreases ts,
{
    match place {
        Some(i) => if 0 <= i < ts.len() {
            extracted(sc, label, ts[i], found)
        } else {
            found
        },
        None => found,
    }
}

/// What is found once all of `ts` have been looked at, one after the other.
pub open spec fn extracted_all(
    sc: Scope,
    label: Option<Seq<char>>,
    ts: Seq<TreeView>,
    found: Found,
) -> Found
    decreases ts,
{
    if ts.len() == 0 {
        found
    } else {
        extracted(sc, label, ts.last(), extracted_all(sc, label, ts.drop_last(), found))
    }
}

/// Finds the transitions of one state.
#[derive(Debug)]
pub struct TransitionExtractor<'a> {
    pub fsm_name: String,
    pub source_state: String,
    pub current_label: Option<String>,
    pub transitions: Vec<TransitionInfo>,
    pub include_guards: bool,
    pub function_mentions: &'a NameMap<NameSet>,
    pub visited_functions: NameSet,
}

/// The part of a path behind its last `::`.
pub fn last_of_path(path: &str) -> (r: String)
    ensures
        r@ == last_segment(path@),
{
    let parts: Vec<String> = split_on(path, "::");
    assert(views(parts@).last() == parts@.last()@);
    parts[parts.len() - 1].clone()
}

impl<'a> TransitionExtractor<'a> {
    /// Where the extractor looks.
    pub open spec fn scope(&self) -> Scope {
        Scope {
            fsm: self.fsm_name@,
            source: self.source_state@,
            guards: self.include_guards,
            mentions: self.function_mentions@,
        }
    }

    /// What the extractor has found.
    pub open spec fn found(&self) -> Found {
        Found {
            transitions: transition_views(self.transitions@),
            visited: self.visited_functions@,
        }
    }

    /// The label around the place where the extractor is.
    pub open spec fn label(&self) -> Option<Seq<char>> {
        label_view(self.current_label)
    }

    /// Everything but what has been found is the same in both.
    pub open spec fn same_place(&self, other: &Self) -> bool {
        &&& self.fsm_name == other.fsm_name
        &&& self.source_state == other.source_state
        &&& self.current_label == other.current_label
        &&& self.include_guards == other.include_guards
        &&& self.function_mentions == other.function_mentions
    }

    /// An extractor that has found nothing yet.
    pub fn new(
        fsm_name: String,
        source_state: String,
        include_guards: bool,
        function_mentions: &'a NameMap<NameSet>,
    ) -> (r: Self)
        ensures
            r.fsm_name == fsm_name,
            r.source_state == source_state,
            r.include_guards == include_guards,
            r.function_mentions == function_mentions,
            r.current_label is None,
            r.transitions@.len() == 0,
            r.visited_functions@.len() == 0,
            r.found() == (Found { transitions: Seq::empty(), visited: Seq::empty() }),
    {
        let r = TransitionExtractor {
            fsm_name,
            source_state,
            current_label: None,
            transitions: Vec::new(),
            include_guards,
            function_mentions,
            visited_functions: NameSet::new(),
        };
        assert(r.found().transitions =~= Seq::empty());
        r
    }

    /// Adds a transition to `target` under `label`.
    fn add_transition(&mut self, target: String, label: String)
        ensures
            final(self).same_place(old(self)),
            final(self).visited_functions == old(self).visited_functions,
            transition_views(final(self).transitions@) == transition_views(
                old(self).transitions@,
            ).push(
                TransitionView {
                    source: old(self).source_state@,
                    target: target@,
                    label: label@,
                },
            ),
    {
        let t = TransitionInfo { source: self.source_state.clone(), target, label };
        self.transitions.push(t);
        assert(transition_views(self.transitions@) == transition_views(old(self).transitions@).push(
            t@,
        ));
    }

    /// Follows the function `func_name`, once: the states that it mentions may be gone to.
    pub fn follow_function(&mut self, func_name: &str)
        ensures
            final(self).same_place(old(self)),
            final(self).found() == followed(
                old(self).scope(),
                old(self).label(),
                func_name@,
                old(self).found(),
            ),
    {
        if self.visited_functions.contains(func_name) {
            return;
        }
        self.visited_functions.insert(func_name.to_string());
        let label: String = match &self.current_label {
            Some(l) => trim(l.as_str()),
            None => {
                let mut via: String = concat2("(via ", func_name);
                via.append(")");
                trim(via.as_str())
            },
        };
        let prefix: String = concat2(self.fsm_name.as_str(), "::");
        let mentions: &'a NameMap<NameSet> = self.function_mentions;
        match mentions.get(func_name) {
            Some(names) => {
                let ghost sc = old(self).scope();
                let ghost lv = old(self).label();
                let ghost all = names@;
                let ghost before = transition_views(old(self).transitions@);
                let mut i: usize = 0;
                assert(all.take(0) == Seq::<Seq<char>>::empty());
                assert(before + Seq::<TransitionView>::empty() == before);
                while i < names.len()
                    invariant
                        i <= all.len(),
                        all == names@,
                        sc == old(self).scope(),
                        lv == old(self).label(),
                        before == transition_views(old(self).transitions@),
                        label@ == shown_via(lv, func_name@),
                        prefix@ == sc.fsm + "::"@,
                        self.same_place(old(self)),
                        self.visited_functions@ == with_name(
                            old(self).visited_functions@,
                            func_name@,
                        ),
                        transition_views(self.transitions@) == before + mentioned(
                            sc,
                            lv,
                            func_name@,
                            all.take(i as int),
                        ),
                    decreases all.len() - i,
                {
                    let name: &String = names.get(i);
                    let ghost done = all.take(i + 1);
                    assert(done.drop_last() == all.take(i as int));
                    if starts_with(name.as_str(), prefix.as_str()) || starts_with(
                        name.as_str(),
                        "Self::",
                    ) {
                        let state: String = last_of_path(name.as_str());
                        if !same(state.as_str(), self.fsm_name.as_str()) && !same(
                            state.as_str(),
                            "Self",
                        ) {
                            self.add_transition(state, label.clone());
                        }
                    }
                    assert(transition_views(self.transitions@) =~= before + mentioned(
                        sc,
                        lv,
                        func_name@,
                        done,
                    ));
                    i = i + 1;
                }
                assert(all.take(i as int) == all);
            },
            None => {
                assert(self.found().transitions =~= old(self).found().transitions
                    + Seq::<TransitionView>::empty());
            },
        }
    }

    /// The state that `text`, an argument of `Transition::To`, names.
    pub fn extract_target_state(&self, text: &str) -> (r: Option<String>)
        ensures
            label_view(r) == target_of(self.fsm_name@, text@),
    {
        let joined: String = replace_all(text, " ", "");
        let head: String = text_before(joined.as_str(), "(");
        let stem: String = text_before(head.as_str(), "{");
        let path: String = trim(stem.as_str());
        let target: String = last_of_path(path.as_str());
        if same(target.as_str(), self.fsm_name.as_str()) || same(target.as_str(), "Self")
            || target.as_str().is_empty() {
            None
        } else {
            Some(target)
        }
    }

    /// Looks at a call, but not at its parts.
    fn visit_call(&mut self, node: &SyntaxTree)
        ensures
            final(self).same_place(old(self)),
            final(self).found() == called(
                old(self).scope(),
                old(self).label(),
                node@.children,
                old(self).found(),
            ),
    {
        let ghost ts = node@.children;
        match node.nth(Role::Expr, 0) {
            Some(i) => {
                assert(ts[i as int] == node.children@[i as int]@);
                let path: String = replace_all(node.children[i].text.as_str(), " ", "");
                if contains(path.as_str(), "Transition::To") {
                    match node.nth(Role::Args, 0) {
                        Some(a) => {
                            assert(ts[a as int] == node.children@[a as int]@);
                            let args: &SyntaxTree = &node.children[a];
                            match args.nth(Role::Expr, 0) {
                                Some(e) => {
                                    assert(args@.children[e as int] == args.children@[e as int]@);
                                    let target: Option<String> = self.extract_target_state(
                                        args.children[e].text.as_str(),
                                    );
                                    match target {
                                        Some(state) => {
                                            let label: String = match &self.current_label {
                                                Some(l) => trim(l.as_str()),
                                                None => trim(String::new().as_str()),
                                            };
                                            self.add_transition(state, label);
                                        },
                                        None => {},
                                    }
                                },
                                None => {},
                            }
                        },
                        None => {},
                    }
                } else {
                    let func: String = last_of_path(path.as_str());
                    self.follow_function(func.as_str());
                }
            },
            None => {},
        }
    }

    /// Looks at a method call, but not at its parts.
    fn visit_method_call(&mut self, node: &SyntaxTree)
        ensures
            final(self).same_place(old(self)),
            final(self).found() == method_called(
                old(self).scope(),
                old(self).label(),
                node@.children,
                old(self).found(),
            ),
    {
        match node.nth(Role::Name, 0) {
            Some(i) => {
                assert(node@.children[i as int] == node.children@[i as int]@);
                self.follow_function(node.children[i].text.as_str());
            },
            None => {},
        }
    }

    /// Looks at everything below `node`, in the order of the text.
    fn extract_children(&mut self, node: &SyntaxTree)
        ensures
            final(self).same_place(old(self)),
            final(self).found() == extracted_all(
                old(self).scope(),
                old(self).label(),
                node@.children,
                old(self).found(),
            ),
        decreases *node, 0nat,
    {
        let ghost ts = node@.children;
        let mut i: usize = 0;
        assert(ts.take(0) == Seq::<TreeView>::empty());
        while i < node.children.len()
            invariant
                ts == node@.children,
                i <= node.children@.len(),
                ts.len() == node.children@.len(),
                self.same_place(old(self)),
                self.found() == extracted_all(
                    old(self).scope(),
                    old(self).label(),
                    ts.take(i as int),
                    old(self).found(),
                ),
            decreases node.children@.len() - i,
        {
            assert(ts[i as int] == node.children@[i as int]@);
            let ghost done = ts.take(i + 1);
            assert(done.drop_last() == ts.take(i as int));
            self.extract(&node.children[i]);
            i = i + 1;
        }
        assert(ts.take(i as int) == ts);
    }

    /// The label inside the match arm `node`.
    fn label_of_arm(&self, node: &SyntaxTree) -> (r: String)
        ensures
            r@ == arm_label(self.scope(), self.label(), node@.children),
    {
        let ghost ts = node@.children;
        let pat: String = match node.nth(Role::Pat, 0) {
            Some(i) => {
                assert(ts[i as int] == node.children@[i as int]@);
                node.children[i].text.clone()
            },
            None => String::new(),
        };
        let event: String = merge_labels(
            copy_label(&self.current_label),
            clean_tokens(pat),
            false,
        );
        if !self.include_guards {
            return event;
        }
        match node.nth(Role::Guard, 0) {
            Some(i) => {
                assert(ts[i as int] == node.children@[i as int]@);
                let guard: String = clean_tokens(node.children[i].text.clone());
                merge_labels(Some(event), guard, true)
            },
            None => event,
        }
    }

    /// The label inside the `if` that is `node`.
    fn label_of_if(&self, node: &SyntaxTree) -> (r: Option<String>)
        ensures
            label_view(r) == if_label(self.scope(), self.label(), node@.children),
    {
        let ghost ts = node@.children;
        let cond: String = match node.condition() {
            Some(i) => {
                assert(ts[i as int] == node.children@[i as int]@);
                clean_tokens(node.children[i].text.clone())
            },
            None => String::new(),
        };
        if cond.as_str().is_empty() || !self.include_guards {
            return copy_label(&self.current_label);
        }
        let event: bool = contains(cond.as_str(), "let") && (contains(cond.as_str(), "evt")
            || contains(cond.as_str(), "event"));
        Some(merge_labels(copy_label(&self.current_label), cond, !event))
    }

    /// Looks at the whole of `node`. What is found goes to `transitions`.
    pub fn extract(&mut self, node: &SyntaxTree)
        ensures
            final(self).same_place(old(self)),
            final(self).found() == extracted(
                old(self).scope(),
                old(self).label(),
                node@,
                old(self).found(),
            ),
        decreases *node, 1nat,
    {
        let ghost ts = node@.children;
        if node.is_kind("MATCH_ARM") {
            let inner: String = self.label_of_arm(node);
            let outer: Option<String> = copy_label(&self.current_label);
            self.current_label = Some(inner);
            match node.nth(Role::Expr, 0) {
                Some(i) => {
                    assert(ts[i as int] == node.children@[i as int]@);
                    self.extract(&node.children[i]);
                },
                None => {},
            }
            self.current_label = outer;
        } else if node.is_kind("IF_EXPR") {
            let inner: Option<String> = self.label_of_if(node);
            let outer: Option<String> = copy_label(&self.current_label);
            self.current_label = inner;
            match node.then_branch() {
                Some(i) => {
                    assert(ts[i as int] == node.children@[i as int]@);
                    self.extract(&node.children[i]);
                },
                None => {},
            }
            match node.else_branch() {
                Some(i) => {
                    assert(ts[i as int] == node.children@[i as int]@);
                    self.extract(&node.children[i]);
                },
                None => {},
            }
            self.current_label = outer;
        } else if node.is_kind("CALL_EXPR") {
            self.visit_call(node);
            self.extract_children(node);
        } else if node.is_kind("METHOD_CALL_EXPR") {
            self.visit_method_call(node);
            self.extract_children(node);
        } else {
            self.extract_children(node);
        }
    }
}

} // verus!
