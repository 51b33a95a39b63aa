//! What is found in the expressions of a procedural macro's input: transitions, and the
//! machines that are run.
use vstd::prelude::*;

use crate::labels::{copy_label, label_view};
use crate::model::{transition_views, TransitionInfo, TransitionView};
use crate::names::{with_name, NameSet};
use crate::subfsm::{all_subfsms, is_subfsm, names_subfsm};
use crate::text::{
    before, concat2, contains, holds, join_words, lemma_holds_splits, pieces, replace_all,
    replaced, same, split_on, text_before, trim, trimmed, views, words_joined,
};

verus! {

/// An argument of a call.
#[derive(Debug)]
pub enum Argument {
    /// A path, a struct literal, or a call of a path: the segments of the path.
    Named(Vec<String>),
    /// A call of anything else.
    Computed,
    /// The text of any other expression.
    Written(String),
}

/// What a part of an expression is.
#[derive(Debug)]
pub enum Shape {
    /// An arm of a match: its pattern, and its guard.
    Arm(String, Option<String>),
    /// An `if`: its condition.
    If(String),
    /// A call: the text of the function, if it is a path, and the first argument.
    Call(Option<String>, Option<Argument>),
    /// A path: its segments.
    Path(Vec<String>),
    /// Anything else.
    Other,
}

/// An expression, with its parts in the order of the text.
#[derive(Debug)]
pub struct ExprTree {
    pub shape: Shape,
    pub parts: Vec<ExprTree>,
}

/// What an [`Argument`] says.
#[verifier::ext_equal]
pub enum ArgumentView {
    Named(Seq<Seq<char>>),
    Computed,
    Written(Seq<char>),
}

/// What a [`Shape`] says.
#[verifier::ext_equal]
pub enum ShapeView {
    Arm(Seq<char>, Option<Seq<char>>),
    If(Seq<char>),
    Call(Option<Seq<char>>, Option<ArgumentView>),
    Path(Seq<Seq<char>>),
    Other,
}

/// What an [`ExprTree`] says.
#[verifier::ext_equal]
pub struct ExprView {
    pub shape: ShapeView,
    pub parts: Seq<ExprView>,
}

impl View for Argument {
    type V = ArgumentView;

    open spec fn view(&self) -> ArgumentView {
        match self {
            Argument::Named(segments) => ArgumentView::Named(views(segments@)),
            Argument::Computed => ArgumentView::Computed,
            Argument::Written(text) => ArgumentView::Written(text@),
        }
    }
}

impl View for Shape {
    type V = ShapeView;

    open spec fn view(&self) -> ShapeView {
        match self {
            Shape::Arm(pattern, guard) => ShapeView::Arm(pattern@, label_view(*guard)),
            Shape::If(condition) => ShapeView::If(condition@),
            Shape::Call(function, argument) => ShapeView::Call(
                label_view(*function),
                match argument {
                    Some(a) => Some(a@),
                    None => None,
                },
            ),
            Shape::Path(segments) => ShapeView::Path(views(segments@)),
            Shape::Other => ShapeView::Other,
        }
    }
}

/// What the expression `e` says.
pub open spec fn expr_view(e: ExprTree) -> ExprView
    decreases e,
{
    ExprView {
        shape: e.shape@,
        parts: Seq::new(
            e.parts@.len(),
            |i: int|
                if 0 <= i < e.parts@.len() {
                    expr_view(e.parts@[i])
                } else {
                    arbitrary()
                },
        ),
    }
}

impl View for ExprTree {
    type V = ExprView;

    open spec fn view(&self) -> ExprView {
        expr_view(*self)
    }
}

/// A step of a walk through an expression.
#[derive(Debug)]
pub enum ExprStep {
    /// The walk comes to a part from above.
    Enter(Shape),
    /// The walk goes back up.
    Leave,
}

/// What an [`ExprStep`] says.
pub enum ExprStepView {
    Enter(ShapeView),
    Leave,
}

impl View for ExprStep {
    type V = ExprStepView;

    open spec fn view(&self) -> ExprStepView {
        match self {
            ExprStep::Enter(shape) => ExprStepView::Enter(shape@),
            ExprStep::Leave => ExprStepView::Leave,
        }
    }
}

/// What several steps say.
pub open spec fn expr_step_views(steps: Seq<ExprStep>) -> Seq<ExprStepView> {
    steps.map_values(|s: ExprStep| s@)
}

/// The position behind the step back up at `j`, if there is one.
pub open spec fn past_leave(steps: Seq<ExprStepView>, j: int) -> int {
    if j < steps.len() {
        j + 1
    } else {
        j
    }
}

/// The parts that the walk comes to at `i` and behind, before it goes back up, and the
/// position where it does.
pub open spec fn forest(steps: Seq<ExprStepView>, i: int) -> (Seq<ExprView>, int)
    decreases steps.len() - i,
{
    if !(0 <= i < steps.len()) {
        (Seq::empty(), i)
    } else {
        match steps[i] {
            ExprStepView::Leave => (Seq::empty(), i),
            ExprStepView::Enter(shape) => {
                let (parts, j) = forest(steps, i + 1);
                if i < j <= steps.len() {
                    let (rest, end) = forest(steps, past_leave(steps, j));
                    (seq![ExprView { shape, parts }] + rest, end)
                } else {
                    (Seq::empty(), i)
                }
            },
        }
    }
}

/// The expression that `steps` walk through.
pub open spec fn grown(steps: Seq<ExprStepView>) -> ExprView {
    ExprView { shape: ShapeView::Other, parts: forest(steps, 0).0 }
}

/// The same texts.
fn copy_texts(texts: &Vec<String>) -> (r: Vec<String>)
    ensures
        views(r@) == views(texts@),
{
    let mut r: Vec<String> = Vec::new();
    let mut i: usize = 0;
    while i < texts.len()
        invariant
            i <= texts@.len(),
            views(r@) == views(texts@).take(i as int),
        decreases texts@.len() - i,
    {
        let ghost before = r@;
        r.push(texts[i].clone());
        assert(views(r@) =~= views(before).push(texts@[i as int]@));
        assert(views(texts@).take(i + 1) =~= views(texts@).take(i as int).push(
            views(texts@)[i as int],
        ));
        i = i + 1;
    }
    assert(views(texts@).take(i as int) =~= views(texts@));
    r
}

/// The same shape.
fn copy_shape(shape: &Shape) -> (r: Shape)
    ensures
        r@ == shape@,
{
    match shape {
        Shape::Arm(pattern, guard) => Shape::Arm(pattern.clone(), copy_label(guard)),
        Shape::If(condition) => Shape::If(condition.clone()),
        Shape::Call(function, argument) => {
            let copied: Option<Argument> = match argument {
                Some(a) => Some(
                    match a {
                        Argument::Named(segments) => Argument::Named(copy_texts(segments)),
                        Argument::Computed => Argument::Computed,
                        Argument::Written(text) => Argument::Written(text.clone()),
                    },
                ),
                None => None,
            };
            Shape::Call(copy_label(function), copied)
        },
        Shape::Path(segments) => Shape::Path(copy_texts(segments)),
        Shape::Other => Shape::Other,
    }
}

/// What several expressions say.
pub open spec fn expr_views(es: Seq<ExprTree>) -> Seq<ExprView> {
    es.map_values(|e: ExprTree| e@)
}

/// Reads the parts that the walk comes to at `from` and behind, before it goes back up.
fn grow_parts(steps: &Vec<ExprStep>, from: usize) -> (r: (Vec<ExprTree>, usize))
    requires
        from <= steps.len(),
    ensures
        (expr_views(r.0@), r.1 as int) == forest(expr_step_views(steps@), from as int),
        from <= r.1 <= steps.len(),
    decreases steps.len() - from,
{
    let ghost sv = expr_step_views(steps@);
    let mut parts: Vec<ExprTree> = Vec::new();
    let mut i: usize = from;
    assert(expr_views(parts@) =~= Seq::empty());
    proof {
        assert(expr_views(parts@) + forest(sv, from as int).0 =~= forest(sv, from as int).0);
    }
    while i < steps.len()
        invariant
            sv == expr_step_views(steps@),
            from <= i <= steps.len(),
            (expr_views(parts@) + forest(sv, i as int).0, forest(sv, i as int).1) == forest(
                sv,
                from as int,
            ),
        decreases steps.len() - i,
    {
        assert(sv[i as int] == steps@[i as int]@);
        match &steps[i] {
            ExprStep::Leave => {
                assert(expr_views(parts@) + Seq::<ExprView>::empty() =~= expr_views(parts@));
                return (parts, i);
            },
            ExprStep::Enter(shape) => {
                let (inner, j): (Vec<ExprTree>, usize) = grow_parts(steps, i + 1);
                let ghost before = parts@;
                let part = ExprTree { shape: copy_shape(shape), parts: inner };
                assert(part@.parts =~= expr_views(inner@));
                parts.push(part);
                assert(expr_views(parts@) =~= expr_views(before).push(part@));
                i = if j < steps.len() {
                    j + 1
                } else {
                    j
                };
                assert(expr_views(before) + (seq![part@] + forest(sv, i as int).0) =~= expr_views(
                    parts@,
                ) + forest(sv, i as int).0);
            },
        }
    }
    assert(expr_views(parts@) + Seq::<ExprView>::empty() =~= expr_views(parts@));
    (parts, i)
}

/// The expression that `steps` walk through.
pub fn grow(steps: &Vec<ExprStep>) -> (r: ExprTree)
    ensures
        r@ == grown(expr_step_views(steps@)),
{
    let (parts, _): (Vec<ExprTree>, usize) = grow_parts(steps, 0);
    let r = ExprTree { shape: Shape::Other, parts };
    assert(r@.parts =~= expr_views(parts@));
    r
}

/// The text `s` on one line, with single spaces, and without spaces round colons.
pub open spec fn tidied(s: Seq<char>) -> Seq<char> {
    let line = replaced(replaced(s, "\n"@, " "@), "\r"@, " "@);
    replaced(replaced(words_joined(line), " : "@, ":"@), " :: "@, "::"@)
}

/// The text `s` on one line, with single spaces, and without spaces round colons.
pub fn clean_tokens(s: String) -> (r: String)
    ensures
        r@ == tidied(s@),
{
    let lines: String = replace_all(s.as_str(), "\n", " ");
    let line: String = replace_all(lines.as_str(), "\r", " ");
    let words: String = join_words(line.as_str());
    let fields: String = replace_all(words.as_str(), " : ", ":");
    replace_all(fields.as_str(), " :: ", "::")
}

/// The label inside an `if` with this condition.
pub open spec fn condition_label(condition: Seq<char>) -> Seq<char> {
    "[if "@ + tidied(condition) + "]"@
}

/// The label inside an arm with this pattern and this guard.
pub open spec fn pattern_label(pattern: Seq<char>, guard: Option<Seq<char>>) -> Seq<char> {
    match guard {
        Some(g) => tidied(pattern) + " [if "@ + tidied(g) + "]"@,
        None => tidied(pattern),
    }
}

/// The state that the text `text` names: what stands behind the first `::`, or all of it,
/// without what follows in brackets.
pub open spec fn written_state(text: Seq<char>) -> Seq<char> {
    let s = replaced(text, " "@, ""@);
    let t = if holds(s, "::"@) {
        pieces(s, "::"@)[1]
    } else {
        s
    };
    trimmed(before(before(t, "("@), "{"@))
}

/// The state that an argument of `Transition::To` names.
pub open spec fn argument_state(a: ArgumentView) -> Option<Seq<char>> {
    match a {
        ArgumentView::Named(segments) => if segments.len() > 0 {
            Some(segments.last())
        } else {
            None
        },
        ArgumentView::Computed => None,
        ArgumentView::Written(text) => Some(written_state(text)),
    }
}

/// The state other than the machine `fsm` itself that an argument of `Transition::To` names.
pub open spec fn target_state(fsm: Seq<char>, a: ArgumentView) -> Option<Seq<char>> {
    match argument_state(a) {
        Some(state) => if state == fsm || state == "Self"@ {
            None
        } else {
            Some(state)
        },
        None => None,
    }
}

/// The state that a call of the function `function` goes to.
pub open spec fn call_state(
    fsm: Seq<char>,
    function: Option<Seq<char>>,
    argument: Option<ArgumentView>,
) -> Option<Seq<char>> {
    match (function, argument) {
        (Some(f), Some(a)) => if holds(replaced(f, " "@, ""@), "Transition::To"@) {
            target_state(fsm, a)
        } else {
            None
        },
        _ => None,
    }
}

/// The label inside a part of this shape, where `label` is the one around it.
pub open spec fn inner_label(shape: ShapeView, label: Option<Seq<char>>) -> Option<Seq<char>> {
    match shape {
        ShapeView::Arm(pattern, guard) => Some(pattern_label(pattern, guard)),
        ShapeView::If(condition) => Some(condition_label(condition)),
        _ => label,
    }
}

/// The label of a transition.
pub open spec fn shown_label(label: Option<Seq<char>>) -> Seq<char> {
    match label {
        Some(l) => l,
        None => Seq::empty(),
    }
}

/// The transitions of the state `source` of `fsm` that are found in `e`, outside in, and in
/// the order of the text.
pub open spec fn visited(
    fsm: Seq<char>,
    source: Seq<char>,
    label: Option<Seq<char>>,
    e: ExprView,
) -> Seq<TransitionView>
    decreases e,
{
    visited_here(fsm, source, label, e.shape) + visited_all(
        fsm,
        source,
        inner_label(e.shape, label),
        e.parts,
    )
}

/// The transition of a part of this shape itself.
pub open spec fn visited_here(
    fsm: Seq<char>,
    source: Seq<char>,
    label: Option<Seq<char>>,
    shape: ShapeView,
) -> Seq<TransitionView> {
    match shape {
        ShapeView::Call(function, argument) => match call_state(fsm, function, argument) {
            Some(target) => seq![TransitionView { source, target, label: shown_label(label) }],
            None => Seq::empty(),
        },
        _ => Seq::empty(),
    }
}

/// The transitions that are found in all of `es`.
pub open spec fn visited_all(
    fsm: Seq<char>,
    source: Seq<char>,
    label: Option<Seq<char>>,
    es: Seq<ExprView>,
) -> Seq<TransitionView>
    decreases es,
{
    if es.len() == 0 {
        Seq::empty()
    } else {
        visited_all(fsm, source, label, es.drop_last()) + visited(fsm, source, label, es.last())
    }
}

/// Finds the transitions of one state.
#[derive(Debug)]
pub struct TransitionVisitor {
    pub fsm_name: String,
    pub source_state: String,
    pub current_label: Option<String>,
    pub transitions: Vec<TransitionInfo>,
}

impl TransitionVisitor {
    /// Everything but what has been found is the same in both.
    pub open spec fn same_place(&self, other: &Self) -> bool {
        &&& self.fsm_name == other.fsm_name
        &&& self.source_state == other.source_state
        &&& self.current_label == other.current_label
    }

    /// A visitor that has found nothing yet.
    pub fn new(fsm_name: String, source_state: String) -> (r: Self)
        ensures
            r.fsm_name == fsm_name,
            r.source_state == source_state,
            r.current_label is None,
            transition_views(r.transitions@) == Seq::<TransitionView>::empty(),
    {
        let r = TransitionVisitor {
            fsm_name,
            source_state,
            current_label: None,
            transitions: Vec::new(),
        };
        assert(transition_views(r.transitions@) =~= Seq::<TransitionView>::empty());
        r
    }

    /// The state that `argument`, the one of a `Transition::To`, names.
    pub fn extract_target_state(&self, argument: &Argument) -> (r: Option<String>)
        ensures
            label_view(r) == target_state(self.fsm_name@, argument@),
    {
        let target: String = match argument {
            Argument::Named(segments) => {
                if segments.len() == 0 {
                    return None;
                }
                assert(views(segments@).last() == segments@[segments@.len() - 1]@);
                segments[segments.len() - 1].clone()
            },
            Argument::Computed => {
                return None;
            },
            Argument::Written(text) => name_of_text(text.as_str()),
        };
        if same(target.as_str(), self.fsm_name.as_str()) || same(target.as_str(), "Self") {
            None
        } else {
            Some(target)
        }
    }

    /// Visits a call, but not its parts.
    fn visit_expr_call(&mut self, function: &Option<String>, argument: &Option<Argument>)
        ensures
            final(self).same_place(old(self)),
            transition_views(final(self).transitions@) == transition_views(old(self).transitions@)
                + visited_here(
                old(self).fsm_name@,
                old(self).source_state@,
                label_view(old(self).current_label),
                Shape::Call(*function, *argument)@,
            ),
    {
        let ghost before = self.transitions@;
        assert(transition_views(before) + Seq::<TransitionView>::empty() =~= transition_views(before));
        match (function, argument) {
            (Some(f), Some(a)) => {
                let path: String = replace_all(f.as_str(), " ", "");
                if contains(path.as_str(), "Transition::To") {
                    match self.extract_target_state(a) {
                        Some(target) => {
                            let label: String = match &self.current_label {
                                Some(l) => l.clone(),
                                None => String::new(),
                            };
                            let t = TransitionInfo {
                                source: self.source_state.clone(),
                                target,
                                label,
                            };
                            self.transitions.push(t);
                            assert(transition_views(self.transitions@) =~= transition_views(before)
                                + seq![t@]);
                        },
                        None => {},
                    }
                }
            },
            _ => {},
        }
    }

    /// The label inside an arm of a match.
    fn visit_arm(&self, pattern: &String, guard: &Option<String>) -> (r: String)
        ensures
            r@ == pattern_label(pattern@, label_view(*guard)),
    {
        let mut label: String = clean_tokens(pattern.clone());
        match guard {
            Some(g) => {
                label.append(" [if ");
                label.append(clean_tokens(g.clone()).as_str());
                label.append("]");
            },
            None => {},
        }
        label
    }

    /// The label inside an `if`.
    fn visit_expr_if(&self, condition: &String) -> (r: String)
        ensures
            r@ == condition_label(condition@),
    {
        let mut label: String = concat2("[if ", clean_tokens(condition.clone()).as_str());
        label.append("]");
        label
    }

    /// Visits an expression and all its parts. What is found goes to `transitions`.
    pub fn visit_expr(&mut self, e: &ExprTree)
        ensures
            final(self).same_place(old(self)),
            transition_views(final(self).transitions@) == transition_views(old(self).transitions@)
                + visited(
                old(self).fsm_name@,
                old(self).source_state@,
                label_view(old(self).current_label),
                e@,
            ),
        decreases *e,
    {
        let ghost fsm = self.fsm_name@;
        let ghost source = self.source_state@;
        let ghost label = label_view(self.current_label);
        let ghost start = transition_views(self.transitions@);
        let outer: Option<String> = copy_label(&self.current_label);
        let ghost es = e@.parts;
        match &e.shape {
            Shape::Arm(pattern, guard) => {
                let inner: String = self.visit_arm(pattern, guard);
                self.current_label = Some(inner);
            },
            Shape::If(condition) => {
                let inner: String = self.visit_expr_if(condition);
                self.current_label = Some(inner);
            },
            Shape::Call(function, argument) => {
                self.visit_expr_call(function, argument);
            },
            _ => {},
        }
        let ghost here = visited_here(fsm, source, label, e@.shape);
        let ghost inner = inner_label(e@.shape, label);
        assert(transition_views(self.transitions@) =~= start + here);
        assert(label_view(self.current_label) == inner);
        let ghost placed = *self;
        let mut i: usize = 0;
        assert(es.take(0) =~= Seq::empty());
        assert(start + here =~= start + here + Seq::<TransitionView>::empty());
        while i < e.parts.len()
            invariant
                es == e@.parts,
                es.len() == e.parts@.len(),
                i <= e.parts@.len(),
                fsm == placed.fsm_name@,
                source == placed.source_state@,
                inner == label_view(placed.current_label),
                self.same_place(&placed),
                transition_views(self.transitions@) == start + here + visited_all(
                    fsm,
                    source,
                    inner,
                    es.take(i as int),
                ),
            decreases e.parts@.len() - i,
        {
            assert(es[i as int] == e.parts@[i as int]@);
            assert(es.take(i + 1).drop_last() =~= es.take(i as int));
            assert(es.take(i + 1).last() == es[i as int]);
            self.visit_expr(&e.parts[i]);
            assert(transition_views(self.transitions@) =~= start + here + visited_all(
                fsm,
                source,
                inner,
                es.take(i + 1),
            ));
            i = i + 1;
        }
        assert(es.take(i as int) =~= es);
        self.current_label = outer;
        assert(transition_views(self.transitions@) =~= start + visited(fsm, source, label, e@));
    }
}

/// The state that the text `text` names.
fn name_of_text(text: &str) -> (r: String)
    ensures
        r@ == written_state(text@),
{
    let s: String = replace_all(text, " ", "");
    proof {
        reveal_strlit("::");
    }
    let t: String = if contains(s.as_str(), "::") {
        let parts: Vec<String> = split_on(s.as_str(), "::");
        proof {
            lemma_holds_splits(s@, "::"@);
        }
        assert(views(parts@)[1] == parts@[1]@);
        parts[1].clone()
    } else {
        s
    };
    let head: String = text_before(t.as_str(), "(");
    let stem: String = text_before(head.as_str(), "{");
    trim(stem.as_str())
}

/// `names` with the machine that the path with these segments runs, if it runs one.
pub open spec fn with_path_machine(
    fsm: Seq<char>,
    segments: Seq<Seq<char>>,
    names: Seq<Seq<char>>,
) -> Seq<Seq<char>> {
    if segments.len() >= 2 && is_subfsm(fsm, segments[0]) {
        with_name(names, segments[0])
    } else {
        names
    }
}

/// `names` with the machines that the machine `fsm` runs in `e`.
pub open spec fn run_in(fsm: Seq<char>, e: ExprView, names: Seq<Seq<char>>) -> Seq<Seq<char>>
    decreases e,
{
    run_in_all(
        fsm,
        e.parts,
        match e.shape {
            ShapeView::Path(segments) => with_path_machine(fsm, segments, names),
            _ => names,
        },
    )
}

/// `names` with the machines that the machine `fsm` runs in all of `es`.
pub open spec fn run_in_all(
    fsm: Seq<char>,
    es: Seq<ExprView>,
    names: Seq<Seq<char>>,
) -> Seq<Seq<char>>
    decreases es,
{
    if es.len() == 0 {
        names
    } else {
        run_in(fsm, es.last(), run_in_all(fsm, es.drop_last(), names))
    }
}

/// Finds the machines that one machine runs.
#[derive(Debug)]
pub struct SubFsmVisitor {
    pub fsm_name: String,
    pub discovered: NameSet,
}

impl SubFsmVisitor {
    /// A visitor that has found nothing yet.
    pub fn new(fsm_name: String) -> (r: Self)
        ensures
            r.fsm_name == fsm_name,
            r.discovered@ == Seq::<Seq<char>>::empty(),
            r.discovered.wf(),
    {
        SubFsmVisitor { fsm_name, discovered: NameSet::new() }
    }

    /// Visits a path with these segments.
    pub fn visit_path(&mut self, segments: &Vec<String>)
        ensures
            final(self).fsm_name == old(self).fsm_name,
            final(self).discovered@ == with_path_machine(
                old(self).fsm_name@,
                views(segments@),
                old(self).discovered@,
            ),
            old(self).discovered.wf() ==> final(self).discovered.wf(),
    {
        if segments.len() >= 2 {
            assert(views(segments@)[0] == segments@[0]@);
            if names_subfsm(self.fsm_name.as_str(), segments[0].as_str()) {
                self.discovered.insert(segments[0].clone());
            }
        }
    }

    /// Visits an expression and all its parts.
    pub fn visit_expr(&mut self, e: &ExprTree)
        ensures
            final(self).fsm_name == old(self).fsm_name,
            final(self).discovered@ == run_in(old(self).fsm_name@, e@, old(self).discovered@),
            old(self).discovered.wf() ==> final(self).discovered.wf(),
        decreases *e,
    {
        match &e.shape {
            Shape::Path(segments) => {
                self.visit_path(segments);
            },
            _ => {},
        }
        let ghost fsm = old(self).fsm_name@;
        let ghost start = self.discovered@;
        let ghost es = e@.parts;
        let mut i: usize = 0;
        assert(es.take(0) =~= Seq::empty());
        while i < e.parts.len()
            invariant
                es == e@.parts,
                es.len() == e.parts@.len(),
                i <= e.parts@.len(),
                fsm == old(self).fsm_name@,
                self.fsm_name == old(self).fsm_name,
                self.discovered@ == run_in_all(fsm, es.take(i as int), start),
                old(self).discovered.wf() ==> self.discovered.wf(),
            decreases e.parts@.len() - i,
        {
            assert(es[i as int] == e.parts@[i as int]@);
            assert(es.take(i + 1).drop_last() =~= es.take(i as int));
            assert(es.take(i + 1).last() == es[i as int]);
            self.visit_expr(&e.parts[i]);
            i = i + 1;
        }
        assert(es.take(i as int) =~= es);
    }
}

/// All of `ts` start from the state `source`, and none of them goes to the machine `fsm`
/// itself.
pub open spec fn all_proper(fsm: Seq<char>, source: Seq<char>, ts: Seq<TransitionView>) -> bool {
    forall|i: int|
        0 <= i < ts.len() ==> (#[trigger] ts[i]).source == source && ts[i].target != fsm
            && ts[i].target != "Self"@
}

/// The transitions that are found start from the state that is visited, and none of them
/// goes to the machine itself.
pub proof fn law_visited_proper(
    fsm: Seq<char>,
    source: Seq<char>,
    label: Option<Seq<char>>,
    e: ExprView,
)
    ensures
        all_proper(fsm, source, visited(fsm, source, label, e)),
    decreases e, 1nat,
{
    lemma_visited_all_proper(fsm, source, inner_label(e.shape, label), e.parts);
}

proof fn lemma_visited_all_proper(
    fsm: Seq<char>,
    source: Seq<char>,
    label: Option<Seq<char>>,
    es: Seq<ExprView>,
)
    ensures
        all_proper(fsm, source, visited_all(fsm, source, label, es)),
    decreases es, 0nat,
{
    if es.len() > 0 {
        lemma_visited_all_proper(fsm, source, label, es.drop_last());
        law_visited_proper(fsm, source, label, es.last());
    }
}

/// Only what is taken for a machine is found as one that is run, and so never the machine
/// itself.
pub proof fn law_run_are_subfsms(fsm: Seq<char>, e: ExprView, names: Seq<Seq<char>>)
    requires
        all_subfsms(fsm, names),
    ensures
        all_subfsms(fsm, run_in(fsm, e, names)),
        !run_in(fsm, e, names).contains(fsm),
    decreases e, 1nat,
{
    let here = match e.shape {
        ShapeView::Path(segments) => with_path_machine(fsm, segments, names),
        _ => names,
    };
    lemma_all_run_are_subfsms(fsm, e.parts, here);
}

proof fn lemma_all_run_are_subfsms(fsm: Seq<char>, es: Seq<ExprView>, names: Seq<Seq<char>>)
    requires
        all_subfsms(fsm, names),
    ensures
        all_subfsms(fsm, run_in_all(fsm, es, names)),
    decreases es, 0nat,
{
    if es.len() > 0 {
        lemma_all_run_are_subfsms(fsm, es.drop_last(), names);
        law_run_are_subfsms(fsm, es.last(), run_in_all(fsm, es.drop_last(), names));
    }
}

} // verus!
