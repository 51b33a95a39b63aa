//! Which transitions and which machines are found in an expression, told by the positions of
//! its parts.
use vstd::prelude::*;

use crate::extraction_laws::{lemma_before_marks, lemma_first_sep, says, unopened};
use crate::keeping_laws::{lemma_tidied_keeps, spoken};
use crate::model::TransitionView;
use crate::positions::{lemma_unspaced, unspaced};
use crate::reason_laws::{lemma_cut_at, lemma_trimmed_parts};
use crate::subfsm_laws::{law_machine_names, names_machine};
use crate::text::{before, holds, pieces, trimmed};
use crate::text_laws::{
    absent_before, all_white, edges_black, law_first_piece, law_occurrences, law_one_piece,
    law_trimmed, stands_at,
};
use crate::visit::{
    call_state, forest, grown, inner_label, past_leave, run_in, run_in_all, tidied, visited,
    visited_all, visited_here, with_path_machine, written_state, ArgumentView, ExprStepView,
    ExprView, ShapeView,
};

verus! {

/// The part at the end of the way `path`: each step is the position of a part among those of
/// the one before.
pub open spec fn part_at(e: ExprView, path: Seq<int>) -> Option<ExprView>
    decreases path.len(),
{
    if path.len() == 0 {
        Some(e)
    } else if 0 <= path[0] < e.parts.len() {
        part_at(e.parts[path[0]], path.drop_first())
    } else {
        None
    }
}

/// The label that a part of this shape gives to what is inside it, if it gives one.
pub open spec fn label_given(shape: ShapeView) -> Option<Seq<char>> {
    match shape {
        ShapeView::Arm(pattern, None) => Some(tidied(pattern)),
        ShapeView::Arm(pattern, Some(guard)) => Some(
            tidied(pattern) + seq![' ', '[', 'i', 'f', ' '] + tidied(guard) + seq![']'],
        ),
        ShapeView::If(condition) => Some(
            seq!['[', 'i', 'f', ' '] + tidied(condition) + seq![']'],
        ),
        _ => None,
    }
}

/// The label at the end of the way `path`: that of the last arm or `if` on the way, and `label`
/// where there is none.
pub open spec fn label_on_way(
    label: Option<Seq<char>>,
    e: ExprView,
    path: Seq<int>,
) -> Option<Seq<char>>
    decreases path.len(),
{
    if path.len() == 0 {
        label
    } else {
        label_on_way(
            if label_given(e.shape) is Some {
                label_given(e.shape)
            } else {
                label
            },
            e.parts[path[0]],
            path.drop_first(),
        )
    }
}

proof fn lemma_label_given(shape: ShapeView, label: Option<Seq<char>>)
    ensures
        inner_label(shape, label) == if label_given(shape) is Some {
            label_given(shape)
        } else {
            label
        },
{
    reveal_strlit(" [if ");
    reveal_strlit("[if ");
    reveal_strlit("]");
    assert(" [if "@ =~= seq![' ', '[', 'i', 'f', ' ']);
    assert("[if "@ =~= seq!['[', 'i', 'f', ' ']);
    assert("]"@ =~= seq![']']);
}

/// `part` is all of `s` where that holds no `::`, and else what stands behind the first `::`
/// and before the next one, if there is one. What stands before it is `first`, and what stands
/// behind it `tail`.
pub open spec fn is_second_part(
    s: Seq<char>,
    first: Seq<char>,
    part: Seq<char>,
    tail: Seq<char>,
) -> bool {
    &&& s == first + part + tail
    &&& absent_before(part + tail, part.len() as int, seq![':', ':'])
    &&& tail.len() > 0 ==> tail.len() >= 2 && tail[0] == ':' && tail[1] == ':'
    &&& if first.len() == 0 {
        tail.len() == 0
    } else {
        &&& first.len() >= 2
        &&& first[first.len() - 1] == ':' && first[first.len() - 2] == ':'
        &&& absent_before(s, first.len() - 2, seq![':', ':'])
    }
}

/// `text` without spaces names `state` behind the path `first` and before `tail`, and before
/// what stands in parentheses or braces.
pub open spec fn text_names(
    text: Seq<char>,
    first: Seq<char>,
    left: Seq<char>,
    state: Seq<char>,
    right: Seq<char>,
    rest: Seq<char>,
    tail: Seq<char>,
) -> bool {
    &&& is_second_part(unspaced(text), first, left + state + right + rest, tail)
    &&& all_white(left) && all_white(right)
    &&& edges_black(state) && unopened(left + state + right)
    &&& rest.len() > 0 ==> rest[0] == '(' || rest[0] == '{'
}

/// `text` names the state `state`.
pub open spec fn written_names(text: Seq<char>, state: Seq<char>) -> bool {
    exists|
        first: Seq<char>,
        left: Seq<char>,
        right: Seq<char>,
        rest: Seq<char>,
        tail: Seq<char>,
    | #[trigger] text_names(text, first, left, state, right, rest, tail)
}

/// The argument `a` names the state `state`: it is a path to it, or a text that names it.
pub open spec fn argument_is(a: ArgumentView, state: Seq<char>) -> bool {
    match a {
        ArgumentView::Named(segments) => segments.len() > 0 && segments[segments.len() - 1]
            == state,
        ArgumentView::Written(text) => written_names(text, state),
        ArgumentView::Computed => false,
    }
}

/// The part behind the first `::`.
spec fn second_part(s: Seq<char>) -> Seq<char> {
    if holds(s, "::"@) {
        pieces(s, "::"@)[1]
    } else {
        s
    }
}

proof fn lemma_second_part(s: Seq<char>, first: Seq<char>, part: Seq<char>, tail: Seq<char>)
    requires
        is_second_part(s, first, part, tail),
    ensures
        second_part(s) == part,
{
    reveal_strlit("::");
    let sep = "::"@;
    assert(sep =~= seq![':', ':']);
    law_occurrences(s, sep);
    let b = part + tail;
    if tail.len() == 0 {
        assert(b =~= part);
        law_one_piece(part, sep);
    } else {
        assert(b =~= part + sep + tail.skip(2));
        law_first_piece(part, sep, tail.skip(2));
    }
    assert(pieces(b, sep)[0] == part);
    if first.len() == 0 {
        assert(s =~= part);
        assert(!holds(s, sep)) by {
            if exists|i: int| #[trigger] stands_at(s, i, sep) {
                let i = choose|i: int| #[trigger] stands_at(s, i, sep);
                assert(!stands_at(b, i, sep));
            }
        }
    } else {
        let n = first.len() - 2;
        let a = first.take(n);
        assert(s =~= a + sep + b);
        law_first_piece(a, sep, b);
        assert(stands_at(s, n, sep)) by {
            assert forall|k: int| 0 <= k < sep.len() implies s[n + k] == #[trigger] sep[k] by {}
        }
        assert(holds(s, sep));
    }
}

/// What stands before the first `::`, and what starts with it.
proof fn lemma_sep_found(b: Seq<char>) -> (r: (Seq<char>, Seq<char>))
    ensures
        r.0 + r.1 == b,
        absent_before(b, r.0.len() as int, seq![':', ':']),
        r.1.len() > 0 ==> r.1.len() >= 2 && r.1[0] == ':' && r.1[1] == ':',
{
    reveal_strlit("::");
    let sep = "::"@;
    assert(sep =~= seq![':', ':']);
    if exists|j: int| #[trigger] stands_at(b, j, sep) {
        let j = lemma_first_sep(b, choose|j: int| #[trigger] stands_at(b, j, sep));
        assert(b[j + 0] == sep[0] && b[j + 1] == sep[1]);
        assert(b.take(j) + b.skip(j) =~= b);
        (b.take(j), b.skip(j))
    } else {
        let none = Seq::<char>::empty();
        assert(b + none =~= b);
        (b, none)
    }
}

proof fn lemma_second_found(s: Seq<char>) -> (r: (Seq<char>, Seq<char>))
    ensures
        is_second_part(s, r.0, second_part(s), r.1),
{
    let none = Seq::<char>::empty();
    let (a, rest) = lemma_sep_found(s);
    let (first, part, tail) = if rest.len() == 0 {
        assert(s =~= a);
        assert(none + s + none =~= s);
        assert(s + none =~= s);
        (none, s, none)
    } else {
        let b = rest.skip(2);
        let (part, tail) = lemma_sep_found(b);
        let n = a.len() as int;
        let first = s.take(n + 2);
        assert(s =~= first + b);
        assert(first + b =~= first + part + tail);
        assert(first[n] == rest[0] && first[n + 1] == rest[1]);
        (first, part, tail)
    };
    assert(is_second_part(s, first, part, tail));
    lemma_second_part(s, first, part, tail);
    (first, tail)
}

proof fn lemma_text_names(
    text: Seq<char>,
    first: Seq<char>,
    left: Seq<char>,
    state: Seq<char>,
    right: Seq<char>,
    rest: Seq<char>,
    tail: Seq<char>,
)
    requires
        text_names(text, first, left, state, right, rest, tail),
    ensures
        written_state(text) == state,
{
    lemma_unspaced(text);
    lemma_second_part(unspaced(text), first, left + state + right + rest, tail);
    lemma_before_marks(left + state + right, rest);
    law_trimmed(left, state, right);
}

proof fn lemma_written_named(text: Seq<char>)
    ensures
        written_names(text, written_state(text)),
{
    reveal_strlit("(");
    reveal_strlit("{");
    assert("("@ =~= seq!['(']);
    assert("{"@ =~= seq!['{']);
    lemma_unspaced(text);
    let s = unspaced(text);
    let (first, tail) = lemma_second_found(s);
    let part = second_part(s);
    let one = lemma_cut_at(part, '(');
    let head = before(part, "("@);
    let two = lemma_cut_at(head, '{');
    let stem = before(head, "{"@);
    let (left, right) = lemma_trimmed_parts(stem);
    let state = trimmed(stem);
    let rest = two + one;
    assert(part =~= left + state + right + rest);
    assert(unopened(left + state + right)) by {
        assert forall|i: int| 0 <= i < stem.len() implies #[trigger] stem[i] != '(' && stem[i]
            != '{' by {
            assert(stem.contains(stem[i]));
            assert(head[i] == stem[i]);
            assert(head.contains(head[i]));
        }
    }
    assert(written_state(text) == state);
    assert(text_names(text, first, left, state, right, rest, tail));
}

/// Every call of `Transition::To` in an expression that names a state gives a transition to
/// it, under the label of the last arm or `if` around it.
pub proof fn law_calls_are_visited(
    fsm: Seq<char>,
    source: Seq<char>,
    label: Option<Seq<char>>,
    e: ExprView,
    path: Seq<int>,
    function: Seq<char>,
    argument: ArgumentView,
    state: Seq<char>,
)
    requires
        part_at(e, path) matches Some(p) && p.shape == ShapeView::Call(
            Some(function),
            Some(argument),
        ),
        says(unspaced(function), "Transition::To"@),
        argument_is(argument, state),
        state != fsm,
        state != "Self"@,
    ensures
        visited(fsm, source, label, e).contains(
            TransitionView {
                source,
                target: state,
                label: match label_on_way(label, e, path) {
                    Some(l) => l,
                    None => Seq::empty(),
                },
            },
        ),
    decreases path.len(),
{
    let t = TransitionView {
        source,
        target: state,
        label: match label_on_way(label, e, path) {
            Some(l) => l,
            None => Seq::empty(),
        },
    };
    let here = visited_here(fsm, source, label, e.shape);
    let inner = inner_label(e.shape, label);
    let below = visited_all(fsm, source, inner, e.parts);
    let all = visited(fsm, source, label, e);
    lemma_label_given(e.shape, label);
    if path.len() == 0 {
        lemma_unspaced(function);
        law_occurrences(unspaced(function), "Transition::To"@);
        match argument {
            ArgumentView::Written(text) => {
                let (first, left, right, rest, tail) = choose|
                    first: Seq<char>,
                    left: Seq<char>,
                    right: Seq<char>,
                    rest: Seq<char>,
                    tail: Seq<char>,
                | #[trigger] text_names(text, first, left, state, right, rest, tail);
                lemma_text_names(text, first, left, state, right, rest, tail);
            },
            _ => {},
        }
        assert(here == seq![t]);
        assert(all[0] == t);
    } else {
        let i = path[0];
        law_calls_are_visited(
            fsm,
            source,
            inner,
            e.parts[i],
            path.drop_first(),
            function,
            argument,
            state,
        );
        lemma_visited_one(fsm, source, inner, e.parts, i, t);
        let k = below.index_of(t);
        assert(all[here.len() + k] == t);
    }
}

proof fn lemma_visited_one(
    fsm: Seq<char>,
    source: Seq<char>,
    label: Option<Seq<char>>,
    es: Seq<ExprView>,
    i: int,
    t: TransitionView,
)
    requires
        0 <= i < es.len(),
        visited(fsm, source, label, es[i]).contains(t),
    ensures
        visited_all(fsm, source, label, es).contains(t),
    decreases es.len(),
{
    let rest = es.drop_last();
    let before = visited_all(fsm, source, label, rest);
    let all = visited_all(fsm, source, label, es);
    if i < rest.len() {
        assert(rest[i] == es[i]);
        lemma_visited_one(fsm, source, label, rest, i, t);
        assert(all[before.index_of(t)] == t);
    } else {
        let k = visited(fsm, source, label, es.last()).index_of(t);
        assert(all[before.len() + k] == t);
    }
}

/// A part of this shape is a call of `Transition::To` whose argument names the state `state`,
/// which is not the machine `fsm` itself.
pub open spec fn shape_goes_to(fsm: Seq<char>, shape: ShapeView, state: Seq<char>) -> bool {
    &&& shape matches ShapeView::Call(Some(function), Some(argument)) && says(
        unspaced(function),
        "Transition::To"@,
    ) && argument_is(argument, state)
    &&& state != fsm && state != "Self"@
}

/// The call at the end of the way `path` is the reason for the transition `t`.
pub open spec fn visited_for(
    fsm: Seq<char>,
    source: Seq<char>,
    label: Option<Seq<char>>,
    e: ExprView,
    path: Seq<int>,
    t: TransitionView,
) -> bool {
    &&& part_at(e, path) matches Some(p) && shape_goes_to(fsm, p.shape, t.target)
    &&& t.source == source
    &&& t.label == match label_on_way(label, e, path) {
        Some(l) => l,
        None => Seq::empty(),
    }
}

/// Every transition that is found in an expression has a reason: a call of `Transition::To`
/// whose argument names its target, under the label that it has.
pub proof fn law_visited_with_reason(
    fsm: Seq<char>,
    source: Seq<char>,
    label: Option<Seq<char>>,
    e: ExprView,
    k: int,
)
    requires
        0 <= k < visited(fsm, source, label, e).len(),
    ensures
        exists|path: Seq<int>| #[trigger]
            visited_for(fsm, source, label, e, path, visited(fsm, source, label, e)[k]),
    decreases e, 1nat,
{
    let t = visited(fsm, source, label, e)[k];
    let here = visited_here(fsm, source, label, e.shape);
    let inner = inner_label(e.shape, label);
    lemma_label_given(e.shape, label);
    if k < here.len() {
        match e.shape {
            ShapeView::Call(Some(function), Some(argument)) => {
                lemma_unspaced(function);
                law_occurrences(unspaced(function), "Transition::To"@);
                match argument {
                    ArgumentView::Written(text) => {
                        lemma_written_named(text);
                    },
                    _ => {},
                }
                assert(visited_for(fsm, source, label, e, Seq::empty(), t));
            },
            _ => {},
        }
    } else {
        let i = lemma_visited_from(fsm, source, inner, e.parts, k - here.len());
        let path = choose|path: Seq<int>| #[trigger]
            visited_for(fsm, source, inner, e.parts[i], path, t);
        let way = seq![i] + path;
        assert(way.drop_first() =~= path);
        assert(visited_for(fsm, source, label, e, way, t));
    }
}

proof fn lemma_visited_from(
    fsm: Seq<char>,
    source: Seq<char>,
    label: Option<Seq<char>>,
    es: Seq<ExprView>,
    k: int,
) -> (i: int)
    requires
        0 <= k < visited_all(fsm, source, label, es).len(),
    ensures
        0 <= i < es.len(),
        exists|path: Seq<int>| #[trigger]
            visited_for(fsm, source, label, es[i], path, visited_all(fsm, source, label, es)[k]),
    decreases es, 0nat,
{
    let rest = es.drop_last();
    let before = visited_all(fsm, source, label, rest);
    let t = visited_all(fsm, source, label, es)[k];
    if k < before.len() {
        let i = lemma_visited_from(fsm, source, label, rest, k);
        assert(rest[i] == es[i]);
        assert(before[k] == t);
        let path = choose|path: Seq<int>| #[trigger]
            visited_for(fsm, source, label, rest[i], path, before[k]);
        assert(visited_for(fsm, source, label, es[i], path, t));
        i
    } else {
        let last = visited(fsm, source, label, es.last());
        law_visited_with_reason(fsm, source, label, es.last(), k - before.len());
        let path = choose|path: Seq<int>| #[trigger]
            visited_for(fsm, source, label, es.last(), path, last[k - before.len()]);
        assert(visited_for(fsm, source, label, es[es.len() - 1], path, t));
        es.len() - 1
    }
}

/// The transitions of some parts and of some others are those of the ones and then those of
/// the others.
pub proof fn law_visited_in_order(
    fsm: Seq<char>,
    source: Seq<char>,
    label: Option<Seq<char>>,
    a: Seq<ExprView>,
    b: Seq<ExprView>,
)
    ensures
        visited_all(fsm, source, label, a + b) == visited_all(fsm, source, label, a)
            + visited_all(fsm, source, label, b),
    decreases b.len(),
{
    if b.len() == 0 {
        assert(a + b =~= a);
        assert(visited_all(fsm, source, label, a) + visited_all(fsm, source, label, b)
            =~= visited_all(fsm, source, label, a));
    } else {
        assert((a + b).drop_last() =~= a + b.drop_last());
        assert((a + b).last() == b.last());
        law_visited_in_order(fsm, source, label, a, b.drop_last());
        let x = visited_all(fsm, source, label, a);
        let y = visited_all(fsm, source, label, b.drop_last());
        let z = visited(fsm, source, label, b.last());
        assert((x + y) + z =~= x + (y + z));
    }
}

/// A path of two segments or more from the machine `name` stands in `e`.
pub open spec fn has_path(fsm: Seq<char>, e: ExprView, name: Seq<char>) -> bool {
    exists|path: Seq<int>|
        (#[trigger] part_at(e, path)) matches Some(p) && is_path_from(fsm, p.shape, name)
}

/// The shape is a path of two segments or more from the machine `name`.
pub open spec fn is_path_from(fsm: Seq<char>, shape: ShapeView, name: Seq<char>) -> bool {
    shape matches ShapeView::Path(segments) && segments.len() >= 2 && segments[0] == name
        && names_machine(fsm, name)
}

/// A machine is run in an expression wherever a path in it starts from its name and goes on,
/// and nowhere else.
pub proof fn law_machines_run(
    fsm: Seq<char>,
    e: ExprView,
    names: Seq<Seq<char>>,
    name: Seq<char>,
)
    ensures
        run_in(fsm, e, names).contains(name) <==> names.contains(name) || has_path(fsm, e, name),
    decreases e, 1nat,
{
    law_machine_names(fsm, name);
    let here = match e.shape {
        ShapeView::Path(segments) => with_path_machine(fsm, segments, names),
        _ => names,
    };
    assert(here.contains(name) <==> names.contains(name) || is_path_from(fsm, e.shape, name)) by {
        if let ShapeView::Path(segments) = e.shape {
            if segments.len() >= 2 {
                let first = segments[0];
                law_machine_names(fsm, first);
                if !names.contains(first) {
                    let now = names.push(first);
                    assert(now[names.len() as int] == first);
                    if names.contains(name) {
                        assert(now[names.index_of(name)] == name);
                    }
                }
            }
        }
    }
    lemma_machines_run_all(fsm, e.parts, here, name);
    assert(part_at(e, Seq::empty()) == Some(e));
    if has_path(fsm, e, name) {
        let path = choose|path: Seq<int>|
            (#[trigger] part_at(e, path)) matches Some(p) && is_path_from(fsm, p.shape, name);
        if path.len() > 0 {
            assert(part_at(e.parts[path[0]], path.drop_first()) == part_at(e, path));
            assert(has_path(fsm, e.parts[path[0]], name));
        }
    }
    if exists|i: int| 0 <= i < e.parts.len() && has_path(fsm, #[trigger] e.parts[i], name) {
        let i = choose|i: int| 0 <= i < e.parts.len() && has_path(fsm, #[trigger] e.parts[i], name);
        let path = choose|path: Seq<int>|
            (#[trigger] part_at(e.parts[i], path)) matches Some(p) && is_path_from(
                fsm,
                p.shape,
                name,
            );
        let way = seq![i] + path;
        assert(way.drop_first() =~= path);
        assert(part_at(e, way) == part_at(e.parts[i], path));
    }
}

proof fn lemma_machines_run_all(
    fsm: Seq<char>,
    es: Seq<ExprView>,
    names: Seq<Seq<char>>,
    name: Seq<char>,
)
    ensures
        run_in_all(fsm, es, names).contains(name) <==> names.contains(name) || exists|i: int|
            0 <= i < es.len() && has_path(fsm, #[trigger] es[i], name),
    decreases es, 0nat,
{
    if es.len() > 0 {
        let rest = es.drop_last();
        let n = rest.len() as int;
        lemma_machines_run_all(fsm, rest, names, name);
        law_machines_run(fsm, es.last(), run_in_all(fsm, rest, names), name);
        assert(es[n] == es.last());
        assert forall|i: int| 0 <= i < n implies #[trigger] es[i] == rest[i] by {}
        if exists|i: int| 0 <= i < n && has_path(fsm, #[trigger] rest[i], name) {
            let i = choose|i: int| 0 <= i < n && has_path(fsm, #[trigger] rest[i], name);
            assert(has_path(fsm, es[i], name));
        }
        if exists|i: int| 0 <= i < es.len() && has_path(fsm, #[trigger] es[i], name) {
            let i = choose|i: int| 0 <= i < es.len() && has_path(fsm, #[trigger] es[i], name);
            if i < n {
                assert(has_path(fsm, rest[i], name));
            }
        }
    }
}

/// The steps of a walk through `e`: into it, through its parts, and out of it.
pub open spec fn steps_through(e: ExprView) -> Seq<ExprStepView>
    decreases e,
{
    seq![ExprStepView::Enter(e.shape)] + steps_through_all(e.parts) + seq![ExprStepView::Leave]
}

/// The steps of walks through `es`, one after the other.
pub open spec fn steps_through_all(es: Seq<ExprView>) -> Seq<ExprStepView>
    decreases es,
{
    if es.len() == 0 {
        Seq::empty()
    } else {
        steps_through(es[0]) + steps_through_all(es.drop_first())
    }
}

/// `piece` stands in `steps` at `i`.
spec fn steps_at(steps: Seq<ExprStepView>, i: int, piece: Seq<ExprStepView>) -> bool {
    &&& 0 <= i
    &&& i + piece.len() <= steps.len()
    &&& forall|k: int| 0 <= k < piece.len() ==> steps[i + k] == #[trigger] piece[k]
}

proof fn lemma_steps_split(
    steps: Seq<ExprStepView>,
    i: int,
    a: Seq<ExprStepView>,
    b: Seq<ExprStepView>,
)
    requires
        steps_at(steps, i, a + b),
    ensures
        steps_at(steps, i, a),
        steps_at(steps, i + a.len(), b),
{
    let all = a + b;
    assert forall|k: int| 0 <= k < a.len() implies steps[i + k] == #[trigger] a[k] by {
        assert(all[k] == a[k]);
    }
    assert forall|k: int| 0 <= k < b.len() implies steps[i + a.len() + k] == #[trigger] b[k] by {
        assert(all[a.len() + k] == b[k]);
    }
}

proof fn lemma_forest_back(steps: Seq<ExprStepView>, i: int, es: Seq<ExprView>)
    requires
        steps_at(steps, i, steps_through_all(es)),
        i + steps_through_all(es).len() < steps.len() ==> steps[i + steps_through_all(es).len()]
            is Leave,
    ensures
        forest(steps, i) == (es, i + steps_through_all(es).len()),
    decreases es, 0nat,
{
    if es.len() == 0 {
        assert(es =~= Seq::<ExprView>::empty());
    } else {
        let e = es[0];
        let rest = es.drop_first();
        let enter = seq![ExprStepView::Enter(e.shape)];
        let inner = steps_through_all(e.parts);
        let leave = seq![ExprStepView::Leave];
        lemma_steps_split(steps, i, steps_through(e), steps_through_all(rest));
        lemma_steps_split(steps, i, enter + inner, leave);
        lemma_steps_split(steps, i, enter, inner);
        assert(steps[i + 0] == enter[0]);
        let j = i + 1 + inner.len();
        assert(steps[j + 0] == leave[0]);
        lemma_forest_back(steps, i + 1, e.parts);
        assert(past_leave(steps, j) == i + steps_through(e).len());
        lemma_forest_back(steps, i + steps_through(e).len(), rest);
        assert(e == (ExprView { shape: e.shape, parts: e.parts }));
        assert(seq![e] + rest =~= es);
    }
}

/// The steps of walks through expressions give these expressions back.
pub proof fn law_grown_back(es: Seq<ExprView>)
    ensures
        grown(steps_through_all(es)).parts == es,
        grown(steps_through_all(es)).shape == ShapeView::Other,
{
    let steps = steps_through_all(es);
    assert(steps_at(steps, 0, steps));
    lemma_forest_back(steps, 0, es);
}

/// Tidying a text keeps its marks and its words, in their order.
pub proof fn law_tidied_says_its_text(s: Seq<char>)
    ensures
        spoken(false, tidied(s)) == spoken(false, s),
{
    lemma_tidied_keeps(s);
}

/// How many calls in `e` go to a state.
pub open spec fn visits_in(fsm: Seq<char>, e: ExprView) -> nat
    decreases e, 1nat, 0nat,
{
    visits_before(fsm, e.parts, e.parts.len()) + if exists|state: Seq<char>| #[trigger]
        shape_goes_to(fsm, e.shape, state) {
        1nat
    } else {
        0nat
    }
}

/// How many calls in the first `n` of `es` go to a state.
pub open spec fn visits_before(fsm: Seq<char>, es: Seq<ExprView>, n: nat) -> nat
    decreases es, 0nat, n,
{
    if n == 0 || n > es.len() {
        0
    } else {
        visits_before(fsm, es, (n - 1) as nat) + visits_in(fsm, es[n - 1])
    }
}

proof fn lemma_visited_here(
    fsm: Seq<char>,
    source: Seq<char>,
    label: Option<Seq<char>>,
    shape: ShapeView,
)
    ensures
        visited_here(fsm, source, label, shape).len() == if exists|state: Seq<char>| #[trigger]
            shape_goes_to(fsm, shape, state) {
            1nat
        } else {
            0nat
        },
{
    if let ShapeView::Call(Some(function), Some(argument)) = shape {
        lemma_unspaced(function);
        law_occurrences(unspaced(function), "Transition::To"@);
        if exists|state: Seq<char>| #[trigger] shape_goes_to(fsm, shape, state) {
            let state = choose|state: Seq<char>| #[trigger] shape_goes_to(fsm, shape, state);
            if let ArgumentView::Written(text) = argument {
                let (first, left, right, rest, tail) = choose|
                    first: Seq<char>,
                    left: Seq<char>,
                    right: Seq<char>,
                    rest: Seq<char>,
                    tail: Seq<char>,
                | #[trigger] text_names(text, first, left, state, right, rest, tail);
                lemma_text_names(text, first, left, state, right, rest, tail);
            }
        }
        if let ArgumentView::Written(text) = argument {
            lemma_written_named(text);
        }
        if let Some(state) = call_state(fsm, Some(function), Some(argument)) {
            assert(shape_goes_to(fsm, shape, state));
        }
    }
}

/// Each call in an expression that goes to a state gives one transition.
pub proof fn law_one_for_each_visit(
    fsm: Seq<char>,
    source: Seq<char>,
    label: Option<Seq<char>>,
    e: ExprView,
)
    ensures
        visited(fsm, source, label, e).len() == visits_in(fsm, e),
    decreases e, 1nat, 0nat,
{
    lemma_visited_here(fsm, source, label, e.shape);
    lemma_visits_before(fsm, source, inner_label(e.shape, label), e.parts, e.parts.len());
    assert(e.parts.take(e.parts.len() as int) =~= e.parts);
}

proof fn lemma_visits_before(
    fsm: Seq<char>,
    source: Seq<char>,
    label: Option<Seq<char>>,
    es: Seq<ExprView>,
    n: nat,
)
    requires
        n <= es.len(),
    ensures
        visited_all(fsm, source, label, es.take(n as int)).len() == visits_before(fsm, es, n),
    decreases es, 0nat, n,
{
    if n > 0 {
        let part = es.take(n as int);
        assert(part.drop_last() =~= es.take(n - 1));
        assert(part.last() == es[n - 1]);
        lemma_visits_before(fsm, source, label, es, (n - 1) as nat);
        law_one_for_each_visit(fsm, source, label, es[n - 1]);
    }
}

} // verus!
