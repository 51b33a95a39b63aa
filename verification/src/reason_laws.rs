//! Why transitions are found: which functions are followed, what following them gives, and
//! that there is a reason for everything that is found.
use vstd::prelude::*;

use crate::extraction_laws::{
    adds, argument_names, calls, goes_on_in, goes_to, has_argument, is_last_part, label_along,
    label_inside, label_shown, lemma_all_grow, lemma_at_grow, lemma_before, lemma_call_adds,
    lemma_kinds, lemma_labels, lemma_last_is_part, lemma_one_last_part, lemma_visited_stays,
    names_state, reaches_down, runs, says, unopened,
};
use crate::model::TransitionView;
use crate::positions::{
    is_first_of, is_nth_expr, lemma_expr_place, lemma_first_place, lemma_place_expr,
    lemma_place_first, lemma_unspaced, node_at, unspaced,
};
use crate::syntax::{else_place, nth_place, then_place, Role, TreeView};
use crate::text::{
    before, holds, left_trimmed, lemma_pieces_nonempty, pieces, replaced, right_trimmed, starts,
    trimmed, white_space,
};
use crate::text_laws::{all_white, edges_black, law_occurrences, law_trimmed, stands_at};
use crate::transition_laws::{grows, law_extraction_grows, lemma_call_grows, lemma_same_grows};
use crate::transitions::{
    called, extracted, extracted_all, extracted_at, followed, last_segment, mentioned,
    mentioned_state, method_called, target_of, Found, Scope,
};

verus! {

/// The function is among those that have been followed.
pub open spec fn has_followed(found: Found, func: Seq<char>) -> bool {
    found.visited.contains(func)
}

proof fn lemma_runs_follows(
    sc: Scope,
    label: Option<Seq<char>>,
    n: TreeView,
    found: Found,
    func: Seq<char>,
)
    requires
        runs(n, func),
    ensures
        n.kind == "CALL_EXPR"@ ==> has_followed(called(sc, label, n.children, found), func),
        n.kind == "METHOD_CALL_EXPR"@ ==> has_followed(
            method_called(sc, label, n.children, found),
            func,
        ),
{
    lemma_kinds();
    let ts = n.children;
    let after = followed(sc, label, func, found);
    if !found.visited.contains(func) {
        assert(after.visited[found.visited.len() as int] == func);
    }
    assert(has_followed(after, func));
    if n.kind == "METHOD_CALL_EXPR"@ {
        let i = choose|i: int| #[trigger]
            is_first_of(n.children, i, "NAME_REF"@) && n.children[i].text == func;
        lemma_first_place(ts, Role::Name, i, 0);
    } else {
        let callee = choose|callee: Seq<char>| #[trigger]
            calls(n.children, callee) && !says(callee, "Transition::To"@) && is_last_part(
                callee,
                func,
            );
        let c = choose|c: int| #[trigger]
            is_nth_expr(ts, c, 0) && unspaced(ts[c].text) == callee;
        lemma_expr_place(ts, c, 0);
        lemma_unspaced(ts[c].text);
        law_occurrences(callee, "Transition::To"@);
        let last = last_segment(callee);
        lemma_last_is_part(callee);
        if last.len() >= func.len() {
            lemma_one_last_part(callee, last, func);
        } else {
            lemma_one_last_part(callee, func, last);
        }
    }
}

proof fn lemma_one_of_all_follows(
    sc: Scope,
    label: Option<Seq<char>>,
    ts: Seq<TreeView>,
    i: int,
    found: Found,
    func: Seq<char>,
)
    requires
        0 <= i < ts.len(),
        forall|mid: Found| has_followed(#[trigger] extracted(sc, label, ts[i], mid), func),
    ensures
        has_followed(extracted_all(sc, label, ts, found), func),
    decreases ts.len(),
{
    let rest = ts.drop_last();
    let mid = extracted_all(sc, label, rest, found);
    law_extraction_grows(sc, label, ts.last(), mid);
    if i < rest.len() {
        assert(rest[i] == ts[i]);
        lemma_one_of_all_follows(sc, label, rest, i, found, func);
        lemma_visited_stays(sc, mid, extracted(sc, label, ts.last(), mid), func);
    }
}

/// Every function and every method that is called in what a state does is followed.
pub proof fn law_called_functions_followed(
    sc: Scope,
    label: Option<Seq<char>>,
    t: TreeView,
    found: Found,
    path: Seq<int>,
    func: Seq<char>,
)
    requires
        reaches_down(t, path),
        node_at(t, path) matches Some(n) && runs(n, func),
    ensures
        has_followed(extracted(sc, label, t, found), func),
    decreases path.len(),
{
    lemma_kinds();
    let ts = t.children;
    let end = extracted(sc, label, t, found);
    lemma_call_grows(sc, label, ts, found);
    if path.len() == 0 {
        lemma_runs_follows(sc, label, t, found, func);
        let mid = if t.kind == "CALL_EXPR"@ {
            called(sc, label, ts, found)
        } else {
            method_called(sc, label, ts, found)
        };
        lemma_all_grow(sc, label, ts, mid);
        lemma_visited_stays(sc, mid, end, func);
    } else {
        let i = path[0];
        let inner = label_inside(sc.guards, label, t);
        lemma_labels(sc, label, t);
        assert forall|mid: Found| has_followed(
            #[trigger] extracted(sc, inner, ts[i], mid),
            func,
        ) by {
            law_called_functions_followed(sc, inner, ts[i], mid, path.drop_first(), func);
        }
        if t.kind == "MATCH_ARM"@ {
            lemma_expr_place(ts, i, 0);
            assert(end == extracted(sc, inner, ts[i], found));
        } else if t.kind == "IF_EXPR"@ {
            let mid = extracted_at(sc, inner, ts, then_place(ts), found);
            lemma_at_grow(sc, inner, ts, else_place(ts), mid);
            if is_nth_expr(ts, i, 1) && ts[i].kind == "BLOCK_EXPR"@ {
                lemma_expr_place(ts, i, 1);
                assert(mid == extracted(sc, inner, ts[i], found));
                lemma_visited_stays(sc, mid, end, func);
            } else {
                lemma_expr_place(ts, i, 2);
                assert(end == extracted(sc, inner, ts[i], mid));
            }
        } else {
            let mid = if t.kind == "CALL_EXPR"@ {
                called(sc, label, ts, found)
            } else if t.kind == "METHOD_CALL_EXPR"@ {
                method_called(sc, label, ts, found)
            } else {
                found
            };
            assert(inner == label);
            lemma_one_of_all_follows(sc, label, ts, i, mid, func);
        }
    }
}

/// The path `name` mentions the state `state` of the machine `fsm`: it leads there from the
/// machine itself.
pub open spec fn mentions_state(fsm: Seq<char>, name: Seq<char>, state: Seq<char>) -> bool {
    &&& is_last_part(name, state)
    &&& stands_at(name, 0, fsm + seq![':', ':']) || stands_at(name, 0, "Self::"@)
    &&& state != fsm
    &&& state != "Self"@
}

/// The label of a transition that is found in the function `func`: the one at the call, or the
/// name of the function.
pub open spec fn label_via(label: Option<Seq<char>>, func: Seq<char>) -> Seq<char> {
    match label {
        Some(l) => trimmed(l),
        None => "(via "@ + func + ")"@,
    }
}

/// A path mentions a state where it leads there from the machine.
proof fn lemma_mentioned_state(fsm: Seq<char>, name: Seq<char>, state: Seq<char>)
    ensures
        mentioned_state(fsm, name) == Some(state) <==> mentions_state(fsm, name, state),
{
    reveal_strlit("::");
    assert("::"@ =~= seq![':', ':']);
    law_occurrences(name, fsm + "::"@);
    law_occurrences(name, "Self::"@);
    let last = last_segment(name);
    lemma_last_is_part(name);
    if is_last_part(name, state) {
        if last.len() >= state.len() {
            lemma_one_last_part(name, last, state);
        } else {
            lemma_one_last_part(name, state, last);
        }
    }
}

proof fn lemma_mention_names(
    sc: Scope,
    label: Option<Seq<char>>,
    func: Seq<char>,
    names: Seq<Seq<char>>,
    i: int,
    state: Seq<char>,
)
    requires
        0 <= i < names.len(),
        mentions_state(sc.fsm, names[i], state),
    ensures
        mentioned(sc, label, func, names).contains(
            TransitionView { source: sc.source, target: state, label: label_via(label, func) },
        ),
    decreases names.len(),
{
    let t = TransitionView { source: sc.source, target: state, label: label_via(label, func) };
    let rest = names.drop_last();
    let all = mentioned(sc, label, func, names);
    if i < rest.len() {
        assert(rest[i] == names[i]);
        lemma_mention_names(sc, label, func, rest, i, state);
        let before = mentioned(sc, label, func, rest);
        let k = before.index_of(t);
        assert(all[k] == t);
    } else {
        lemma_mentioned_state(sc.fsm, names[i], state);
        reveal_strlit("(via ");
        reveal_strlit(")");
        let via = "(via "@ + func + ")"@;
        let none = Seq::<char>::empty();
        assert(via[0] == '(' && via.last() == ')');
        assert(none + via + none =~= via);
        law_trimmed(none, via, none);
        assert(all.last() == t);
        assert(all[all.len() - 1] == t);
    }
}

/// A function that has not been followed yet gives a transition to every state that it
/// mentions, under the label at the call, or under its own name where there is none.
pub proof fn law_followed_function(
    sc: Scope,
    label: Option<Seq<char>>,
    func: Seq<char>,
    found: Found,
    name: Seq<char>,
    state: Seq<char>,
)
    requires
        !found.visited.contains(func),
        sc.mentions.dom().contains(func),
        sc.mentions[func]@.contains(name),
        mentions_state(sc.fsm, name, state),
    ensures
        adds(
            found,
            followed(sc, label, func, found),
            TransitionView { source: sc.source, target: state, label: label_via(label, func) },
        ),
{
    let names = sc.mentions[func]@;
    let i = names.index_of(name);
    lemma_mention_names(sc, label, func, names, i, state);
    let t = TransitionView { source: sc.source, target: state, label: label_via(label, func) };
    let more = mentioned(sc, label, func, names);
    let k = more.index_of(t);
    let after = followed(sc, label, func, found);
    assert(after.transitions[found.transitions.len() + k] == t);
}

/// `after` has a transition to `state` behind those of `before`.
pub open spec fn adds_target(sc: Scope, before: Found, after: Found, state: Seq<char>) -> bool {
    exists|k: int|
        before.transitions.len() <= k < after.transitions.len() && (
        #[trigger] after.transitions[k]).target == state && after.transitions[k].source
            == sc.source
}

/// Whatever has been followed between `before` and `after` has given all the states that it
/// mentions.
pub open spec fn mentions_given(sc: Scope, before: Found, after: Found) -> bool {
    forall|func: Seq<char>, name: Seq<char>, state: Seq<char>|
        after.visited.contains(func) && !before.visited.contains(func)
            && sc.mentions.dom().contains(func) && #[trigger] sc.mentions[func]@.contains(name)
            && #[trigger] mentions_state(sc.fsm, name, state) ==> adds_target(
            sc,
            before,
            after,
            state,
        )
}

proof fn lemma_given_chain(sc: Scope, a: Found, b: Found, c: Found)
    requires
        grows(sc, a, b),
        grows(sc, b, c),
        mentions_given(sc, a, b),
        mentions_given(sc, b, c),
    ensures
        mentions_given(sc, a, c),
{
    assert forall|func: Seq<char>, name: Seq<char>, state: Seq<char>|
        c.visited.contains(func) && !a.visited.contains(func) && sc.mentions.dom().contains(func)
            && #[trigger] sc.mentions[func]@.contains(name) && #[trigger] mentions_state(
            sc.fsm,
            name,
            state,
        ) implies adds_target(sc, a, c, state) by {
        if b.visited.contains(func) {
            assert(adds_target(sc, a, b, state));
            let k = choose|k: int|
                a.transitions.len() <= k < b.transitions.len() && (
                #[trigger] b.transitions[k]).target == state && b.transitions[k].source
                    == sc.source;
            assert(c.transitions.take(b.transitions.len() as int)[k] == b.transitions[k]);
            assert(c.transitions[k].target == state);
        } else {
            assert(adds_target(sc, b, c, state));
            let k = choose|k: int|
                b.transitions.len() <= k < c.transitions.len() && (
                #[trigger] c.transitions[k]).target == state && c.transitions[k].source
                    == sc.source;
            assert(c.transitions[k].target == state);
        }
    }
}

proof fn lemma_followed_given(sc: Scope, label: Option<Seq<char>>, func: Seq<char>, found: Found)
    ensures
        mentions_given(sc, found, followed(sc, label, func, found)),
{
    let after = followed(sc, label, func, found);
    assert forall|f: Seq<char>, name: Seq<char>, state: Seq<char>|
        after.visited.contains(f) && !found.visited.contains(f) && sc.mentions.dom().contains(f)
            && #[trigger] sc.mentions[f]@.contains(name) && #[trigger] mentions_state(
            sc.fsm,
            name,
            state,
        ) implies adds_target(sc, found, after, state) by {
        let k = after.visited.index_of(f);
        if k < found.visited.len() {
            assert(found.visited[k] == f);
        }
        assert(f == func);
        law_followed_function(sc, label, func, found, name, state);
        let t = TransitionView { source: sc.source, target: state, label: label_via(label, func) };
        let j = choose|j: int|
            found.transitions.len() <= j < after.transitions.len()
                && #[trigger] after.transitions[j] == t;
        assert(after.transitions[j].target == state);
    }
}

proof fn lemma_call_given(sc: Scope, label: Option<Seq<char>>, ts: Seq<TreeView>, found: Found)
    ensures
        mentions_given(sc, found, called(sc, label, ts, found)),
        mentions_given(sc, found, method_called(sc, label, ts, found)),
{
    match nth_place(ts, Role::Expr, 0) {
        Some(i) => {
            lemma_followed_given(
                sc,
                label,
                last_segment(replaced(ts[i].text, " "@, ""@)),
                found,
            );
        },
        None => {},
    }
    match nth_place(ts, Role::Name, 0) {
        Some(i) => {
            lemma_followed_given(sc, label, ts[i].text, found);
        },
        None => {},
    }
}

/// Whatever function is followed in what a state does, each state that it mentions is gone to.
pub proof fn law_mentions_are_found(
    sc: Scope,
    label: Option<Seq<char>>,
    t: TreeView,
    found: Found,
)
    ensures
        mentions_given(sc, found, extracted(sc, label, t, found)),
    decreases t, 1nat,
{
    let ts = t.children;
    let end = extracted(sc, label, t, found);
    lemma_labels(sc, label, t);
    let inner = label_inside(sc.guards, label, t);
    if t.kind == "MATCH_ARM"@ {
        lemma_at_given(sc, inner, t, nth_place(ts, Role::Expr, 0), found);
    } else if t.kind == "IF_EXPR"@ {
        lemma_at_given(sc, inner, t, then_place(ts), found);
        let mid = extracted_at(sc, inner, ts, then_place(ts), found);
        lemma_at_given(sc, inner, t, else_place(ts), mid);
        lemma_at_grow(sc, inner, ts, then_place(ts), found);
        lemma_at_grow(sc, inner, ts, else_place(ts), mid);
        lemma_given_chain(sc, found, mid, end);
    } else {
        let mid = if t.kind == "CALL_EXPR"@ {
            called(sc, label, ts, found)
        } else if t.kind == "METHOD_CALL_EXPR"@ {
            method_called(sc, label, ts, found)
        } else {
            found
        };
        lemma_call_given(sc, label, ts, found);
        lemma_call_grows(sc, label, ts, found);
        lemma_same_grows(sc, found);
        lemma_all_given(sc, label, ts, mid);
        lemma_all_grow(sc, label, ts, mid);
        lemma_given_chain(sc, found, mid, end);
    }
}

proof fn lemma_at_given(
    sc: Scope,
    label: Option<Seq<char>>,
    t: TreeView,
    place: Option<int>,
    found: Found,
)
    ensures
        mentions_given(sc, found, extracted_at(sc, label, t.children, place, found)),
    decreases t, 0nat,
{
    match place {
        Some(i) => {
            if 0 <= i < t.children.len() {
                law_mentions_are_found(sc, label, t.children[i], found);
            }
        },
        None => {},
    }
}

proof fn lemma_all_given(sc: Scope, label: Option<Seq<char>>, ts: Seq<TreeView>, found: Found)
    ensures
        mentions_given(sc, found, extracted_all(sc, label, ts, found)),
    decreases ts, 0nat,
{
    if ts.len() > 0 {
        let mid = extracted_all(sc, label, ts.drop_last(), found);
        lemma_all_given(sc, label, ts.drop_last(), found);
        law_mentions_are_found(sc, label, ts.last(), mid);
        lemma_all_grow(sc, label, ts.drop_last(), found);
        law_extraction_grows(sc, label, ts.last(), mid);
        lemma_given_chain(sc, found, mid, extracted_all(sc, label, ts, found));
    }
}

/// The only piece of a text is the text.
proof fn lemma_whole_piece(s: Seq<char>, sep: Seq<char>)
    requires
        pieces(s, sep).len() == 1,
    ensures
        pieces(s, sep)[0] == s,
    decreases s.len(),
{
    if s.len() == 0 || sep.len() == 0 {
    } else if starts(s, sep) {
        lemma_pieces_nonempty(s.skip(sep.len() as int), sep);
    } else {
        lemma_pieces_nonempty(s.skip(1), sep);
        lemma_whole_piece(s.skip(1), sep);
        assert(seq![s[0]] + s.skip(1) =~= s);
    }
}

proof fn lemma_left_trimmed_part(s: Seq<char>) -> (cut: Seq<char>)
    ensures
        s == cut + left_trimmed(s),
        all_white(cut),
    decreases s.len(),
{
    if s.len() > 0 && white_space(s[0]) {
        let cut = lemma_left_trimmed_part(s.skip(1));
        assert(s =~= seq![s[0]] + s.skip(1));
        assert(seq![s[0]] + (cut + left_trimmed(s)) =~= (seq![s[0]] + cut) + left_trimmed(s));
        let all = seq![s[0]] + cut;
        assert forall|i: int| 0 <= i < all.len() implies white_space(#[trigger] all[i]) by {
            if i > 0 {
                assert(all[i] == cut[i - 1]);
            }
        }
        seq![s[0]] + cut
    } else {
        assert(s =~= Seq::<char>::empty() + s);
        Seq::empty()
    }
}

proof fn lemma_right_trimmed_part(s: Seq<char>) -> (cut: Seq<char>)
    ensures
        s == right_trimmed(s) + cut,
        all_white(cut),
    decreases s.len(),
{
    if s.len() > 0 && white_space(s.last()) {
        let cut = lemma_right_trimmed_part(s.drop_last());
        assert(s =~= s.drop_last().push(s.last()));
        assert((right_trimmed(s) + cut).push(s.last()) =~= right_trimmed(s) + cut.push(s.last()));
        let all = cut.push(s.last());
        assert forall|i: int| 0 <= i < all.len() implies white_space(#[trigger] all[i]) by {
            if i < cut.len() {
                assert(all[i] == cut[i]);
            }
        }
        cut.push(s.last())
    } else {
        assert(s =~= s + Seq::<char>::empty());
        Seq::empty()
    }
}

/// What stands before a mark, and what starts with it.
pub proof fn lemma_cut_at(s: Seq<char>, mark: char) -> (rest: Seq<char>)
    ensures
        s == before(s, seq![mark]) + rest,
        !before(s, seq![mark]).contains(mark),
        rest.len() > 0 ==> rest[0] == mark,
{
    if s.contains(mark) {
        let i = lemma_first_at(s, mark, s.index_of(mark));
        let a = s.take(i);
        let b = s.skip(i);
        assert(a + b =~= s);
        lemma_before(a, mark, b);
        b
    } else {
        let none = Seq::<char>::empty();
        assert(s + none =~= s);
        lemma_before(s, mark, none);
        none
    }
}

proof fn lemma_first_at(s: Seq<char>, mark: char, i: int) -> (r: int)
    requires
        0 <= i < s.len(),
        s[i] == mark,
    ensures
        0 <= r <= i,
        s[r] == mark,
        !s.take(r).contains(mark),
    decreases i,
{
    if s.take(i).contains(mark) {
        let j = s.take(i).index_of(mark);
        assert(s[j] == mark);
        lemma_first_at(s, mark, j)
    } else {
        i
    }
}

/// The white space around a text, and the text without it.
pub proof fn lemma_trimmed_parts(s: Seq<char>) -> (r: (Seq<char>, Seq<char>))
    ensures
        s == r.0 + trimmed(s) + r.1,
        all_white(r.0) && all_white(r.1),
        edges_black(trimmed(s)),
{
    let a = lemma_left_trimmed_part(s);
    let left = left_trimmed(s);
    let b = lemma_right_trimmed_part(left);
    lemma_left_edge(s);
    lemma_right_edge(left);
    assert(s =~= a + trimmed(s) + b);
    (a, b)
}

proof fn lemma_left_edge(s: Seq<char>)
    ensures
        left_trimmed(s).len() > 0 ==> !white_space(left_trimmed(s)[0]),
    decreases s.len(),
{
    if s.len() > 0 && white_space(s[0]) {
        lemma_left_edge(s.skip(1));
    }
}

proof fn lemma_right_edge(s: Seq<char>)
    ensures
        right_trimmed(s).len() > 0 ==> !white_space(right_trimmed(s).last()) && s.len() > 0
            && right_trimmed(s)[0] == s[0],
    decreases s.len(),
{
    if s.len() > 0 && white_space(s.last()) {
        lemma_right_edge(s.drop_last());
    }
}

/// What an argument goes to is what it names.
proof fn lemma_target_named(fsm: Seq<char>, text: Seq<char>)
    ensures
        target_of(fsm, text) matches Some(state) ==> names_state(text, state) && state.len() > 0
            && state != fsm && state != "Self"@,
{
    reveal_strlit("(");
    reveal_strlit("{");
    assert("("@ =~= seq!['(']);
    assert("{"@ =~= seq!['{']);
    lemma_unspaced(text);
    let s = unspaced(text);
    let one = lemma_cut_at(s, '(');
    let head = before(s, "("@);
    let two = lemma_cut_at(head, '{');
    let stem = before(head, "{"@);
    let (left, right) = lemma_trimmed_parts(stem);
    let path = trimmed(stem);
    let rest = two + one;
    assert(s =~= left + path + right + rest);
    assert(unopened(left + path + right)) by {
        assert forall|i: int| 0 <= i < stem.len() implies #[trigger] stem[i] != '(' && stem[i]
            != '{' by {
            assert(stem.contains(stem[i]));
            assert(head[i] == stem[i]);
            assert(head.contains(head[i]));
        }
    }
    lemma_last_is_part(path);
    assert(argument_names(text, left, path, right, rest, last_segment(path)));
}

/// Somewhere in what is done in `t` stands a call of `Transition::To` whose argument names the
/// target of `x`, and the arms and conditions around it give the label of `x`.
pub open spec fn called_for(
    guards: bool,
    label: Option<Seq<char>>,
    t: TreeView,
    x: TransitionView,
) -> bool {
    exists|path: Seq<int>, callee: Seq<char>, text: Seq<char>|
        #[trigger] calls_for(guards, label, t, x, path, callee, text)
}

/// The call at the end of the way `path` is the reason for `x`.
pub open spec fn calls_for(
    guards: bool,
    label: Option<Seq<char>>,
    t: TreeView,
    x: TransitionView,
    path: Seq<int>,
    callee: Seq<char>,
    text: Seq<char>,
) -> bool {
    &&& reaches_down(t, path)
    &&& node_at(t, path) matches Some(n) && n.kind == "CALL_EXPR"@ && calls(n.children, callee)
        && has_argument(n.children, text)
    &&& says(callee, "Transition::To"@)
    &&& names_state(text, x.target) && x.target.len() > 0
    &&& x.label == label_shown(label_along(guards, label, t, path))
}

/// A function that has been followed between `before` and `after` mentions the target of `x`.
pub open spec fn mentioned_for(sc: Scope, before: Found, after: Found, x: TransitionView) -> bool {
    exists|func: Seq<char>, name: Seq<char>|
        after.visited.contains(func) && !before.visited.contains(func)
            && sc.mentions.dom().contains(func) && #[trigger] sc.mentions[func]@.contains(name)
            && mentions_state(sc.fsm, name, x.target)
}

/// There is a reason for the transition `x`.
pub open spec fn has_reason(
    sc: Scope,
    label: Option<Seq<char>>,
    t: TreeView,
    before: Found,
    after: Found,
    x: TransitionView,
) -> bool {
    called_for(sc.guards, label, t, x) || mentioned_for(sc, before, after, x)
}

/// There is a reason for everything that is found between `before` and `after`, in one of the
/// trees `ts` where what is done goes on.
spec fn all_reasoned(
    sc: Scope,
    label: Option<Seq<char>>,
    ts: Seq<TreeView>,
    before: Found,
    after: Found,
) -> bool {
    forall|k: int|
        before.transitions.len() <= k < after.transitions.len() ==> mentioned_for(
            sc,
            before,
            after,
            #[trigger] after.transitions[k],
        ) || exists|i: int|
            0 <= i < ts.len() && called_for(
                sc.guards,
                label,
                #[trigger] ts[i],
                after.transitions[k],
            )
}

proof fn lemma_mentioned_later(sc: Scope, a: Found, b: Found, c: Found, d: Found, x: TransitionView)
    requires
        mentioned_for(sc, b, c, x),
        grows(sc, a, b),
        grows(sc, c, d),
    ensures
        mentioned_for(sc, a, d, x),
{
    let (func, name) = choose|func: Seq<char>, name: Seq<char>|
        c.visited.contains(func) && !b.visited.contains(func) && sc.mentions.dom().contains(func)
            && #[trigger] sc.mentions[func]@.contains(name) && mentions_state(
            sc.fsm,
            name,
            x.target,
        );
    lemma_visited_stays(sc, c, d, func);
    if a.visited.contains(func) {
        lemma_visited_stays(sc, a, b, func);
    }
    assert(sc.mentions[func]@.contains(name));
}

proof fn lemma_mentioned_reason(
    sc: Scope,
    label: Option<Seq<char>>,
    func: Seq<char>,
    names: Seq<Seq<char>>,
    k: int,
) -> (i: int)
    requires
        0 <= k < mentioned(sc, label, func, names).len(),
    ensures
        0 <= i < names.len(),
        mentions_state(sc.fsm, names[i], mentioned(sc, label, func, names)[k].target),
    decreases names.len(),
{
    let rest = names.drop_last();
    let before = mentioned(sc, label, func, rest);
    if k < before.len() {
        assert(mentioned(sc, label, func, names)[k] == before[k]);
        let i = lemma_mentioned_reason(sc, label, func, rest, k);
        assert(rest[i] == names[i]);
        i
    } else {
        lemma_mentioned_state(
            sc.fsm,
            names.last(),
            mentioned(sc, label, func, names)[k].target,
        );
        names.len() - 1
    }
}

proof fn lemma_followed_reason(sc: Scope, label: Option<Seq<char>>, func: Seq<char>, found: Found)
    ensures
        ({
            let after = followed(sc, label, func, found);
            forall|k: int|
                found.transitions.len() <= k < after.transitions.len() ==> mentioned_for(
                    sc,
                    found,
                    after,
                    #[trigger] after.transitions[k],
                )
        }),
{
    let after = followed(sc, label, func, found);
    assert forall|k: int| found.transitions.len() <= k < after.transitions.len() implies
        mentioned_for(sc, found, after, #[trigger] after.transitions[k]) by {
        let names = sc.mentions[func]@;
        let j = k - found.transitions.len();
        assert(after.transitions[k] == mentioned(sc, label, func, names)[j]);
        let i = lemma_mentioned_reason(sc, label, func, names, j);
        assert(after.visited[found.visited.len() as int] == func);
        assert(names.contains(names[i]));
    }
}

/// There is a reason for what looking at the call `t` itself adds.
proof fn lemma_call_reason(sc: Scope, label: Option<Seq<char>>, t: TreeView, found: Found)
    requires
        t.kind == "CALL_EXPR"@,
    ensures
        ({
            let after = called(sc, label, t.children, found);
            forall|k: int|
                found.transitions.len() <= k < after.transitions.len() ==> has_reason(
                    sc,
                    label,
                    t,
                    found,
                    after,
                    #[trigger] after.transitions[k],
                )
        }),
{
    let ts = t.children;
    let after = called(sc, label, ts, found);
    lemma_place_expr(ts, 0, 0);
    match nth_place(ts, Role::Expr, 0) {
        Some(i) => {
            let callee = unspaced(ts[i].text);
            lemma_unspaced(ts[i].text);
            law_occurrences(callee, "Transition::To"@);
            assert(is_nth_expr(ts, i, 0));
            assert(calls(ts, callee));
            if holds(callee, "Transition::To"@) {
                lemma_place_first(ts, Role::Args, 0);
                match nth_place(ts, Role::Args, 0) {
                    Some(a) => {
                        let args = ts[a].children;
                        lemma_place_expr(args, 0, 0);
                        match nth_place(args, Role::Expr, 0) {
                            Some(e) => {
                                let text = args[e].text;
                                assert(is_first_of(ts, a, "ARG_LIST"@));
                                assert(is_nth_expr(args, e, 0));
                                assert(has_argument(ts, text));
                                lemma_target_named(sc.fsm, text);
                                if after.transitions.len() > found.transitions.len() {
                                    let x = after.transitions[found.transitions.len() as int];
                                    let here = Seq::<int>::empty();
                                    assert(trimmed(Seq::<char>::empty())
                                        =~= Seq::<char>::empty());
                                    assert(calls_for(
                                        sc.guards,
                                        label,
                                        t,
                                        x,
                                        here,
                                        callee,
                                        text,
                                    ));
                                }
                            },
                            None => {},
                        }
                    },
                    None => {},
                }
            } else {
                lemma_followed_reason(sc, label, last_segment(callee), found);
            }
        },
        None => {},
    }
}

/// A call below is a reason in the whole.
proof fn lemma_called_below(
    guards: bool,
    label: Option<Seq<char>>,
    t: TreeView,
    i: int,
    x: TransitionView,
)
    requires
        goes_on_in(t, i),
        called_for(guards, label_inside(guards, label, t), t.children[i], x),
    ensures
        called_for(guards, label, t, x),
{
    let inner = label_inside(guards, label, t);
    let (path, callee, text) = choose|path: Seq<int>, callee: Seq<char>, text: Seq<char>|
        #[trigger] calls_for(guards, inner, t.children[i], x, path, callee, text);
    let way = seq![i] + path;
    assert(way.drop_first() =~= path);
    assert(calls_for(guards, label, t, x, way, callee, text));
}

/// Everything that is found has a reason: a call in what the state does, under the label of
/// the arms and conditions around it, or a function that is followed there and mentions the
/// state.
pub proof fn law_found_with_reason(
    sc: Scope,
    label: Option<Seq<char>>,
    t: TreeView,
    found: Found,
    k: int,
)
    requires
        found.transitions.len() <= k < extracted(sc, label, t, found).transitions.len(),
    ensures
        has_reason(
            sc,
            label,
            t,
            found,
            extracted(sc, label, t, found),
            extracted(sc, label, t, found).transitions[k],
        ),
    decreases t, 1nat,
{
    lemma_kinds();
    let ts = t.children;
    let end = extracted(sc, label, t, found);
    let x = end.transitions[k];
    let inner = label_inside(sc.guards, label, t);
    lemma_labels(sc, label, t);
    if t.kind == "MATCH_ARM"@ {
        lemma_place_expr(ts, 0, 0);
        match nth_place(ts, Role::Expr, 0) {
            Some(i) => {
                assert(goes_on_in(t, i));
                law_found_with_reason(sc, inner, ts[i], found, k);
                if called_for(sc.guards, inner, ts[i], x) {
                    lemma_called_below(sc.guards, label, t, i, x);
                }
            },
            None => {},
        }
    } else if t.kind == "IF_EXPR"@ {
        lemma_place_expr(ts, 1, 0);
        lemma_place_expr(ts, 2, 0);
        let mid = extracted_at(sc, inner, ts, then_place(ts), found);
        lemma_at_grow(sc, inner, ts, then_place(ts), found);
        lemma_at_grow(sc, inner, ts, else_place(ts), mid);
        lemma_same_grows(sc, end);
        if k < mid.transitions.len() {
            let i = then_place(ts)->0;
            assert(goes_on_in(t, i));
            assert(end.transitions.take(mid.transitions.len() as int)[k] == mid.transitions[k]);
            law_found_with_reason(sc, inner, ts[i], found, k);
            if called_for(sc.guards, inner, ts[i], x) {
                lemma_called_below(sc.guards, label, t, i, x);
            } else {
                lemma_same_grows(sc, found);
                lemma_mentioned_later(sc, found, found, mid, end, x);
            }
        } else {
            let i = else_place(ts)->0;
            assert(goes_on_in(t, i));
            law_found_with_reason(sc, inner, ts[i], mid, k);
            if called_for(sc.guards, inner, ts[i], x) {
                lemma_called_below(sc.guards, label, t, i, x);
            } else {
                lemma_mentioned_later(sc, found, mid, end, end, x);
            }
        }
    } else {
        let mid = if t.kind == "CALL_EXPR"@ {
            called(sc, label, ts, found)
        } else if t.kind == "METHOD_CALL_EXPR"@ {
            method_called(sc, label, ts, found)
        } else {
            found
        };
        lemma_call_grows(sc, label, ts, found);
        lemma_same_grows(sc, found);
        lemma_same_grows(sc, end);
        lemma_all_grow(sc, label, ts, mid);
        if k < mid.transitions.len() {
            assert(end.transitions.take(mid.transitions.len() as int)[k] == mid.transitions[k]);
            if t.kind == "CALL_EXPR"@ {
                lemma_call_reason(sc, label, t, found);
            } else {
                match nth_place(ts, Role::Name, 0) {
                    Some(i) => {
                        lemma_followed_reason(sc, label, ts[i].text, found);
                    },
                    None => {},
                }
            }
            if !called_for(sc.guards, label, t, x) {
                lemma_mentioned_later(sc, found, found, mid, end, x);
            }
        } else {
            lemma_all_reasoned(sc, label, ts, mid);
            if mentioned_for(sc, mid, end, x) {
                lemma_mentioned_later(sc, found, mid, end, end, x);
            } else {
                let i = choose|i: int|
                    0 <= i < ts.len() && called_for(sc.guards, label, #[trigger] ts[i], x);
                lemma_called_below(sc.guards, label, t, i, x);
            }
        }
    }
}

proof fn lemma_all_reasoned(sc: Scope, label: Option<Seq<char>>, ts: Seq<TreeView>, found: Found)
    ensures
        all_reasoned(sc, label, ts, found, extracted_all(sc, label, ts, found)),
    decreases ts, 0nat,
{
    if ts.len() > 0 {
        let rest = ts.drop_last();
        let mid = extracted_all(sc, label, rest, found);
        let end = extracted_all(sc, label, ts, found);
        lemma_all_reasoned(sc, label, rest, found);
        lemma_all_grow(sc, label, rest, found);
        law_extraction_grows(sc, label, ts.last(), mid);
        lemma_same_grows(sc, found);
        lemma_same_grows(sc, end);
        assert forall|k: int| found.transitions.len() <= k < end.transitions.len() implies
            mentioned_for(sc, found, end, #[trigger] end.transitions[k]) || exists|i: int|
            0 <= i < ts.len() && called_for(
                sc.guards,
                label,
                #[trigger] ts[i],
                end.transitions[k],
            ) by {
            let x = end.transitions[k];
            if k < mid.transitions.len() {
                assert(end.transitions.take(mid.transitions.len() as int)[k]
                    == mid.transitions[k]);
                if mentioned_for(sc, found, mid, x) {
                    lemma_mentioned_later(sc, found, found, mid, end, x);
                } else {
                    let i = choose|i: int|
                        0 <= i < rest.len() && called_for(sc.guards, label, #[trigger] rest[i], x);
                    assert(ts[i] == rest[i]);
                }
            } else {
                law_found_with_reason(sc, label, ts.last(), mid, k);
                if called_for(sc.guards, label, ts.last(), x) {
                    assert(ts[ts.len() - 1] == ts.last());
                } else {
                    lemma_mentioned_later(sc, found, mid, end, end, x);
                }
            }
        }
    }
}

/// Nothing, but for the functions that have been followed.
pub open spec fn only_followed(found: Found) -> Found {
    Found { transitions: Seq::empty(), visited: found.visited }
}

/// `after` is what is found behind `before`, where `alone` is what is found without it.
spec fn found_behind(before: Found, alone: Found, after: Found) -> bool {
    after.transitions == before.transitions + alone.transitions && after.visited == alone.visited
}

proof fn lemma_behind_chain(a: Found, b: Found, c: Found, ab: Found, bc: Found, ac: Found)
    requires
        found_behind(a, ab, b),
        found_behind(b, bc, c),
        found_behind(ab, bc, ac),
    ensures
        found_behind(a, ac, c),
{
    assert(c.transitions =~= a.transitions + ac.transitions);
}

proof fn lemma_followed_behind(sc: Scope, label: Option<Seq<char>>, func: Seq<char>, found: Found)
    ensures
        found_behind(
            found,
            followed(sc, label, func, only_followed(found)),
            followed(sc, label, func, found),
        ),
{
    let alone = followed(sc, label, func, only_followed(found));
    let after = followed(sc, label, func, found);
    assert(after.transitions =~= found.transitions + alone.transitions);
}

proof fn lemma_call_behind(sc: Scope, label: Option<Seq<char>>, ts: Seq<TreeView>, found: Found)
    ensures
        found_behind(
            found,
            called(sc, label, ts, only_followed(found)),
            called(sc, label, ts, found),
        ),
        found_behind(
            found,
            method_called(sc, label, ts, only_followed(found)),
            method_called(sc, label, ts, found),
        ),
{
    assert(found.transitions + Seq::<TransitionView>::empty() =~= found.transitions);
    match nth_place(ts, Role::Expr, 0) {
        Some(i) => {
            let path = replaced(ts[i].text, " "@, ""@);
            lemma_followed_behind(sc, label, last_segment(path), found);
            let alone = called(sc, label, ts, only_followed(found));
            let after = called(sc, label, ts, found);
            assert(after.transitions =~= found.transitions + alone.transitions);
        },
        None => {},
    }
    match nth_place(ts, Role::Name, 0) {
        Some(i) => {
            lemma_followed_behind(sc, label, ts[i].text, found);
        },
        None => {},
    }
}

/// What is found in a tree comes behind what was found before, and does not depend on it, but
/// for the functions that have been followed: each call adds its own transition, whatever
/// transitions there are.
pub proof fn law_found_by_tree(sc: Scope, label: Option<Seq<char>>, t: TreeView, found: Found)
    ensures
        extracted(sc, label, t, found).transitions == found.transitions + extracted(
            sc,
            label,
            t,
            only_followed(found),
        ).transitions,
        extracted(sc, label, t, found).visited == extracted(
            sc,
            label,
            t,
            only_followed(found),
        ).visited,
    decreases t, 1nat,
{
    let ts = t.children;
    let bare = only_followed(found);
    let inner = label_inside(sc.guards, label, t);
    lemma_labels(sc, label, t);
    let end = extracted(sc, label, t, found);
    let alone = extracted(sc, label, t, bare);
    if t.kind == "MATCH_ARM"@ {
        lemma_at_behind(sc, inner, t, nth_place(ts, Role::Expr, 0), found);
    } else if t.kind == "IF_EXPR"@ {
        lemma_at_behind(sc, inner, t, then_place(ts), found);
        let mid = extracted_at(sc, inner, ts, then_place(ts), found);
        let part = extracted_at(sc, inner, ts, then_place(ts), bare);
        lemma_at_behind(sc, inner, t, else_place(ts), mid);
        lemma_at_behind(sc, inner, t, else_place(ts), part);
        assert(only_followed(mid) == only_followed(part));
        let last = extracted_at(sc, inner, ts, else_place(ts), only_followed(mid));
        lemma_behind_chain(found, mid, end, part, last, alone);
    } else {
        let mid = if t.kind == "CALL_EXPR"@ {
            called(sc, label, ts, found)
        } else if t.kind == "METHOD_CALL_EXPR"@ {
            method_called(sc, label, ts, found)
        } else {
            found
        };
        let part = if t.kind == "CALL_EXPR"@ {
            called(sc, label, ts, bare)
        } else if t.kind == "METHOD_CALL_EXPR"@ {
            method_called(sc, label, ts, bare)
        } else {
            bare
        };
        lemma_call_behind(sc, label, ts, found);
        assert(found.transitions + Seq::<TransitionView>::empty() =~= found.transitions);
        lemma_all_behind(sc, label, ts, mid);
        lemma_all_behind(sc, label, ts, part);
        assert(only_followed(mid) == only_followed(part));
        let last = extracted_all(sc, label, ts, only_followed(mid));
        lemma_behind_chain(found, mid, end, part, last, alone);
    }
}

proof fn lemma_at_behind(
    sc: Scope,
    label: Option<Seq<char>>,
    t: TreeView,
    place: Option<int>,
    found: Found,
)
    ensures
        found_behind(
            found,
            extracted_at(sc, label, t.children, place, only_followed(found)),
            extracted_at(sc, label, t.children, place, found),
        ),
    decreases t, 0nat,
{
    assert(found.transitions + Seq::<TransitionView>::empty() =~= found.transitions);
    match place {
        Some(i) => {
            if 0 <= i < t.children.len() {
                law_found_by_tree(sc, label, t.children[i], found);
            }
        },
        None => {},
    }
}

proof fn lemma_all_behind(sc: Scope, label: Option<Seq<char>>, ts: Seq<TreeView>, found: Found)
    ensures
        found_behind(
            found,
            extracted_all(sc, label, ts, only_followed(found)),
            extracted_all(sc, label, ts, found),
        ),
    decreases ts, 0nat,
{
    let bare = only_followed(found);
    if ts.len() > 0 {
        let rest = ts.drop_last();
        lemma_all_behind(sc, label, rest, found);
        let mid = extracted_all(sc, label, rest, found);
        let part = extracted_all(sc, label, rest, bare);
        law_found_by_tree(sc, label, ts.last(), mid);
        law_found_by_tree(sc, label, ts.last(), part);
        assert(only_followed(mid) == only_followed(part));
        let last = extracted(sc, label, ts.last(), only_followed(mid));
        lemma_behind_chain(
            found,
            mid,
            extracted_all(sc, label, ts, found),
            part,
            last,
            extracted_all(sc, label, ts, bare),
        );
    } else {
        assert(found.transitions + Seq::<TransitionView>::empty() =~= found.transitions);
    }
}

/// The function `func` is called where what is done in `t` goes on.
pub open spec fn is_run_in(t: TreeView, func: Seq<char>) -> bool {
    exists|path: Seq<int>| #[trigger]
        reaches_down(t, path) && (node_at(t, path) matches Some(n) && runs(n, func))
}

proof fn lemma_run_below(t: TreeView, i: int, func: Seq<char>)
    requires
        goes_on_in(t, i),
        is_run_in(t.children[i], func),
    ensures
        is_run_in(t, func),
{
    let path = choose|path: Seq<int>| #[trigger]
        reaches_down(t.children[i], path) && (node_at(t.children[i], path) matches Some(n) && runs(
            n,
            func,
        ));
    let way = seq![i] + path;
    assert(way.drop_first() =~= path);
    assert(reaches_down(t, way));
}

proof fn lemma_followed_visits(
    sc: Scope,
    label: Option<Seq<char>>,
    func: Seq<char>,
    found: Found,
    x: Seq<char>,
)
    ensures
        followed(sc, label, func, found).visited.contains(x) ==> found.visited.contains(x) || x
            == func,
{
    let after = followed(sc, label, func, found);
    if after.visited.contains(x) && !found.visited.contains(x) {
        let k = after.visited.index_of(x);
        if k < found.visited.len() {
            assert(found.visited[k] == x);
        }
    }
}

proof fn lemma_call_visits(
    sc: Scope,
    label: Option<Seq<char>>,
    t: TreeView,
    found: Found,
    x: Seq<char>,
)
    ensures
        t.kind == "CALL_EXPR"@ && called(sc, label, t.children, found).visited.contains(x)
            ==> found.visited.contains(x) || is_run_in(t, x),
        t.kind == "METHOD_CALL_EXPR"@ && method_called(
            sc,
            label,
            t.children,
            found,
        ).visited.contains(x) ==> found.visited.contains(x) || is_run_in(t, x),
{
    let ts = t.children;
    let here = Seq::<int>::empty();
    assert(reaches_down(t, here) && node_at(t, here) == Some(t));
    lemma_place_expr(ts, 0, 0);
    match nth_place(ts, Role::Expr, 0) {
        Some(i) => {
            let callee = unspaced(ts[i].text);
            lemma_unspaced(ts[i].text);
            law_occurrences(callee, "Transition::To"@);
            assert(is_nth_expr(ts, i, 0));
            assert(calls(ts, callee));
            lemma_last_is_part(callee);
            lemma_followed_visits(sc, label, last_segment(callee), found, x);
        },
        None => {},
    }
    lemma_place_first(ts, Role::Name, 0);
    match nth_place(ts, Role::Name, 0) {
        Some(i) => {
            assert(is_first_of(ts, i, "NAME_REF"@));
            lemma_followed_visits(sc, label, ts[i].text, found, x);
        },
        None => {},
    }
}

/// Only functions that are called in what a state does are followed.
pub proof fn law_followed_with_reason(
    sc: Scope,
    label: Option<Seq<char>>,
    t: TreeView,
    found: Found,
    x: Seq<char>,
)
    requires
        extracted(sc, label, t, found).visited.contains(x),
    ensures
        found.visited.contains(x) || is_run_in(t, x),
    decreases t, 1nat,
{
    lemma_kinds();
    let ts = t.children;
    let inner = label_inside(sc.guards, label, t);
    lemma_labels(sc, label, t);
    if t.kind == "MATCH_ARM"@ {
        lemma_place_expr(ts, 0, 0);
        match nth_place(ts, Role::Expr, 0) {
            Some(i) => {
                assert(goes_on_in(t, i));
                law_followed_with_reason(sc, inner, ts[i], found, x);
                if is_run_in(ts[i], x) {
                    lemma_run_below(t, i, x);
                }
            },
            None => {},
        }
    } else if t.kind == "IF_EXPR"@ {
        lemma_place_expr(ts, 1, 0);
        lemma_place_expr(ts, 2, 0);
        let mid = extracted_at(sc, inner, ts, then_place(ts), found);
        if let Some(i) = else_place(ts) {
            assert(goes_on_in(t, i));
            law_followed_with_reason(sc, inner, ts[i], mid, x);
            if is_run_in(ts[i], x) {
                lemma_run_below(t, i, x);
            }
        }
        if mid.visited.contains(x) {
            if let Some(i) = then_place(ts) {
                assert(goes_on_in(t, i));
                law_followed_with_reason(sc, inner, ts[i], found, x);
                if is_run_in(ts[i], x) {
                    lemma_run_below(t, i, x);
                }
            }
        }
    } else {
        let mid = if t.kind == "CALL_EXPR"@ {
            called(sc, label, ts, found)
        } else if t.kind == "METHOD_CALL_EXPR"@ {
            method_called(sc, label, ts, found)
        } else {
            found
        };
        lemma_call_visits(sc, label, t, found, x);
        lemma_all_visits(sc, label, ts, mid, x);
        if !mid.visited.contains(x) {
            let i = choose|i: int| 0 <= i < ts.len() && is_run_in(#[trigger] ts[i], x);
            lemma_run_below(t, i, x);
        }
    }
}

proof fn lemma_all_visits(
    sc: Scope,
    label: Option<Seq<char>>,
    ts: Seq<TreeView>,
    found: Found,
    x: Seq<char>,
)
    requires
        extracted_all(sc, label, ts, found).visited.contains(x),
    ensures
        found.visited.contains(x) || exists|i: int|
            0 <= i < ts.len() && is_run_in(#[trigger] ts[i], x),
    decreases ts, 0nat,
{
    if ts.len() > 0 {
        let rest = ts.drop_last();
        let mid = extracted_all(sc, label, rest, found);
        law_followed_with_reason(sc, label, ts.last(), mid, x);
        if mid.visited.contains(x) {
            lemma_all_visits(sc, label, rest, found, x);
            if !found.visited.contains(x) {
                let i = choose|i: int| 0 <= i < rest.len() && is_run_in(#[trigger] rest[i], x);
                assert(ts[i] == rest[i]);
            }
        } else {
            assert(ts[ts.len() - 1] == ts.last());
        }
    }
}

/// How many calls that go to a state stand where what is done in `t` goes on.
pub open spec fn calls_in(fsm: Seq<char>, t: TreeView) -> nat
    decreases t, 1nat, 0nat,
{
    calls_below(fsm, t.children, t, t.children.len()) + if exists|state: Seq<char>| #[trigger]
        goes_to(fsm, t, state) {
        1nat
    } else {
        0nat
    }
}

/// How many calls that go to a state stand in the first `n` of `ts`, the parts of `t`, where
/// what is done goes on.
pub open spec fn calls_below(fsm: Seq<char>, ts: Seq<TreeView>, t: TreeView, n: nat) -> nat
    decreases ts, 0nat, n,
{
    if n == 0 || n > ts.len() {
        0
    } else {
        calls_below(fsm, ts, t, (n - 1) as nat) + if goes_on_in(t, n - 1) {
            calls_in(fsm, ts[n - 1])
        } else {
            0
        }
    }
}

/// The calls in the parts before `n`, where what is done goes on in two of them at most.
proof fn lemma_calls_in_two(fsm: Seq<char>, t: TreeView, a: Option<int>, b: Option<int>, n: nat)
    requires
        n <= t.children.len(),
        forall|i: int|
            0 <= i < t.children.len() ==> (#[trigger] goes_on_in(t, i) <==> a == Some(i) || b
                == Some(i)),
        a is Some && b is Some ==> a != b,
    ensures
        calls_below(fsm, t.children, t, n) == (if a is Some && 0 <= a->0 < n {
            calls_in(fsm, t.children[a->0])
        } else {
            0
        }) + (if b is Some && 0 <= b->0 < n {
            calls_in(fsm, t.children[b->0])
        } else {
            0
        }),
    decreases n,
{
    if n > 0 {
        lemma_calls_in_two(fsm, t, a, b, (n - 1) as nat);
        assert(goes_on_in(t, n - 1) <==> a == Some(n - 1) || b == Some(n - 1));
    }
}

proof fn lemma_two_places(ts: Seq<TreeView>, i: int, j: int, n: nat, m: nat)
    requires
        is_nth_expr(ts, i, n),
        is_nth_expr(ts, j, m),
        n != m,
    ensures
        i != j,
{
}

proof fn lemma_call_count(sc: Scope, label: Option<Seq<char>>, t: TreeView, found: Found)
    requires
        sc.mentions.dom() == Set::<Seq<char>>::empty(),
    ensures
        t.kind == "CALL_EXPR"@ ==> called(sc, label, t.children, found).transitions.len()
            == found.transitions.len() + if exists|state: Seq<char>| #[trigger]
            goes_to(sc.fsm, t, state) {
            1nat
        } else {
            0nat
        },
        method_called(sc, label, t.children, found).transitions.len() == found.transitions.len(),
{
    if t.kind == "CALL_EXPR"@ {
        let ts = t.children;
        let after = called(sc, label, ts, found);
        if exists|state: Seq<char>| #[trigger] goes_to(sc.fsm, t, state) {
            let state = choose|state: Seq<char>| #[trigger] goes_to(sc.fsm, t, state);
            lemma_call_adds(sc, label, t, found, state);
            let x = TransitionView {
                source: sc.source,
                target: state,
                label: label_shown(label),
            };
            let k = choose|k: int|
                found.transitions.len() <= k < after.transitions.len()
                    && #[trigger] after.transitions[k] == x;
            assert(after.transitions.len() > found.transitions.len());
        }
        lemma_place_expr(ts, 0, 0);
        match nth_place(ts, Role::Expr, 0) {
            Some(i) => {
                let callee = unspaced(ts[i].text);
                lemma_unspaced(ts[i].text);
                law_occurrences(callee, "Transition::To"@);
                assert(is_nth_expr(ts, i, 0));
                assert(calls(ts, callee));
                if holds(callee, "Transition::To"@) {
                    lemma_place_first(ts, Role::Args, 0);
                    if let Some(a) = nth_place(ts, Role::Args, 0) {
                        let args = ts[a].children;
                        lemma_place_expr(args, 0, 0);
                        if let Some(e) = nth_place(args, Role::Expr, 0) {
                            let text = args[e].text;
                            assert(is_first_of(ts, a, "ARG_LIST"@));
                            assert(is_nth_expr(args, e, 0));
                            assert(has_argument(ts, text));
                            lemma_target_named(sc.fsm, text);
                            if let Some(state) = target_of(sc.fsm, text) {
                                assert(goes_to(sc.fsm, t, state));
                            }
                        }
                    }
                }
            },
            None => {},
        }
    }
}

/// Each call that goes to a state gives one transition, where no function mentions any.
pub proof fn law_one_for_each_call(sc: Scope, label: Option<Seq<char>>, t: TreeView, found: Found)
    requires
        sc.mentions.dom() == Set::<Seq<char>>::empty(),
    ensures
        extracted(sc, label, t, found).transitions.len() == found.transitions.len() + calls_in(
            sc.fsm,
            t,
        ),
    decreases t, 1nat,
{
    lemma_kinds();
    let ts = t.children;
    let n = ts.len();
    let inner = label_inside(sc.guards, label, t);
    lemma_labels(sc, label, t);
    lemma_call_count(sc, label, t, found);
    if t.kind == "MATCH_ARM"@ {
        lemma_place_expr(ts, 0, 0);
        let a = nth_place(ts, Role::Expr, 0);
        assert forall|i: int| 0 <= i < n implies (#[trigger] goes_on_in(t, i) <==> a == Some(i)
            || None::<int> == Some(i)) by {
            if goes_on_in(t, i) {
                lemma_expr_place(ts, i, 0);
            }
        }
        lemma_calls_in_two(sc.fsm, t, a, None, n);
        if let Some(i) = a {
            law_one_for_each_call(sc, inner, ts[i], found);
        }
    } else if t.kind == "IF_EXPR"@ {
        lemma_place_expr(ts, 1, 0);
        lemma_place_expr(ts, 2, 0);
        let a = then_place(ts);
        let b = else_place(ts);
        assert forall|i: int| 0 <= i < n implies (#[trigger] goes_on_in(t, i) <==> a == Some(i)
            || b == Some(i)) by {
            if is_nth_expr(ts, i, 1) {
                lemma_expr_place(ts, i, 1);
            }
            if is_nth_expr(ts, i, 2) {
                lemma_expr_place(ts, i, 2);
            }
        }
        if a is Some && b is Some {
            lemma_two_places(ts, a->0, b->0, 1, 2);
        }
        lemma_calls_in_two(sc.fsm, t, a, b, n);
        let mid = extracted_at(sc, inner, ts, a, found);
        if let Some(i) = a {
            law_one_for_each_call(sc, inner, ts[i], found);
        }
        if let Some(i) = b {
            law_one_for_each_call(sc, inner, ts[i], mid);
        }
    } else {
        let mid = if t.kind == "CALL_EXPR"@ {
            called(sc, label, ts, found)
        } else if t.kind == "METHOD_CALL_EXPR"@ {
            method_called(sc, label, ts, found)
        } else {
            found
        };
        assert(inner == label);
        lemma_count_all(sc, label, t, n, mid);
        assert(ts.take(n as int) =~= ts);
    }
}

proof fn lemma_count_all(
    sc: Scope,
    label: Option<Seq<char>>,
    t: TreeView,
    n: nat,
    found: Found,
)
    requires
        sc.mentions.dom() == Set::<Seq<char>>::empty(),
        t.kind != "MATCH_ARM"@,
        t.kind != "IF_EXPR"@,
        n <= t.children.len(),
    ensures
        extracted_all(sc, label, t.children.take(n as int), found).transitions.len()
            == found.transitions.len() + calls_below(sc.fsm, t.children, t, n),
    decreases t, 0nat, n,
{
    let ts = t.children;
    if n > 0 {
        let part = ts.take(n as int);
        assert(part.drop_last() =~= ts.take(n - 1));
        assert(part.last() == ts[n - 1]);
        lemma_count_all(sc, label, t, (n - 1) as nat, found);
        let mid = extracted_all(sc, label, ts.take(n - 1), found);
        law_one_for_each_call(sc, label, ts[n - 1], mid);
        assert(goes_on_in(t, n - 1));
    }
}

/// A function gives one transition for each path to a state that it mentions, in the order of
/// the paths.
pub proof fn law_mentions_in_order(
    sc: Scope,
    label: Option<Seq<char>>,
    func: Seq<char>,
    a: Seq<Seq<char>>,
    b: Seq<Seq<char>>,
    name: Seq<char>,
)
    ensures
        mentioned(sc, label, func, a + b) == mentioned(sc, label, func, a) + mentioned(
            sc,
            label,
            func,
            b,
        ),
        mentioned(sc, label, func, seq![name]).len() <= 1,
        mentioned(sc, label, func, seq![name]).len() == 1 <==> exists|state: Seq<char>| #[trigger]
            mentions_state(sc.fsm, name, state),
    decreases b.len(),
{
    let one = seq![name];
    assert(one.drop_last() =~= Seq::empty());
    assert(mentioned(sc, label, func, one.drop_last()) =~= Seq::empty());
    if let Some(state) = mentioned_state(sc.fsm, name) {
        lemma_mentioned_state(sc.fsm, name, state);
    }
    if exists|state: Seq<char>| #[trigger] mentions_state(sc.fsm, name, state) {
        let state = choose|state: Seq<char>| #[trigger] mentions_state(sc.fsm, name, state);
        lemma_mentioned_state(sc.fsm, name, state);
    }
    if b.len() == 0 {
        assert(a + b =~= a);
        assert(mentioned(sc, label, func, a) + mentioned(sc, label, func, b) =~= mentioned(
            sc,
            label,
            func,
            a,
        ));
    } else {
        assert((a + b).drop_last() =~= a + b.drop_last());
        assert((a + b).last() == b.last());
        law_mentions_in_order(sc, label, func, a, b.drop_last(), name);
        let x = mentioned(sc, label, func, a);
        assert(mentioned(sc, label, func, a + b) =~= x + mentioned(sc, label, func, b));
    }
}

} // verus!
