//! Which transitions are found in a tree, told by the positions of the calls in it.
use vstd::prelude::*;

use crate::labels::{cleaned, merged};
use crate::model::TransitionView;
use crate::positions::{
    is_first_of, is_first_pat, is_nth_expr, lemma_expr_place, lemma_first_place, lemma_place_expr,
    lemma_place_first, lemma_unspaced, node_at, unspaced,
};
use crate::syntax::{condition_place, else_place, nth_place, then_place, Role, TreeView};
use crate::text::{before, holds, lemma_pieces_nonempty, pieces, starts, trimmed};
use crate::text_laws::{
    absent_before, all_white, edges_black, law_first_piece, law_occurrences, law_one_piece,
    law_trimmed, stands_at,
};
use crate::transition_laws::{
    grows, law_extraction_grows, lemma_call_grows, lemma_grows_chain, lemma_same_grows,
};
use crate::transitions::{
    arm_label, called, extracted, extracted_all, extracted_at, if_label, is_event, last_segment,
    method_called, shown_condition, target_of, text_at, Found, Scope,
};

verus! {

/// What is done in the node `n` goes on in the node at `i` below it: in the body of a match
/// arm, in the block of an `if`, in the block or the `if` behind its `else`, and in everything
/// below any other node.
pub open spec fn goes_on_in(n: TreeView, i: int) -> bool {
    &&& 0 <= i < n.children.len()
    &&& n.kind == "MATCH_ARM"@ ==> is_nth_expr(n.children, i, 0)
    &&& n.kind == "IF_EXPR"@ ==> {
        ||| is_nth_expr(n.children, i, 1) && n.children[i].kind == "BLOCK_EXPR"@
        ||| is_nth_expr(n.children, i, 2) && (n.children[i].kind == "BLOCK_EXPR"@
            || n.children[i].kind == "IF_EXPR"@)
    }
}

/// What is done in `t` goes on at the end of the way `path`.
pub open spec fn reaches_down(t: TreeView, path: Seq<int>) -> bool
    decreases path.len(),
{
    path.len() > 0 ==> goes_on_in(t, path[0]) && reaches_down(
        t.children[path[0]],
        path.drop_first(),
    )
}

/// The text of the pattern of a match arm with the parts `ts`.
pub open spec fn pattern_text(ts: Seq<TreeView>) -> Seq<char> {
    if exists|i: int| #[trigger] is_first_pat(ts, i) {
        ts[choose|i: int| #[trigger] is_first_pat(ts, i)].text
    } else {
        Seq::empty()
    }
}

/// A match arm with the parts `ts` has a guard.
pub open spec fn has_guard(ts: Seq<TreeView>) -> bool {
    exists|i: int| #[trigger] is_first_of(ts, i, "MATCH_GUARD"@)
}

/// The text of the guard of a match arm with the parts `ts`.
pub open spec fn guard_text(ts: Seq<TreeView>) -> Seq<char> {
    ts[choose|i: int| #[trigger] is_first_of(ts, i, "MATCH_GUARD"@)].text
}

/// The condition of an `if` with the parts `ts` stands at `i`: it is the first expression, and
/// no block where no other expression follows.
pub open spec fn is_condition(ts: Seq<TreeView>, i: int) -> bool {
    &&& is_nth_expr(ts, i, 0)
    &&& ts[i].kind == "BLOCK_EXPR"@ ==> exists|j: int| #[trigger] is_nth_expr(ts, j, 1)
}

/// The label of the condition of an `if` with the parts `ts`.
pub open spec fn condition_label(ts: Seq<TreeView>) -> Seq<char> {
    if exists|i: int| #[trigger] is_condition(ts, i) {
        cleaned(ts[choose|i: int| #[trigger] is_condition(ts, i)].text)
    } else {
        Seq::empty()
    }
}

/// `s` holds `pat`.
pub open spec fn says(s: Seq<char>, pat: Seq<char>) -> bool {
    exists|i: int| #[trigger] stands_at(s, i, pat)
}

/// The condition with this label takes an event apart.
pub open spec fn takes_event(label: Seq<char>) -> bool {
    says(label, "let"@) && (says(label, "evt"@) || says(label, "event"@))
}

/// The label inside the node `n`, where `label` is the one around it.
pub open spec fn label_inside(
    guards: bool,
    label: Option<Seq<char>>,
    n: TreeView,
) -> Option<Seq<char>> {
    if n.kind == "MATCH_ARM"@ {
        let event = merged(label, cleaned(pattern_text(n.children)), false);
        if guards && has_guard(n.children) {
            Some(merged(Some(event), cleaned(guard_text(n.children)), true))
        } else {
            Some(event)
        }
    } else if n.kind == "IF_EXPR"@ && guards && condition_label(n.children).len() > 0 {
        let cond = condition_label(n.children);
        Some(merged(label, cond, !takes_event(cond)))
    } else {
        label
    }
}

/// The label at the end of the way `path`: that of all arms and conditions on the way.
pub open spec fn label_along(
    guards: bool,
    label: Option<Seq<char>>,
    t: TreeView,
    path: Seq<int>,
) -> Option<Seq<char>>
    decreases path.len(),
{
    if path.len() == 0 {
        label
    } else {
        label_along(
            guards,
            label_inside(guards, label, t),
            t.children[path[0]],
            path.drop_first(),
        )
    }
}

/// `front` is the part of a path before its last segment.
pub open spec fn is_path_front(front: Seq<char>) -> bool {
    front.len() > 0 ==> {
        &&& front.len() >= 2
        &&& front[front.len() - 1] == ':' && front[front.len() - 2] == ':'
        &&& front.len() >= 3 ==> front[front.len() - 3] != ':'
    }
}

/// `s` holds neither a parenthesis nor a brace that opens.
pub open spec fn unopened(s: Seq<char>) -> bool {
    forall|i: int| 0 <= i < s.len() ==> #[trigger] s[i] != '(' && s[i] != '{'
}

/// How many colons stand directly before the position `k` of `s`.
pub open spec fn colons_before(s: Seq<char>, k: int) -> nat
    decreases k,
{
    if 0 < k <= s.len() && s[k - 1] == ':' {
        colons_before(s, k - 1) + 1
    } else {
        0
    }
}

/// The last part of the path `path` is `part`: pairs of colons stand before it, unless it is
/// all of the path, and none in it.
pub open spec fn is_last_part(path: Seq<char>, part: Seq<char>) -> bool {
    let k = path.len() - part.len();
    &&& stands_at(path, k, part)
    &&& absent_before(part, part.len() as int, seq![':', ':'])
    &&& colons_before(path, k) % 2 == 0
    &&& k > 0 ==> colons_before(path, k) > 0
}

/// The argument `text` names the state `state` by the path `path`, before what stands in
/// parentheses or braces.
pub open spec fn argument_names(
    text: Seq<char>,
    left: Seq<char>,
    path: Seq<char>,
    right: Seq<char>,
    rest: Seq<char>,
    state: Seq<char>,
) -> bool {
    &&& unspaced(text) == left + path + right + rest
    &&& all_white(left) && all_white(right)
    &&& edges_black(path)
    &&& unopened(left + path + right)
    &&& rest.len() > 0 ==> rest[0] == '(' || rest[0] == '{'
    &&& is_last_part(path, state)
}

/// The argument `text` names the state `state`.
pub open spec fn names_state(text: Seq<char>, state: Seq<char>) -> bool {
    exists|left: Seq<char>, path: Seq<char>, right: Seq<char>, rest: Seq<char>|
        #[trigger] argument_names(text, left, path, right, rest, state)
}

/// The call with the parts `ts` calls a function whose path reads as `callee` without spaces.
pub open spec fn calls(ts: Seq<TreeView>, callee: Seq<char>) -> bool {
    exists|c: int| #[trigger] is_nth_expr(ts, c, 0) && unspaced(ts[c].text) == callee
}

/// The first argument of the call with the parts `ts` is `text`.
pub open spec fn has_argument(ts: Seq<TreeView>, text: Seq<char>) -> bool {
    exists|a: int, e: int|
        #![trigger is_first_of(ts, a, "ARG_LIST"@), is_nth_expr(ts[a].children, e, 0)]
        is_first_of(ts, a, "ARG_LIST"@) && is_nth_expr(ts[a].children, e, 0)
            && ts[a].children[e].text == text
}

/// The node `n` is a call that goes to `state`.
pub open spec fn goes_to(fsm: Seq<char>, n: TreeView, state: Seq<char>) -> bool {
    &&& n.kind == "CALL_EXPR"@
    &&& exists|callee: Seq<char>| #[trigger] calls(n.children, callee) && says(
        callee,
        "Transition::To"@,
    )
    &&& exists|text: Seq<char>| #[trigger]
        has_argument(n.children, text) && names_state(text, state)
    &&& state.len() > 0
    &&& state != fsm
    &&& state != "Self"@
}

/// The node `n` calls the function `func`, or the method `func`.
pub open spec fn runs(n: TreeView, func: Seq<char>) -> bool {
    ||| n.kind == "METHOD_CALL_EXPR"@ && exists|i: int| #[trigger]
        is_first_of(n.children, i, "NAME_REF"@) && n.children[i].text == func
    ||| n.kind == "CALL_EXPR"@ && exists|callee: Seq<char>| #[trigger]
        calls(n.children, callee) && !says(callee, "Transition::To"@) && is_last_part(callee, func)
}

/// `after` has the transition `t` behind those of `before`.
pub open spec fn adds(before: Found, after: Found, t: TransitionView) -> bool {
    exists|k: int|
        before.transitions.len() <= k < after.transitions.len() && #[trigger] after.transitions[k]
            == t
}

pub proof fn lemma_adds_early(sc: Scope, a: Found, b: Found, c: Found, t: TransitionView)
    requires
        adds(a, b, t),
        grows(sc, b, c),
    ensures
        adds(a, c, t),
{
    let k = choose|k: int|
        a.transitions.len() <= k < b.transitions.len() && #[trigger] b.transitions[k] == t;
    assert(c.transitions.take(b.transitions.len() as int)[k] == b.transitions[k]);
    assert(c.transitions[k] == t);
}

pub proof fn lemma_adds_late(sc: Scope, a: Found, b: Found, c: Found, t: TransitionView)
    requires
        grows(sc, a, b),
        adds(b, c, t),
    ensures
        adds(a, c, t),
{
    let k = choose|k: int|
        b.transitions.len() <= k < c.transitions.len() && #[trigger] c.transitions[k] == t;
    assert(c.transitions[k] == t);
}

pub proof fn lemma_visited_stays(sc: Scope, a: Found, b: Found, func: Seq<char>)
    requires
        grows(sc, a, b),
        a.visited.contains(func),
    ensures
        b.visited.contains(func),
{
    let k = a.visited.index_of(func);
    assert(b.visited.take(a.visited.len() as int)[k] == func);
    assert(b.visited[k] == func);
}

/// There is one first pattern at most, and so on.
pub proof fn lemma_labels(sc: Scope, label: Option<Seq<char>>, n: TreeView)
    ensures
        n.kind == "MATCH_ARM"@ ==> label_inside(sc.guards, label, n) == Some(
            arm_label(sc, label, n.children),
        ),
        n.kind == "IF_EXPR"@ ==> label_inside(sc.guards, label, n) == if_label(
            sc,
            label,
            n.children,
        ),
{
    let ts = n.children;
    reveal_strlit("MATCH_ARM");
    reveal_strlit("IF_EXPR");
    assert("MATCH_ARM"@.len() != "IF_EXPR"@.len());
    if n.kind == "MATCH_ARM"@ {
        lemma_place_first(ts, Role::Pat, 0);
        match nth_place(ts, Role::Pat, 0) {
            Some(i) => {
                assert(is_first_pat(ts, i));
                let j = choose|j: int| #[trigger] is_first_pat(ts, j);
                if i < j {
                    assert(!ts[i].is_pat);
                } else if j < i {
                    assert(!ts[j].is_pat);
                }
            },
            None => {
                if exists|j: int| #[trigger] is_first_pat(ts, j) {
                    let j = choose|j: int| #[trigger] is_first_pat(ts, j);
                    assert(!ts[j].is_pat);
                }
            },
        }
        assert(pattern_text(ts) =~= text_at(ts, nth_place(ts, Role::Pat, 0)));
        lemma_place_first(ts, Role::Guard, 0);
        match nth_place(ts, Role::Guard, 0) {
            Some(i) => {
                assert(is_first_of(ts, i, "MATCH_GUARD"@));
                let j = choose|j: int| #[trigger] is_first_of(ts, j, "MATCH_GUARD"@);
                if i < j {
                    assert(ts[i].kind != "MATCH_GUARD"@);
                } else if j < i {
                    assert(ts[j].kind != "MATCH_GUARD"@);
                }
            },
            None => {
                if has_guard(ts) {
                    let j = choose|j: int| #[trigger] is_first_of(ts, j, "MATCH_GUARD"@);
                    assert(ts[j].kind != "MATCH_GUARD"@);
                }
            },
        }
    } else if n.kind == "IF_EXPR"@ {
        lemma_place_expr(ts, 0, 0);
        lemma_place_expr(ts, 1, 0);
        if exists|j: int| #[trigger] is_nth_expr(ts, j, 1) {
            let j = choose|j: int| #[trigger] is_nth_expr(ts, j, 1);
            lemma_expr_place(ts, j, 1);
        }
        match condition_place(ts) {
            Some(i) => {
                assert(is_nth_expr(ts, i, 0));
                if nth_place(ts, Role::Expr, 1) is Some {
                    assert(is_nth_expr(ts, nth_place(ts, Role::Expr, 1)->0, 1));
                }
                assert(is_condition(ts, i));
                let j = choose|j: int| #[trigger] is_condition(ts, j);
                lemma_expr_place(ts, j, 0);
            },
            None => {
                if exists|j: int| #[trigger] is_condition(ts, j) {
                    let j = choose|j: int| #[trigger] is_condition(ts, j);
                    lemma_expr_place(ts, j, 0);
                }
            },
        }
        let cond = shown_condition(ts);
        assert(condition_label(ts) =~= cond);
        law_occurrences(cond, "let"@);
        law_occurrences(cond, "evt"@);
        law_occurrences(cond, "event"@);
        assert(takes_event(cond) == is_event(cond));
    }
}

/// The last segment of a path is what stands behind its front.
pub proof fn lemma_last_segment(front: Seq<char>, name: Seq<char>)
    requires
        is_path_front(front),
        !name.contains(':'),
    ensures
        last_segment(front + name) == name,
    decreases front.len(),
{
    reveal_strlit("::");
    let sep = "::"@;
    let s = front + name;
    lemma_no_sep(name);
    if front.len() == 0 {
        assert(s =~= name);
        law_one_piece(name, sep);
    } else {
        let n = front.len() as int;
        // The first separator parts a segment off, and what is left is a shorter path.
        assert(stands_at(front, n - 2, sep));
        let i = lemma_first_sep(front, n - 2);
        let a = front.take(i);
        let rest = front.skip(i + 2);
        assert(front =~= a + sep + rest) by {
            assert(front[i + 0] == sep[0] && front[i + 1] == sep[1]);
        }
        assert(s =~= a + sep + (rest + name));
        assert forall|k: int| 0 <= k < i implies !#[trigger] stands_at(
            a + sep + (rest + name),
            k,
            sep,
        ) by {
            if stands_at(a + sep + (rest + name), k, sep) {
                assert(s[k + 0] == sep[0] && s[k + 1] == sep[1]);
                assert(front[k] == ':' && front[k + 1] == ':');
                assert forall|q: int| 0 <= q < sep.len() implies front[k + q] == #[trigger] sep[q] by {}
                assert(stands_at(front, k, sep));
            }
        }
        law_first_piece(a, sep, rest + name);
        if rest.len() == 1 {
            assert(front[i + 1] == ':' && front[n - 1] == ':' && front[n - 2] == ':');
            assert(n - 3 == i);
            assert(front[i + 0] == sep[0]);
            assert(false);
        }
        if rest.len() > 0 {
            assert(rest[rest.len() - 1] == front[n - 1]);
            assert(rest[rest.len() - 2] == front[n - 2]);
            if rest.len() >= 3 {
                assert(rest[rest.len() - 3] == front[n - 3]);
            }
        }
        lemma_last_segment(rest, name);
        lemma_pieces_nonempty(rest + name, sep);
        assert(pieces(s, sep).last() == pieces(rest + name, sep).last());
    }
}

proof fn lemma_no_sep(name: Seq<char>)
    requires
        !name.contains(':'),
    ensures
        absent_before(name, name.len() as int, "::"@),
{
    reveal_strlit("::");
    assert forall|i: int| 0 <= i < name.len() implies !#[trigger] stands_at(name, i, "::"@) by {
        if stands_at(name, i, "::"@) {
            assert(name[i + 0] == "::"@[0]);
            assert(name.contains(':'));
        }
    }
}

pub proof fn lemma_first_sep(s: Seq<char>, i: int) -> (r: int)
    requires
        stands_at(s, i, "::"@),
    ensures
        stands_at(s, r, "::"@),
        r <= i,
        absent_before(s, r, "::"@),
    decreases i,
{
    if exists|j: int| 0 <= j < i && #[trigger] stands_at(s, j, "::"@) {
        let j = choose|j: int| 0 <= j < i && #[trigger] stands_at(s, j, "::"@);
        lemma_first_sep(s, j)
    } else {
        i
    }
}

/// What stands before a mark that a text does not hold is the whole text, and what stands
/// before its first occurrence is the part before that.
pub proof fn lemma_before(a: Seq<char>, mark: char, rest: Seq<char>)
    requires
        !a.contains(mark),
    ensures
        rest.len() == 0 ==> before(a + rest, seq![mark]) == a,
        rest.len() > 0 && rest[0] == mark ==> before(a + rest, seq![mark]) == a,
{
    let sep = seq![mark];
    let s = a + rest;
    assert forall|i: int| 0 <= i < a.len() implies !#[trigger] stands_at(s, i, sep) by {
        if stands_at(s, i, sep) {
            assert(s[i + 0] == sep[0]);
            assert(a[i] == mark);
        }
    }
    if rest.len() == 0 {
        assert(s =~= a);
        law_one_piece(a, sep);
    } else if rest[0] == mark {
        assert(s =~= a + sep + rest.skip(1));
        law_first_piece(a, sep, rest.skip(1));
    }
}

/// What stands before the first parenthesis or brace that opens.
pub proof fn lemma_before_marks(head: Seq<char>, rest: Seq<char>)
    requires
        unopened(head),
        rest.len() > 0 ==> rest[0] == '(' || rest[0] == '{',
    ensures
        before(before(head + rest, "("@), "{"@) == head,
{
    reveal_strlit("(");
    reveal_strlit("{");
    assert("("@ =~= seq!['(']);
    assert("{"@ =~= seq!['{']);
    assert(!head.contains('(') && !head.contains('{'));
    if rest.len() > 0 && rest[0] == '{' {
        // What stands before the parenthesis, if there is one, starts with the same head.
        let cut = lemma_cut(head, rest);
        lemma_before(head, '{', cut);
    } else {
        lemma_before(head, '(', rest);
        assert(head + Seq::<char>::empty() =~= head);
        lemma_before(head, '{', Seq::empty());
    }
}

proof fn lemma_colons_few(s: Seq<char>, k: int)
    requires
        0 <= k <= s.len(),
    ensures
        colons_before(s, k) <= k,
        colons_before(s, k) == k ==> forall|j: int| 0 <= j < k ==> #[trigger] s[j] == ':',
    decreases k,
{
    if k > 0 && s[k - 1] == ':' {
        lemma_colons_few(s, k - 1);
    }
}

/// The colons before a place behind `n` characters in front.
proof fn lemma_colons_through(a: Seq<char>, b: Seq<char>, k: int)
    requires
        0 <= k <= b.len(),
    ensures
        colons_before(a + b, a.len() + k) == if colons_before(b, k) == k {
            k + colons_before(a, a.len() as int)
        } else {
            colons_before(b, k) as int
        },
    decreases k,
{
    let s = a + b;
    lemma_colons_few(b, k);
    if k > 0 {
        assert(s[a.len() + k - 1] == b[k - 1]);
        lemma_colons_few(b, k - 1);
        lemma_colons_through(a, b, k - 1);
    } else {
        lemma_colons_front(a, b, a.len() as int);
    }
}

proof fn lemma_colons_front(a: Seq<char>, b: Seq<char>, k: int)
    requires
        0 <= k <= a.len(),
    ensures
        colons_before(a + b, k) == colons_before(a, k),
    decreases k,
{
    if k > 0 {
        assert((a + b)[k - 1] == a[k - 1]);
        if a[k - 1] == ':' {
            lemma_colons_front(a, b, k - 1);
        }
    }
}

/// The last segment of a path is its last part.
pub proof fn lemma_last_is_part(path: Seq<char>)
    ensures
        is_last_part(path, last_segment(path)),
    decreases path.len(),
{
    reveal_strlit("::");
    let sep = "::"@;
    assert(sep =~= seq![':', ':']);
    if exists|i: int| #[trigger] stands_at(path, i, sep) {
        let i = lemma_first_sep(path, choose|i: int| #[trigger] stands_at(path, i, sep));
        let a = path.take(i);
        let b = path.skip(i + 2);
        assert(path[i + 0] == sep[0] && path[i + 1] == sep[1]);
        assert(path =~= a + sep + b);
        law_first_piece(a, sep, b);
        lemma_pieces_nonempty(b, sep);
        let part = last_segment(b);
        assert(last_segment(path) == part);
        lemma_last_is_part(b);
        let k = b.len() - part.len();
        let head = a + sep;
        assert(path =~= head + b);
        assert(path.len() - part.len() == head.len() + k);
        assert forall|q: int| 0 <= q < part.len() implies path[head.len() + k + q]
            == #[trigger] part[q] by {
            assert(b[k + q] == part[q]);
        }
        lemma_colons_through(head, b, k);
        // No colon stands before the first pair: there would be an earlier one.
        assert(colons_before(head, head.len() as int) == 2) by {
            reveal_with_fuel(colons_before, 3);
            assert(head[i] == ':' && head[i + 1] == ':');
            if i > 0 && head[i - 1] == ':' {
                assert forall|q: int| 0 <= q < sep.len() implies path[i - 1 + q]
                    == #[trigger] sep[q] by {
                    assert(path[i - 1] == head[i - 1]);
                }
                assert(stands_at(path, i - 1, sep));
            }
            lemma_colons_few(head, head.len() as int);
        }
        lemma_colons_few(b, k);
    } else {
        assert(absent_before(path, path.len() as int, sep));
        law_one_piece(path, sep);
        assert forall|q: int| 0 <= q < path.len() implies path[0 + q] == #[trigger] path[q] by {}
    }
}

/// A path has one last part.
pub proof fn lemma_one_last_part(path: Seq<char>, a: Seq<char>, b: Seq<char>)
    requires
        is_last_part(path, a),
        is_last_part(path, b),
        a.len() >= b.len(),
    ensures
        a == b,
{
    let ka = path.len() - a.len();
    let kb = path.len() - b.len();
    if a.len() == b.len() {
        assert forall|q: int| 0 <= q < a.len() implies a[q] == b[q] by {
            assert(path[ka + q] == a[q]);
            assert(path[kb + q] == b[q]);
        }
        assert(a =~= b);
    } else {
        let sep = seq![':', ':'];
        reveal_with_fuel(colons_before, 2);
        assert(path[kb - 1] == ':');
        if kb - ka >= 2 {
            if colons_before(path, kb) >= 2 {
                assert(path[kb - 2] == ':');
                let d = kb - ka - 2;
                assert(a[d] == path[ka + d] && a[d + 1] == path[ka + (d + 1)]);
                assert forall|q: int| 0 <= q < sep.len() implies a[d + q] == #[trigger] sep[q] by {}
                assert(stands_at(a, d, sep));
            }
            assert(false);
        }
        assert(ka == kb - 1);
        assert(colons_before(path, kb) == colons_before(path, ka) + 1);
        assert(false);
    }
}

/// What an argument names is its last segment.
proof fn lemma_argument(
    fsm: Seq<char>,
    text: Seq<char>,
    left: Seq<char>,
    path: Seq<char>,
    right: Seq<char>,
    rest: Seq<char>,
    state: Seq<char>,
)
    requires
        argument_names(text, left, path, right, rest, state),
    ensures
        target_of(fsm, text) == if state == fsm || state == "Self"@ || state.len() == 0 {
            None
        } else {
            Some(state)
        },
{
    lemma_unspaced(text);
    lemma_before_marks(left + path + right, rest);
    law_trimmed(left, path, right);
    lemma_last_is_part(path);
    let last = last_segment(path);
    if last.len() >= state.len() {
        lemma_one_last_part(path, last, state);
    } else {
        lemma_one_last_part(path, state, last);
    }
}

/// What stands before the first parenthesis in a head and a rest, where the head has none.
proof fn lemma_cut(head: Seq<char>, rest: Seq<char>) -> (cut: Seq<char>)
    requires
        !head.contains('('),
        rest.len() > 0,
        rest[0] != '(',
    ensures
        before(head + rest, "("@) == head + cut,
        cut.len() > 0 && cut[0] == rest[0],
{
    reveal_strlit("(");
    let sep = "("@;
    assert(sep =~= seq!['(']);
    if rest.contains('(') {
        let i = rest.index_of('(');
        let first = lemma_first_mark(rest, i);
        let cut = rest.take(first);
        let all = head + cut;
        assert(!all.contains('(')) by {
            if all.contains('(') {
                let k = all.index_of('(');
                if k < head.len() {
                    assert(head[k] == '(');
                } else {
                    assert(rest[k - head.len()] == '(');
                }
            }
        }
        assert(all + rest.skip(first) =~= head + rest);
        lemma_before(all, '(', rest.skip(first));
        cut
    } else {
        let all = head + rest;
        assert(!all.contains('(')) by {
            if all.contains('(') {
                let k = all.index_of('(');
                if k < head.len() {
                    assert(head[k] == '(');
                } else {
                    assert(rest[k - head.len()] == '(');
                }
            }
        }
        assert(all + Seq::<char>::empty() =~= all);
        lemma_before(all, '(', Seq::empty());
        rest
    }
}

proof fn lemma_first_mark(s: Seq<char>, i: int) -> (r: int)
    requires
        0 <= i < s.len(),
        s[i] == '(',
    ensures
        0 <= r <= i,
        s[r] == '(',
        forall|j: int| 0 <= j < r ==> #[trigger] s[j] != '(',
    decreases i,
{
    if exists|j: int| 0 <= j < i && #[trigger] s[j] == '(' {
        lemma_first_mark(s, choose|j: int| 0 <= j < i && #[trigger] s[j] == '(')
    } else {
        i
    }
}

/// A call that goes to a state adds the transition to it.
pub proof fn lemma_call_adds(
    sc: Scope,
    label: Option<Seq<char>>,
    n: TreeView,
    found: Found,
    state: Seq<char>,
)
    requires
        goes_to(sc.fsm, n, state),
    ensures
        adds(
            found,
            called(sc, label, n.children, found),
            TransitionView { source: sc.source, target: state, label: label_shown(label) },
        ),
{
    let ts = n.children;
    let callee = choose|callee: Seq<char>| #[trigger] calls(n.children, callee) && says(
        callee,
        "Transition::To"@,
    );
    let c = choose|c: int| #[trigger] is_nth_expr(ts, c, 0) && unspaced(ts[c].text) == callee;
    lemma_expr_place(ts, c, 0);
    lemma_unspaced(ts[c].text);
    law_occurrences(callee, "Transition::To"@);
    let text = choose|text: Seq<char>| #[trigger]
        has_argument(n.children, text) && names_state(text, state);
    let (left, path, right, rest) = choose|
        left: Seq<char>,
        path: Seq<char>,
        right: Seq<char>,
        rest: Seq<char>,
    |
        #[trigger] argument_names(text, left, path, right, rest, state);
    let (a, e) = choose|a: int, e: int|
        #![trigger is_first_of(ts, a, "ARG_LIST"@), is_nth_expr(ts[a].children, e, 0)]
        is_first_of(ts, a, "ARG_LIST"@) && is_nth_expr(ts[a].children, e, 0)
            && ts[a].children[e].text == text;
    lemma_first_place(ts, Role::Args, a, 0);
    lemma_expr_place(ts[a].children, e, 0);
    lemma_argument(sc.fsm, text, left, path, right, rest, state);
    let after = called(sc, label, ts, found);
    assert(trimmed(Seq::<char>::empty()) =~= Seq::<char>::empty());
    assert(after.transitions[found.transitions.len() as int] == (TransitionView {
        source: sc.source,
        target: state,
        label: label_shown(label),
    }));
}

/// The label that a transition shows: without white space around it, and empty where there is
/// none.
pub open spec fn label_shown(label: Option<Seq<char>>) -> Seq<char> {
    match label {
        Some(l) => trimmed(l),
        None => Seq::empty(),
    }
}

/// What one of several trees adds, whatever has been found before, all of them add.
proof fn lemma_one_of_all(
    sc: Scope,
    label: Option<Seq<char>>,
    ts: Seq<TreeView>,
    i: int,
    found: Found,
    t: TransitionView,
)
    requires
        0 <= i < ts.len(),
        forall|mid: Found| adds(mid, #[trigger] extracted(sc, label, ts[i], mid), t),
    ensures
        adds(found, extracted_all(sc, label, ts, found), t),
    decreases ts.len(),
{
    let rest = ts.drop_last();
    let mid = extracted_all(sc, label, rest, found);
    let end = extracted(sc, label, ts.last(), mid);
    lemma_all_grow(sc, label, rest, found);
    law_extraction_grows(sc, label, ts.last(), mid);
    if i < rest.len() {
        assert(rest[i] == ts[i]);
        lemma_one_of_all(sc, label, rest, i, found, t);
        lemma_adds_early(sc, found, mid, end, t);
    } else {
        lemma_adds_late(sc, found, mid, end, t);
    }
}

pub proof fn lemma_all_grow(sc: Scope, label: Option<Seq<char>>, ts: Seq<TreeView>, found: Found)
    ensures
        grows(sc, found, extracted_all(sc, label, ts, found)),
    decreases ts.len(),
{
    if ts.len() > 0 {
        let mid = extracted_all(sc, label, ts.drop_last(), found);
        lemma_all_grow(sc, label, ts.drop_last(), found);
        law_extraction_grows(sc, label, ts.last(), mid);
        lemma_grows_chain(sc, found, mid, extracted_all(sc, label, ts, found));
    } else {
        lemma_same_grows(sc, found);
    }
}

/// Every call that goes to a state, in the body of an arm, in a branch of an `if`, behind an
/// `else` or anywhere else in what a state does, gives a transition to that state, under the
/// label of all arms and conditions around it.
pub proof fn law_calls_are_found(
    sc: Scope,
    label: Option<Seq<char>>,
    t: TreeView,
    found: Found,
    path: Seq<int>,
    state: Seq<char>,
)
    requires
        reaches_down(t, path),
        node_at(t, path) matches Some(n) && goes_to(sc.fsm, n, state),
    ensures
        adds(
            found,
            extracted(sc, label, t, found),
            TransitionView {
                source: sc.source,
                target: state,
                label: label_shown(label_along(sc.guards, label, t, path)),
            },
        ),
    decreases path.len(),
{
    lemma_kinds();
    let ts = t.children;
    let shown = TransitionView {
        source: sc.source,
        target: state,
        label: label_shown(label_along(sc.guards, label, t, path)),
    };
    if path.len() == 0 {
        lemma_call_adds(sc, label, t, found, state);
        let mid = called(sc, label, ts, found);
        lemma_all_grow(sc, label, ts, mid);
        lemma_adds_early(sc, found, mid, extracted(sc, label, t, found), shown);
    } else {
        let i = path[0];
        let inner = label_inside(sc.guards, label, t);
        lemma_labels(sc, label, t);
        assert forall|mid: Found| adds(mid, #[trigger] extracted(sc, inner, ts[i], mid), shown) by {
            law_calls_are_found(sc, inner, ts[i], mid, path.drop_first(), state);
        }
        lemma_step_adds(sc, label, t, i, found, shown);
    }
}

/// What is found in a node below, where what is done goes on, is found.
proof fn lemma_step_adds(
    sc: Scope,
    label: Option<Seq<char>>,
    t: TreeView,
    i: int,
    found: Found,
    shown: TransitionView,
)
    requires
        goes_on_in(t, i),
        forall|mid: Found|
            adds(
                mid,
                #[trigger] extracted(sc, label_inside(sc.guards, label, t), t.children[i], mid),
                shown,
            ),
    ensures
        adds(found, extracted(sc, label, t, found), shown),
{
    lemma_kinds();
    let ts = t.children;
    let inner = label_inside(sc.guards, label, t);
    lemma_labels(sc, label, t);
    let end = extracted(sc, label, t, found);
    if t.kind == "MATCH_ARM"@ {
        lemma_expr_place(ts, i, 0);
        assert(end == extracted(sc, inner, ts[i], found));
    } else if t.kind == "IF_EXPR"@ {
        let mid = extracted_at(sc, inner, ts, then_place(ts), found);
        lemma_at_grow(sc, inner, ts, then_place(ts), found);
        lemma_at_grow(sc, inner, ts, else_place(ts), mid);
        if is_nth_expr(ts, i, 1) && ts[i].kind == "BLOCK_EXPR"@ {
            lemma_expr_place(ts, i, 1);
            assert(then_place(ts) == Some(i));
            assert(mid == extracted(sc, inner, ts[i], found));
            lemma_adds_early(sc, found, mid, end, shown);
        } else {
            lemma_expr_place(ts, i, 2);
            assert(else_place(ts) == Some(i));
            assert(end == extracted(sc, inner, ts[i], mid));
            lemma_adds_late(sc, found, mid, end, shown);
        }
    } else {
        let mid = if t.kind == "CALL_EXPR"@ {
            called(sc, label, ts, found)
        } else if t.kind == "METHOD_CALL_EXPR"@ {
            method_called(sc, label, ts, found)
        } else {
            found
        };
        lemma_call_grows(sc, label, ts, found);
        lemma_same_grows(sc, found);
        assert(inner == label);
        lemma_one_of_all(sc, label, ts, i, mid, shown);
        lemma_adds_late(sc, found, mid, end, shown);
    }
}

pub proof fn lemma_at_grow(
    sc: Scope,
    label: Option<Seq<char>>,
    ts: Seq<TreeView>,
    place: Option<int>,
    found: Found,
)
    ensures
        grows(sc, found, extracted_at(sc, label, ts, place, found)),
{
    lemma_same_grows(sc, found);
    match place {
        Some(i) => {
            if 0 <= i < ts.len() {
                law_extraction_grows(sc, label, ts[i], found);
            }
        },
        None => {},
    }
}

/// The kinds of nodes that are told apart differ.
pub proof fn lemma_kinds()
    ensures
        "MATCH_ARM"@ != "IF_EXPR"@,
        "MATCH_ARM"@ != "CALL_EXPR"@,
        "MATCH_ARM"@ != "METHOD_CALL_EXPR"@,
        "IF_EXPR"@ != "CALL_EXPR"@,
        "IF_EXPR"@ != "METHOD_CALL_EXPR"@,
        "CALL_EXPR"@ != "METHOD_CALL_EXPR"@,
{
    reveal_strlit("MATCH_ARM");
    reveal_strlit("IF_EXPR");
    reveal_strlit("CALL_EXPR");
    reveal_strlit("METHOD_CALL_EXPR");
    assert("MATCH_ARM"@[0] == 'M');
    assert("CALL_EXPR"@[0] == 'C');
    assert("MATCH_ARM"@.len() == 9 && "IF_EXPR"@.len() == 7 && "METHOD_CALL_EXPR"@.len() == 16);
}

} // verus!
