//! What holds of the transitions that are found, whatever the source text.
use vstd::prelude::*;

use crate::model::TransitionView;
use crate::syntax::{else_place, nth_place, then_place, Role, TreeView};
use crate::text::{holds, replaced};
use crate::transitions::{
    arm_label, call_target, called, extracted, extracted_all, extracted_at, followed, if_label,
    last_segment, mentioned, mentioned_state, method_called, Found, Scope,
};

verus! {

/// A transition that `sc` can give: it starts from the state looked at, and it does not
/// go to the machine itself.
pub open spec fn proper(sc: Scope, t: TransitionView) -> bool {
    t.source == sc.source && t.target != sc.fsm && t.target != "Self"@
}

/// `after` has what `before` has, and behind it proper transitions only. No function has
/// been followed twice.
pub open spec fn grows(sc: Scope, before: Found, after: Found) -> bool {
    &&& before.transitions.len() <= after.transitions.len()
    &&& after.transitions.take(before.transitions.len() as int) == before.transitions
    &&& forall|i: int|
        before.transitions.len() <= i < after.transitions.len() ==> proper(
            sc,
            #[trigger] after.transitions[i],
        )
    &&& before.visited.no_duplicates() ==> after.visited.no_duplicates()
    &&& before.visited.len() <= after.visited.len()
    &&& after.visited.take(before.visited.len() as int) == before.visited
}

pub proof fn lemma_grows_chain(sc: Scope, a: Found, b: Found, c: Found)
    requires
        grows(sc, a, b),
        grows(sc, b, c),
    ensures
        grows(sc, a, c),
{
    assert(c.transitions.take(a.transitions.len() as int) =~= a.transitions) by {
        assert(c.transitions.take(b.transitions.len() as int).take(a.transitions.len() as int)
            =~= c.transitions.take(a.transitions.len() as int));
    }
    assert(c.visited.take(a.visited.len() as int) =~= a.visited) by {
        assert(c.visited.take(b.visited.len() as int).take(a.visited.len() as int)
            =~= c.visited.take(a.visited.len() as int));
    }
    assert forall|i: int| a.transitions.len() <= i < c.transitions.len() implies proper(
        sc,
        #[trigger] c.transitions[i],
    ) by {
        if i < b.transitions.len() {
            assert(c.transitions.take(b.transitions.len() as int)[i] == b.transitions[i]);
        }
    }
}

proof fn lemma_mentioned_proper(
    sc: Scope,
    label: Option<Seq<char>>,
    func: Seq<char>,
    names: Seq<Seq<char>>,
)
    ensures
        forall|i: int|
            0 <= i < mentioned(sc, label, func, names).len() ==> proper(
                sc,
                #[trigger] mentioned(sc, label, func, names)[i],
            ),
    decreases names.len(),
{
    if names.len() > 0 {
        lemma_mentioned_proper(sc, label, func, names.drop_last());
        let before = mentioned(sc, label, func, names.drop_last());
        let all = mentioned(sc, label, func, names);
        assert forall|i: int| 0 <= i < all.len() implies proper(sc, #[trigger] all[i]) by {
            if i < before.len() {
                assert(all[i] == before[i]);
            }
        }
    }
}

pub proof fn lemma_followed_grows(sc: Scope, label: Option<Seq<char>>, func: Seq<char>, found: Found)
    ensures
        grows(sc, found, followed(sc, label, func, found)),
{
    if found.visited.contains(func) {
        assert(found.transitions.take(found.transitions.len() as int) =~= found.transitions);
        assert(found.visited.take(found.visited.len() as int) =~= found.visited);
    } else {
        let after = followed(sc, label, func, found);
        if sc.mentions.dom().contains(func) {
            lemma_mentioned_proper(sc, label, func, sc.mentions[func]@);
        }
        assert(after.transitions.take(found.transitions.len() as int) =~= found.transitions);
        assert(after.visited.take(found.visited.len() as int) =~= found.visited);
    }
}

pub proof fn lemma_same_grows(sc: Scope, found: Found)
    ensures
        grows(sc, found, found),
{
    assert(found.transitions.take(found.transitions.len() as int) =~= found.transitions);
    assert(found.visited.take(found.visited.len() as int) =~= found.visited);
}

pub proof fn lemma_call_grows(sc: Scope, label: Option<Seq<char>>, ts: Seq<TreeView>, found: Found)
    ensures
        grows(sc, found, called(sc, label, ts, found)),
        grows(sc, found, method_called(sc, label, ts, found)),
{
    lemma_same_grows(sc, found);
    let after = called(sc, label, ts, found);
    match nth_place(ts, Role::Expr, 0) {
        Some(i) => {
            let path = replaced(ts[i].text, " "@, ""@);
            if holds(path, "Transition::To"@) {
                if after != found {
                    assert(after.transitions.take(found.transitions.len() as int)
                        =~= found.transitions);
                }
            } else {
                lemma_followed_grows(sc, label, last_segment(path), found);
            }
        },
        None => {},
    }
    match nth_place(ts, Role::Name, 0) {
        Some(i) => {
            lemma_followed_grows(sc, label, ts[i].text, found);
        },
        None => {},
    }
}

/// Looking at a tree only adds to what has been found. Each transition that it adds
/// starts from the state looked at and does not go to the machine itself, and no
/// function is followed twice.
pub proof fn law_extraction_grows(
    sc: Scope,
    label: Option<Seq<char>>,
    t: TreeView,
    found: Found,
)
    ensures
        grows(sc, found, extracted(sc, label, t, found)),
    decreases t, 1nat,
{
    let ts = t.children;
    if t.kind == "MATCH_ARM"@ {
        lemma_at_grows(
            sc,
            Some(arm_label(sc, label, ts)),
            t,
            nth_place(ts, Role::Expr, 0),
            found,
        );
    } else if t.kind == "IF_EXPR"@ {
        let inner = if_label(sc, label, ts);
        lemma_at_grows(sc, inner, t, then_place(ts), found);
        let mid = extracted_at(sc, inner, ts, then_place(ts), found);
        lemma_at_grows(sc, inner, t, else_place(ts), mid);
        lemma_grows_chain(sc, found, mid, extracted(sc, label, t, found));
    } else if t.kind == "CALL_EXPR"@ {
        let mid = called(sc, label, ts, found);
        lemma_call_grows(sc, label, ts, found);
        lemma_all_grows(sc, label, ts, mid);
        lemma_grows_chain(sc, found, mid, extracted(sc, label, t, found));
    } else if t.kind == "METHOD_CALL_EXPR"@ {
        let mid = method_called(sc, label, ts, found);
        lemma_call_grows(sc, label, ts, found);
        lemma_all_grows(sc, label, ts, mid);
        lemma_grows_chain(sc, found, mid, extracted(sc, label, t, found));
    } else {
        lemma_all_grows(sc, label, ts, found);
    }
}

proof fn lemma_at_grows(
    sc: Scope,
    label: Option<Seq<char>>,
    t: TreeView,
    place: Option<int>,
    found: Found,
)
    ensures
        grows(sc, found, extracted_at(sc, label, t.children, place, found)),
    decreases t, 0nat,
{
    lemma_same_grows(sc, found);
    match place {
        Some(i) => {
            if 0 <= i < t.children.len() {
                law_extraction_grows(sc, label, t.children[i], found);
            }
        },
        None => {},
    }
}

proof fn lemma_all_grows(sc: Scope, label: Option<Seq<char>>, ts: Seq<TreeView>, found: Found)
    ensures
        grows(sc, found, extracted_all(sc, label, ts, found)),
    decreases ts, 0nat,
{
    lemma_same_grows(sc, found);
    if ts.len() > 0 {
        let mid = extracted_all(sc, label, ts.drop_last(), found);
        lemma_all_grows(sc, label, ts.drop_last(), found);
        law_extraction_grows(sc, label, ts.last(), mid);
        lemma_grows_chain(sc, found, mid, extracted_all(sc, label, ts, found));
    }
}

/// Where each of `ts` starts and where it goes, without its label.
pub open spec fn routes(ts: Seq<TransitionView>) -> Seq<(Seq<char>, Seq<char>)> {
    ts.map_values(|t: TransitionView| (t.source, t.target))
}

/// The two differ in labels at most.
pub open spec fn same_routes(a: Found, b: Found) -> bool {
    routes(a.transitions) == routes(b.transitions) && a.visited == b.visited
}

/// The two look for the transitions of one state, with or without guards.
pub open spec fn same_state(a: Scope, b: Scope) -> bool {
    a.fsm == b.fsm && a.source == b.source && a.mentions == b.mentions
}

proof fn lemma_mentioned_routes(
    a: Scope,
    b: Scope,
    la: Option<Seq<char>>,
    lb: Option<Seq<char>>,
    func: Seq<char>,
    names: Seq<Seq<char>>,
)
    requires
        same_state(a, b),
    ensures
        routes(mentioned(a, la, func, names)) == routes(mentioned(b, lb, func, names)),
    decreases names.len(),
{
    if names.len() > 0 {
        lemma_mentioned_routes(a, b, la, lb, func, names.drop_last());
        let ra = mentioned(a, la, func, names.drop_last());
        let rb = mentioned(b, lb, func, names.drop_last());
        match mentioned_state(a.fsm, names.last()) {
            Some(state) => {
                assert(routes(mentioned(a, la, func, names)) =~= routes(ra).push(
                    (a.source, state),
                ));
                assert(routes(mentioned(b, lb, func, names)) =~= routes(rb).push(
                    (b.source, state),
                ));
            },
            None => {},
        }
    }
}

proof fn lemma_followed_routes(
    a: Scope,
    b: Scope,
    la: Option<Seq<char>>,
    lb: Option<Seq<char>>,
    func: Seq<char>,
    fa: Found,
    fb: Found,
)
    requires
        same_state(a, b),
        same_routes(fa, fb),
    ensures
        same_routes(followed(a, la, func, fa), followed(b, lb, func, fb)),
{
    if !fa.visited.contains(func) {
        let ga = followed(a, la, func, fa);
        let gb = followed(b, lb, func, fb);
        if a.mentions.dom().contains(func) {
            let names = a.mentions[func]@;
            lemma_mentioned_routes(a, b, la, lb, func, names);
            assert(routes(ga.transitions) =~= routes(fa.transitions) + routes(
                mentioned(a, la, func, names),
            ));
            assert(routes(gb.transitions) =~= routes(fb.transitions) + routes(
                mentioned(b, lb, func, names),
            ));
        } else {
            assert(routes(ga.transitions) =~= routes(fa.transitions));
            assert(routes(gb.transitions) =~= routes(fb.transitions));
        }
    }
}

proof fn lemma_call_routes(
    a: Scope,
    b: Scope,
    la: Option<Seq<char>>,
    lb: Option<Seq<char>>,
    ts: Seq<TreeView>,
    fa: Found,
    fb: Found,
)
    requires
        same_state(a, b),
        same_routes(fa, fb),
    ensures
        same_routes(called(a, la, ts, fa), called(b, lb, ts, fb)),
        same_routes(method_called(a, la, ts, fa), method_called(b, lb, ts, fb)),
{
    let ga = called(a, la, ts, fa);
    let gb = called(b, lb, ts, fb);
    match nth_place(ts, Role::Expr, 0) {
        Some(i) => {
            let path = replaced(ts[i].text, " "@, ""@);
            if holds(path, "Transition::To"@) {
                match call_target(a.fsm, ts) {
                    Some(target) => {
                        assert(routes(ga.transitions) =~= routes(fa.transitions).push(
                            (a.source, target),
                        ));
                        assert(routes(gb.transitions) =~= routes(fb.transitions).push(
                            (b.source, target),
                        ));
                    },
                    None => {},
                }
            } else {
                lemma_followed_routes(a, b, la, lb, last_segment(path), fa, fb);
            }
        },
        None => {},
    }
    match nth_place(ts, Role::Name, 0) {
        Some(i) => {
            lemma_followed_routes(a, b, la, lb, ts[i].text, fa, fb);
        },
        None => {},
    }
}

/// Guards change labels and nothing else: with and without them the same transitions
/// are found, in the same order.
pub proof fn law_guards_change_labels_only(
    a: Scope,
    b: Scope,
    la: Option<Seq<char>>,
    lb: Option<Seq<char>>,
    t: TreeView,
    fa: Found,
    fb: Found,
)
    requires
        same_state(a, b),
        same_routes(fa, fb),
    ensures
        same_routes(extracted(a, la, t, fa), extracted(b, lb, t, fb)),
    decreases t, 1nat,
{
    let ts = t.children;
    if t.kind == "MATCH_ARM"@ {
        let ia = Some(arm_label(a, la, ts));
        let ib = Some(arm_label(b, lb, ts));
        lemma_at_routes(a, b, ia, ib, t, nth_place(ts, Role::Expr, 0), fa, fb);
    } else if t.kind == "IF_EXPR"@ {
        let ia = if_label(a, la, ts);
        let ib = if_label(b, lb, ts);
        lemma_at_routes(a, b, ia, ib, t, then_place(ts), fa, fb);
        let ma = extracted_at(a, ia, ts, then_place(ts), fa);
        let mb = extracted_at(b, ib, ts, then_place(ts), fb);
        lemma_at_routes(a, b, ia, ib, t, else_place(ts), ma, mb);
    } else if t.kind == "CALL_EXPR"@ {
        lemma_call_routes(a, b, la, lb, ts, fa, fb);
        lemma_all_routes(a, b, la, lb, ts, called(a, la, ts, fa), called(b, lb, ts, fb));
    } else if t.kind == "METHOD_CALL_EXPR"@ {
        lemma_call_routes(a, b, la, lb, ts, fa, fb);
        lemma_all_routes(
            a,
            b,
            la,
            lb,
            ts,
            method_called(a, la, ts, fa),
            method_called(b, lb, ts, fb),
        );
    } else {
        lemma_all_routes(a, b, la, lb, ts, fa, fb);
    }
}

proof fn lemma_at_routes(
    a: Scope,
    b: Scope,
    la: Option<Seq<char>>,
    lb: Option<Seq<char>>,
    t: TreeView,
    place: Option<int>,
    fa: Found,
    fb: Found,
)
    requires
        same_state(a, b),
        same_routes(fa, fb),
    ensures
        same_routes(
            extracted_at(a, la, t.children, place, fa),
            extracted_at(b, lb, t.children, place, fb),
        ),
    decreases t, 0nat,
{
    match place {
        Some(i) => {
            if 0 <= i < t.children.len() {
                law_guards_change_labels_only(a, b, la, lb, t.children[i], fa, fb);
            }
        },
        None => {},
    }
}

proof fn lemma_all_routes(
    a: Scope,
    b: Scope,
    la: Option<Seq<char>>,
    lb: Option<Seq<char>>,
    ts: Seq<TreeView>,
    fa: Found,
    fb: Found,
)
    requires
        same_state(a, b),
        same_routes(fa, fb),
    ensures
        same_routes(extracted_all(a, la, ts, fa), extracted_all(b, lb, ts, fb)),
    decreases ts, 0nat,
{
    if ts.len() > 0 {
        lemma_all_routes(a, b, la, lb, ts.drop_last(), fa, fb);
        law_guards_change_labels_only(
            a,
            b,
            la,
            lb,
            ts.last(),
            extracted_all(a, la, ts.drop_last(), fa),
            extracted_all(b, lb, ts.drop_last(), fb),
        );
    }
}

/// A function that has been followed adds nothing when it is met again.
pub proof fn law_function_followed_once(
    sc: Scope,
    first: Option<Seq<char>>,
    second: Option<Seq<char>>,
    func: Seq<char>,
    found: Found,
)
    ensures
        followed(sc, second, func, followed(sc, first, func, found)) == followed(
            sc,
            first,
            func,
            found,
        ),
{
    let after = followed(sc, first, func, found);
    if !found.visited.contains(func) {
        assert(after.visited[found.visited.len() as int] == func);
        assert(after.visited.contains(func));
    }
}

} // verus!
