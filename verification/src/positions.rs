//! Positions in a syntax tree, each given by the way that leads there from the root.
use vstd::prelude::*;

use crate::syntax::{place_from, plays, Role, TreeView};
use crate::text::{replaced, starts};

verus! {

/// The node at the end of the way `path`: each step is the position of a node among those
/// directly below the one before.
pub open spec fn node_at(t: TreeView, path: Seq<int>) -> Option<TreeView>
    decreases path.len(),
{
    if path.len() == 0 {
        Some(t)
    } else if 0 <= path[0] < t.children.len() {
        node_at(t.children[path[0]], path.drop_first())
    } else {
        None
    }
}

/// How many of the first `n` of `ts` are expressions.
pub open spec fn exprs_before(ts: Seq<TreeView>, n: int) -> nat
    decreases n,
{
    if n <= 0 {
        0
    } else if ts[n - 1].is_expr {
        exprs_before(ts, n - 1) + 1
    } else {
        exprs_before(ts, n - 1)
    }
}

/// The node at `i` is an expression, and has `n` expressions before it.
pub open spec fn is_nth_expr(ts: Seq<TreeView>, i: int, n: nat) -> bool {
    0 <= i < ts.len() && ts[i].is_expr && exprs_before(ts, i) == n
}

/// The node at `i` is the first that is of the given kind.
pub open spec fn is_first_of(ts: Seq<TreeView>, i: int, kind: Seq<char>) -> bool {
    &&& 0 <= i < ts.len()
    &&& ts[i].kind == kind
    &&& forall|j: int| 0 <= j < i ==> (#[trigger] ts[j]).kind != kind
}

/// The node at `i` is the first pattern.
pub open spec fn is_first_pat(ts: Seq<TreeView>, i: int) -> bool {
    &&& 0 <= i < ts.len()
    &&& ts[i].is_pat
    &&& forall|j: int| 0 <= j < i ==> !(#[trigger] ts[j]).is_pat
}

proof fn lemma_exprs_grow(ts: Seq<TreeView>, a: int, b: int)
    requires
        0 <= a <= b,
    ensures
        exprs_before(ts, a) <= exprs_before(ts, b),
    decreases b,
{
    if a < b {
        lemma_exprs_grow(ts, a, b - 1);
    }
}

proof fn lemma_expr_place_from(ts: Seq<TreeView>, i: int, n: nat, from: int)
    requires
        is_nth_expr(ts, i, n),
        0 <= from <= i,
    ensures
        place_from(ts, Role::Expr, (n - exprs_before(ts, from)) as nat, from) == Some(i),
    decreases i - from,
{
    lemma_exprs_grow(ts, from, i);
    if from < i {
        assert(exprs_before(ts, from + 1) == if ts[from].is_expr {
            exprs_before(ts, from) + 1
        } else {
            exprs_before(ts, from)
        });
        lemma_exprs_grow(ts, from + 1, i);
        lemma_expr_place_from(ts, i, n, from + 1);
    }
}

/// The place of the `n`th expression is where it stands.
pub proof fn lemma_expr_place(ts: Seq<TreeView>, i: int, n: nat)
    requires
        is_nth_expr(ts, i, n),
    ensures
        place_from(ts, Role::Expr, n, 0) == Some(i),
{
    lemma_expr_place_from(ts, i, n, 0);
}

/// What has the `n`th place is the `n`th expression.
pub proof fn lemma_place_expr(ts: Seq<TreeView>, n: nat, from: int)
    requires
        0 <= from,
    ensures
        place_from(ts, Role::Expr, n, from) matches Some(i) ==> is_nth_expr(
            ts,
            i,
            n + exprs_before(ts, from),
        ),
    decreases ts.len() - from,
{
    if from < ts.len() {
        if !ts[from].is_expr {
            lemma_place_expr(ts, n, from + 1);
        } else if n > 0 {
            lemma_place_expr(ts, (n - 1) as nat, from + 1);
        }
    }
}

/// The place of the first node that plays a role is where it stands.
pub proof fn lemma_first_place(ts: Seq<TreeView>, role: Role, i: int, from: int)
    requires
        0 <= from <= i < ts.len(),
        plays(ts[i], role),
        forall|j: int| 0 <= j < i ==> !plays(#[trigger] ts[j], role),
    ensures
        place_from(ts, role, 0, from) == Some(i),
    decreases i - from,
{
    if from < i {
        lemma_first_place(ts, role, i, from + 1);
    }
}

/// What has the first place of a role is the first that plays it.
pub proof fn lemma_place_first(ts: Seq<TreeView>, role: Role, from: int)
    requires
        0 <= from,
        forall|j: int| 0 <= j < from && j < ts.len() ==> !plays(#[trigger] ts[j], role),
    ensures
        match place_from(ts, role, 0, from) {
            Some(i) => from <= i < ts.len() && plays(ts[i], role) && forall|j: int|
                0 <= j < i ==> !plays(#[trigger] ts[j], role),
            None => forall|j: int| 0 <= j < ts.len() ==> !plays(#[trigger] ts[j], role),
        },
    decreases ts.len() - from,
{
    if from < ts.len() && !plays(ts[from], role) {
        lemma_place_first(ts, role, from + 1);
    }
}

/// The text `s` without its spaces.
pub open spec fn unspaced(s: Seq<char>) -> Seq<char> {
    s.filter(|c: char| c != ' ')
}

/// To replace every space by nothing is to leave the spaces out.
pub proof fn lemma_unspaced(s: Seq<char>)
    ensures
        replaced(s, " "@, ""@) == unspaced(s),
    decreases s.len(),
{
    reveal_strlit(" ");
    reveal_strlit("");
    reveal(Seq::filter);
    let keep = |c: char| c != ' ';
    if s.len() > 0 {
        let rest = s.skip(1);
        let first = seq![s[0]];
        lemma_unspaced(rest);
        assert(s =~= first + rest);
        Seq::filter_distributes_over_add(first, rest, keep);
        assert(first.drop_last() =~= Seq::empty());
        assert(Seq::<char>::empty().filter(keep) =~= Seq::empty());
        assert(first.filter(keep) =~= if s[0] != ' ' {
            first
        } else {
            Seq::empty()
        }) by {
            assert(first.last() == s[0]);
        }
        if starts(s, " "@) {
            assert(s.take(1)[0] == s[0]);
            assert(""@ + unspaced(rest) =~= unspaced(s));
        } else {
            if s[0] == ' ' {
                assert(s.take(1) =~= " "@);
            }
        }
    } else {
        assert(s.filter(keep) =~= s);
    }
}

} // verus!
