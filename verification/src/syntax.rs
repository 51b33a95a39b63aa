//! The syntax tree of a piece of Rust source text.
use ra_ap_syntax::{ast, AstNode, Edition, SourceFile, WalkEvent};
use vstd::prelude::*;

use crate::fence::parsable;
use crate::text::same;

verus! {

/// A node of a syntax tree.
#[derive(Debug)]
pub struct SyntaxTree {
    /// The kind of the node, such as `MATCH_ARM`.
    pub kind: String,
    /// The node is an expression.
    pub is_expr: bool,
    /// The node is a pattern.
    pub is_pat: bool,
    /// The node is a single token, with nothing below it.
    pub is_token: bool,
    /// The node is a punctuation token.
    pub is_punct: bool,
    /// The source text of the node.
    pub text: String,
    /// The nodes and tokens directly below this one, in the order of the text.
    pub children: Vec<SyntaxTree>,
}

/// What a [`SyntaxTree`] says.
#[verifier::ext_equal]
pub struct TreeView {
    pub kind: Seq<char>,
    pub is_expr: bool,
    pub is_pat: bool,
    pub is_token: bool,
    pub is_punct: bool,
    pub text: Seq<char>,
    pub children: Seq<TreeView>,
}

/// What `t` says.
pub open spec fn tree_view(t: SyntaxTree) -> TreeView
    decreases t,
{
    TreeView {
        kind: t.kind@,
        is_expr: t.is_expr,
        is_pat: t.is_pat,
        is_token: t.is_token,
        is_punct: t.is_punct,
        text: t.text@,
        children: Seq::new(
            t.children@.len(),
            |i: int|
                if 0 <= i < t.children@.len() {
                    tree_view(t.children@[i])
                } else {
                    arbitrary()
                },
        ),
    }
}

impl View for SyntaxTree {
    type V = TreeView;

    open spec fn view(&self) -> TreeView {
        tree_view(*self)
    }
}

/// What several trees say.
pub open spec fn tree_views(ts: Seq<SyntaxTree>) -> Seq<TreeView> {
    ts.map_values(|t: SyntaxTree| t@)
}

/// A step of a walk through a tree.
#[derive(Debug)]
pub enum WalkStep {
    /// The walk comes to a node from above.
    Enter {
        kind: String,
        is_expr: bool,
        is_pat: bool,
        is_token: bool,
        is_punct: bool,
        text: String,
    },
    /// The walk goes back up.
    Leave,
}

/// What a [`WalkStep`] says.
pub enum StepView {
    Enter {
        kind: Seq<char>,
        is_expr: bool,
        is_pat: bool,
        is_token: bool,
        is_punct: bool,
        text: Seq<char>,
    },
    Leave,
}

impl View for WalkStep {
    type V = StepView;

    open spec fn view(&self) -> StepView {
        match self {
            WalkStep::Enter { kind, is_expr, is_pat, is_token, is_punct, text } => StepView::Enter {
                kind: kind@,
                is_expr: *is_expr,
                is_pat: *is_pat,
                is_token: *is_token,
                is_punct: *is_punct,
                text: text@,
            },
            WalkStep::Leave => StepView::Leave,
        }
    }
}

/// What several steps say.
pub open spec fn step_views(steps: Seq<WalkStep>) -> Seq<StepView> {
    steps.map_values(|s: WalkStep| s@)
}

/// The walk through `t`: into the node, through the trees below it one after the
/// other, and out of it.
pub open spec fn walk(t: TreeView) -> Seq<StepView>
    decreases t,
{
    seq![entry(t)] + walk_all(t.children) + seq![StepView::Leave]
}

/// The step into `t`.
pub open spec fn entry(t: TreeView) -> StepView {
    StepView::Enter {
        kind: t.kind,
        is_expr: t.is_expr,
        is_pat: t.is_pat,
        is_token: t.is_token,
        is_punct: t.is_punct,
        text: t.text,
    }
}

/// The walks through `ts`, one after the other.
pub open spec fn walk_all(ts: Seq<TreeView>) -> Seq<StepView>
    decreases ts,
{
    if ts.len() == 0 {
        Seq::empty()
    } else {
        walk(ts[0]) + walk_all(ts.drop_first())
    }
}

/// The tree that `ra_ap_syntax::SourceFile::parse` makes of `text`, as a file of the
/// 2021 edition, tokens and all. The kind of a node is the name of its `SyntaxKind`; a
/// node is an expression or a pattern if `ast::Expr` or `ast::Pat` can be cast from that
/// kind, and punctuation by `SyntaxKind::is_punct`.
pub uninterp spec fn source_tree(text: Seq<char>) -> TreeView;

/// Calls `ra_ap_syntax::SourceFile::parse` and walks the tree with
/// `SyntaxNode::preorder_with_tokens`. The contract says that the parser makes one tree
/// of each text, and that the steps are those of the walk through that tree. Of the tree
/// itself it says nothing. The parser counts bytes in 32 bits: a longer text is beyond it.
/// It also panics where it looks for a character behind the last dash of a fence that is
/// shorter than the one that the text opens with, and there is no whole one: see
/// [`has_cut_fence`](crate::fence::has_cut_fence).
#[verifier::external_body]
fn walk_source(text: &str) -> (r: Vec<WalkStep>)
    requires
        parsable(text@),
    ensures
        step_views(r@) == walk(source_tree(text@)),
{
    let root = SourceFile::parse(text, Edition::Edition2021).syntax_node();
    let steps = root.preorder_with_tokens().map(|event| match event {
        WalkEvent::Enter(it) => WalkStep::Enter {
            kind: format!("{:?}", it.kind()),
            is_expr: ast::Expr::can_cast(it.kind()),
            is_pat: ast::Pat::can_cast(it.kind()),
            is_token: it.as_token().is_some(),
            is_punct: it.kind().is_punct(),
            text: it.to_string(),
        },
        WalkEvent::Leave(_) => WalkStep::Leave,
    });
    steps.collect()
}

/// The tree whose walk is at position `at` of `steps`, and the position behind it.
fn tree_at(steps: &Vec<WalkStep>, at: usize, Ghost(t): Ghost<TreeView>) -> (r: (SyntaxTree, usize))
    requires
        at + walk(t).len() <= steps.len(),
        step_views(steps@).subrange(at as int, at + walk(t).len()) == walk(t),
    ensures
        r.0@ == t,
        r.1 == at + walk(t).len(),
    decreases t,
{
    let ghost sv = step_views(steps@);
    let ghost w = walk(t);
    let ghost inner = walk_all(t.children);
    proof {
        assert(w[0] == entry(t));
        assert(sv.subrange(at as int, at + w.len())[0] == sv[at as int]);
        assert(sv[at as int] == steps@[at as int]@);
        assert(sv.subrange(at + 1, at + 1 + inner.len()) == inner) by {
            assert(w.subrange(1, 1 + inner.len() as int) == inner);
            assert(sv.subrange(at + 1, at + 1 + inner.len()) == sv.subrange(
                at as int,
                at + w.len(),
            ).subrange(1, 1 + inner.len() as int));
        }
        assert(w[w.len() - 1] == StepView::Leave);
        assert(sv.subrange(at as int, at + w.len())[w.len() - 1] == sv[at + w.len() - 1]);
    }
    let mut r: SyntaxTree = match &steps[at] {
        WalkStep::Enter { kind, is_expr, is_pat, is_token, is_punct, text } => SyntaxTree {
            kind: kind.clone(),
            is_expr: *is_expr,
            is_pat: *is_pat,
            is_token: *is_token,
            is_punct: *is_punct,
            text: text.clone(),
            children: Vec::new(),
        },
        WalkStep::Leave => SyntaxTree {
            kind: String::new(),
            is_expr: false,
            is_pat: false,
            is_token: false,
            is_punct: false,
            text: String::new(),
            children: Vec::new(),
        },
    };
    let mut children: Vec<SyntaxTree> = Vec::new();
    let mut i: usize = at + 1;
    let ghost mut k: int = 0;
    proof {
        assert(t.children.skip(0) == t.children);
    }
    loop
        invariant_except_break
            sv == step_views(steps@),
            w == walk(t),
            inner == walk_all(t.children),
            w.len() == inner.len() + 2,
            0 <= k <= t.children.len(),
            at + w.len() <= steps.len(),
            sv[at + w.len() - 1] == StepView::Leave,
            i + walk_all(t.children.skip(k)).len() == at + 1 + inner.len(),
            sv.subrange(i as int, at + 1 + inner.len()) == walk_all(t.children.skip(k)),
            tree_views(children@) == t.children.take(k),
        ensures
            i == at + 1 + inner.len(),
            w.len() == inner.len() + 2,
            at + w.len() <= steps.len(),
            tree_views(children@) == t.children,
        decreases t.children.len() - k,
    {
        let ghost rest = t.children.skip(k);
        proof {
            if rest.len() > 0 {
                assert(rest[0] == t.children[k]);
                assert(walk_all(rest) == walk(rest[0]) + walk_all(rest.drop_first()));
                assert(walk_all(rest)[0] == entry(rest[0]));
                assert(sv.subrange(i as int, at + 1 + inner.len())[0] == sv[i as int]);
            }
            assert(sv[i as int] == steps@[i as int]@);
        }
        match &steps[i] {
            WalkStep::Leave => {
                proof {
                    assert(rest.len() == 0);
                    assert(t.children.take(k) == t.children);
                }
                break ;
            },
            WalkStep::Enter { .. } => {
                proof {
                    assert(rest.len() > 0);
                    let c = t.children[k];
                    assert(rest.drop_first() == t.children.skip(k + 1));
                    let here = walk_all(rest);
                    assert(here.subrange(0, walk(c).len() as int) == walk(c));
                    assert(sv.subrange(i as int, i + walk(c).len()) == sv.subrange(
                        i as int,
                        at + 1 + inner.len(),
                    ).subrange(0, walk(c).len() as int));
                    assert(here.skip(walk(c).len() as int) == walk_all(t.children.skip(k + 1)));
                    assert(sv.subrange(i + walk(c).len(), at + 1 + inner.len()) == sv.subrange(
                        i as int,
                        at + 1 + inner.len(),
                    ).skip(walk(c).len() as int));
                }
                let ghost before = children@;
                let (child, next): (SyntaxTree, usize) = tree_at(
                    steps,
                    i,
                    Ghost(t.children[k]),
                );
                children.push(child);
                i = next;
                proof {
                    assert(tree_views(children@) == tree_views(before).push(child@));
                    assert(t.children.take(k + 1) == t.children.take(k).push(t.children[k]));
                    k = k + 1;
                }
            },
        }
    }
    r.children = children;
    proof {
        assert(r@.children =~= tree_views(r.children@));
    }
    (r, i + 1)
}

/// Parses `text` as Rust source.
pub fn parse_source(text: &str) -> (r: SyntaxTree)
    requires
        parsable(text@),
    ensures
        r@ == source_tree(text@),
{
    let steps: Vec<WalkStep> = walk_source(text);
    let ghost t = source_tree(text@);
    assert(step_views(steps@).subrange(0, walk(t).len() as int) == walk(t));
    let (tree, _): (SyntaxTree, usize) = tree_at(&steps, 0, Ghost(t));
    tree
}

/// What a node can be to the node above it.
#[derive(Debug, Clone, Copy, PartialEq, Eq, Structural)]
pub enum Role {
    /// An expression.
    Expr,
    /// A pattern.
    Pat,
    /// The guard of a match arm.
    Guard,
    /// The arguments of a call.
    Args,
    /// The name of a field or a method.
    Name,
}

/// `t` can play `role`.
pub open spec fn plays(t: TreeView, role: Role) -> bool {
    match role {
        Role::Expr => t.is_expr,
        Role::Pat => t.is_pat,
        Role::Guard => t.kind == "MATCH_GUARD"@,
        Role::Args => t.kind == "ARG_LIST"@,
        Role::Name => t.kind == "NAME_REF"@,
    }
}

/// The place of the node that has `n` nodes of its role before it, at `from` or later.
pub open spec fn place_from(ts: Seq<TreeView>, role: Role, n: nat, from: int) -> Option<int>
    decreases ts.len() - from,
{
    if from < 0 || from >= ts.len() {
        None
    } else if !plays(ts[from], role) {
        place_from(ts, role, n, from + 1)
    } else if n > 0 {
        place_from(ts, role, (n - 1) as nat, from + 1)
    } else {
        Some(from)
    }
}

/// The place among `ts` of the node that plays `role` and has `n` others of that role
/// before it.
pub open spec fn nth_place(ts: Seq<TreeView>, role: Role, n: nat) -> Option<int> {
    place_from(ts, role, n, 0)
}

/// A place that is found is one of the places there are, and has the role asked for.
pub proof fn lemma_place_from(ts: Seq<TreeView>, role: Role, n: nat, from: int)
    requires
        0 <= from,
    ensures
        match place_from(ts, role, n, from) {
            Some(i) => from <= i < ts.len() && plays(ts[i], role),
            None => true,
        },
    decreases ts.len() - from,
{
    if from < ts.len() {
        if !plays(ts[from], role) {
            lemma_place_from(ts, role, n, from + 1);
        } else if n > 0 {
            lemma_place_from(ts, role, (n - 1) as nat, from + 1);
        }
    }
}

/// The condition of an `if` whose parts are `ts`: the first expression. A block is no
/// condition where no other expression follows it.
pub open spec fn condition_place(ts: Seq<TreeView>) -> Option<int> {
    match nth_place(ts, Role::Expr, 0) {
        Some(i) => if ts[i].kind == "BLOCK_EXPR"@ && nth_place(ts, Role::Expr, 1) is None {
            None
        } else {
            Some(i)
        },
        None => None,
    }
}

/// The block that an `if` runs where its condition holds.
pub open spec fn then_place(ts: Seq<TreeView>) -> Option<int> {
    match nth_place(ts, Role::Expr, 1) {
        Some(i) => if ts[i].kind == "BLOCK_EXPR"@ {
            Some(i)
        } else {
            None
        },
        None => None,
    }
}

/// The block or the `if` behind an `else`.
pub open spec fn else_place(ts: Seq<TreeView>) -> Option<int> {
    match nth_place(ts, Role::Expr, 2) {
        Some(i) => if ts[i].kind == "BLOCK_EXPR"@ || ts[i].kind == "IF_EXPR"@ {
            Some(i)
        } else {
            None
        },
        None => None,
    }
}

impl SyntaxTree {
    /// Whether the node is of the given kind.
    pub fn is_kind(&self, kind: &str) -> (r: bool)
        ensures
            r == (self@.kind == kind@),
    {
        same(self.kind.as_str(), kind)
    }

    /// Whether the node can play `role`.
    pub fn plays(&self, role: Role) -> (r: bool)
        ensures
            r == plays(self@, role),
    {
        match role {
            Role::Expr => self.is_expr,
            Role::Pat => self.is_pat,
            Role::Guard => self.is_kind("MATCH_GUARD"),
            Role::Args => self.is_kind("ARG_LIST"),
            Role::Name => self.is_kind("NAME_REF"),
        }
    }

    /// The place of the node below this one that plays `role` and has `n` others of that
    /// role before it.
    pub fn nth(&self, role: Role, n: usize) -> (r: Option<usize>)
        ensures
            place_view(r) == nth_place(self@.children, role, n as nat),
            r matches Some(i) ==> i < self.children@.len(),
    {
        let ghost ts = self@.children;
        let mut left: usize = n;
        let mut i: usize = 0;
        while i < self.children.len()
            invariant
                ts == self@.children,
                ts.len() == self.children@.len(),
                i <= self.children@.len(),
                place_from(ts, role, left as nat, i as int) == nth_place(ts, role, n as nat),
            decreases self.children@.len() - i,
        {
            assert(ts[i as int] == self.children@[i as int]@);
            if self.children[i].plays(role) {
                if left == 0 {
                    return Some(i);
                }
                left = left - 1;
            }
            i = i + 1;
        }
        None
    }

    /// The condition of an `if`.
    pub fn condition(&self) -> (r: Option<usize>)
        ensures
            place_view(r) == condition_place(self@.children),
            r matches Some(i) ==> i < self.children@.len(),
    {
        match self.nth(Role::Expr, 0) {
            Some(i) => {
                assert(self@.children[i as int] == self.children@[i as int]@);
                if self.children[i].is_kind("BLOCK_EXPR") && self.nth(Role::Expr, 1).is_none() {
                    None
                } else {
                    Some(i)
                }
            },
            None => None,
        }
    }

    /// The block that an `if` runs where its condition holds.
    pub fn then_branch(&self) -> (r: Option<usize>)
        ensures
            place_view(r) == then_place(self@.children),
            r matches Some(i) ==> i < self.children@.len(),
    {
        match self.nth(Role::Expr, 1) {
            Some(i) => {
                assert(self@.children[i as int] == self.children@[i as int]@);
                if self.children[i].is_kind("BLOCK_EXPR") {
                    Some(i)
                } else {
                    None
                }
            },
            None => None,
        }
    }

    /// The block or the `if` behind an `else`.
    pub fn else_branch(&self) -> (r: Option<usize>)
        ensures
            place_view(r) == else_place(self@.children),
            r matches Some(i) ==> i < self.children@.len(),
    {
        match self.nth(Role::Expr, 2) {
            Some(i) => {
                assert(self@.children[i as int] == self.children@[i as int]@);
                if self.children[i].is_kind("BLOCK_EXPR") || self.children[i].is_kind("IF_EXPR") {
                    Some(i)
                } else {
                    None
                }
            },
            None => None,
        }
    }
}

/// A place as a number.
pub open spec fn place_view(place: Option<usize>) -> Option<int> {
    match place {
        Some(i) => Some(i as int),
        None => None,
    }
}

} // verus!
