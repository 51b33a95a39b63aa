//! The body of a `state_machine!` macro: from tokens to a state machine.
use vstd::prelude::*;

use crate::fence::parsable;
use crate::labels::label_view;
use crate::model::{
    field_views, state_views, FsmDefinition, FsmView, StateDefinition, StateView,
};
use crate::syntax::{parse_source, source_tree, SyntaxTree, TreeView};
use crate::text::same;

verus! {

/// A token of a macro body.
#[derive(Debug)]
pub struct Token {
    /// The kind of the token, such as `L_CURLY`.
    pub kind: String,
    /// The token is punctuation.
    pub is_punct: bool,
    pub text: String,
}

/// What a [`Token`] says.
pub struct TokenView {
    pub kind: Seq<char>,
    pub is_punct: bool,
    pub text: Seq<char>,
}

impl View for Token {
    type V = TokenView;

    open spec fn view(&self) -> TokenView {
        TokenView { kind: self.kind@, is_punct: self.is_punct, text: self.text@ }
    }
}

/// What several tokens say.
pub open spec fn token_views(tokens: Seq<Token>) -> Seq<TokenView> {
    tokens.map_values(|t: Token| t@)
}

/// The tokens of `t` that are neither white space nor comments, in the order of the text.
pub open spec fn tokens_of(t: TreeView) -> Seq<TokenView>
    decreases t,
{
    if t.is_token && t.kind != "WHITESPACE"@ && t.kind != "COMMENT"@ {
        seq![TokenView { kind: t.kind, is_punct: t.is_punct, text: t.text }]
    } else {
        tokens_of_all(t.children)
    }
}

/// The tokens of `ts`, one after the other.
pub open spec fn tokens_of_all(ts: Seq<TreeView>) -> Seq<TokenView>
    decreases ts,
{
    if ts.len() == 0 {
        Seq::empty()
    } else {
        tokens_of_all(ts.drop_last()) + tokens_of(ts.last())
    }
}

/// There is a token of the given kind at `i`.
pub open spec fn at(toks: Seq<TokenView>, i: int, kind: Seq<char>) -> bool {
    0 <= i < toks.len() && toks[i].kind == kind
}

/// The position behind `i` if there is a token of the given kind at `i`, and else `i`.
pub open spec fn past(toks: Seq<TokenView>, i: int, kind: Seq<char>) -> int {
    if at(toks, i, kind) {
        i + 1
    } else {
        i
    }
}

/// The texts of the tokens from `from` up to `to`, one behind the other.
pub open spec fn joined(toks: Seq<TokenView>, from: int, to: int) -> Seq<char>
    decreases to - from,
{
    if from >= to {
        Seq::empty()
    } else {
        joined(toks, from, to - 1) + toks[to - 1].text
    }
}

/// Where the type of the context that starts at `i` ends: at a comma, or at the name of
/// another section.
pub open spec fn context_end(toks: Seq<TokenView>, i: int) -> int
    decreases toks.len() - i,
{
    if i >= toks.len() || toks[i].kind == "COMMA"@ || toks[i].text == "Event"@ || toks[i].text
        == "States"@ {
        i
    } else {
        context_end(toks, i + 1)
    }
}

/// Where the type of a field that starts at `i` ends: at a comma or a closing brace.
pub open spec fn type_end(toks: Seq<TokenView>, i: int) -> int
    decreases toks.len() - i,
{
    if i >= toks.len() || toks[i].kind == "COMMA"@ || toks[i].kind == "R_CURLY"@ {
        i
    } else {
        type_end(toks, i + 1)
    }
}

/// The fields that stand at `i` and behind, up to a closing brace, put behind `done`; and
/// the position of that brace.
pub open spec fn read_fields(
    toks: Seq<TokenView>,
    i: int,
    done: Seq<(Seq<char>, Seq<char>)>,
) -> (Seq<(Seq<char>, Seq<char>)>, int)
    decreases toks.len() - i,
{
    if i < 0 || i >= toks.len() || toks[i].kind == "R_CURLY"@ {
        (done, i)
    } else if at(toks, i + 1, "COLON"@) {
        let end = type_end(toks, i + 2);
        proof {
            lemma_type_end(toks, i + 2);
        }
        read_fields(
            toks,
            past(toks, end, "COMMA"@),
            done.push((toks[i].text, joined(toks, i + 2, end))),
        )
    } else {
        read_fields(toks, past(toks, i + 1, "COMMA"@), done)
    }
}

/// The position of the brace, at `i` or behind, that closes the last of `depth` open ones;
/// or the end.
pub open spec fn block_end(toks: Seq<TokenView>, i: int, depth: int) -> int
    decreases toks.len() - i,
{
    if i >= toks.len() {
        i
    } else if toks[i].kind == "L_CURLY"@ {
        block_end(toks, i + 1, depth + 1)
    } else if toks[i].kind == "R_CURLY"@ {
        if depth == 1 {
            i
        } else {
            block_end(toks, i + 1, depth - 1)
        }
    } else {
        block_end(toks, i + 1, depth)
    }
}

/// What a state does on entry, on an event, and on exit.
pub struct Blocks {
    pub entry_block: Option<Seq<char>>,
    pub process_block: Option<Seq<char>>,
    pub exit_block: Option<Seq<char>>,
}

/// A word that starts a block of a state.
pub open spec fn is_key(text: Seq<char>) -> bool {
    text == "entry"@ || text == "process"@ || text == "exit"@
}

/// `blocks` with the block of `key` set to `text`.
pub open spec fn with_block(blocks: Blocks, key: Seq<char>, text: Seq<char>) -> Blocks {
    if key == "entry"@ {
        Blocks { entry_block: Some(text), ..blocks }
    } else if key == "process"@ {
        Blocks { process_block: Some(text), ..blocks }
    } else {
        Blocks { exit_block: Some(text), ..blocks }
    }
}

/// An opening bracket.
pub open spec fn opens(kind: Seq<char>) -> bool {
    kind == "L_CURLY"@ || kind == "L_PAREN"@ || kind == "L_BRACK"@
}

/// A closing bracket.
pub open spec fn closes(kind: Seq<char>) -> bool {
    kind == "R_CURLY"@ || kind == "R_PAREN"@ || kind == "R_BRACK"@
}

/// A block ends at `i` if it stands outside of brackets and of the parameters of a
/// closure: at a comma, and before the key of the next block.
pub open spec fn stops(toks: Seq<TokenView>, i: int, end: int, depth: int, pipes: int) -> bool {
    &&& depth == 0
    &&& pipes == 0 || pipes >= 2
    &&& {
        ||| toks[i].kind == "COMMA"@
        ||| i + 1 < end && toks[i + 1].kind == "COLON"@ && is_key(toks[i].text)
    }
}

/// Where the block that starts at `i` ends, inside `depth` brackets and behind `pipes`
/// bars of a closure.
pub open spec fn clause_end(
    toks: Seq<TokenView>,
    i: int,
    end: int,
    depth: int,
    pipes: int,
) -> int
    decreases end - i,
{
    if i >= end {
        i
    } else if opens(toks[i].kind) {
        clause_end(toks, i + 1, end, depth + 1, pipes)
    } else if closes(toks[i].kind) {
        clause_end(toks, i + 1, end, depth - 1, pipes)
    } else if toks[i].kind == "PIPE"@ {
        clause_end(toks, i + 1, end, depth, pipes + 1)
    } else if stops(toks, i, end, depth, pipes) {
        i
    } else {
        clause_end(toks, i + 1, end, depth, pipes)
    }
}

/// The text of the token at `i`, with a space behind it if neither it nor the next one is
/// punctuation.
pub open spec fn spaced_text(toks: Seq<TokenView>, i: int, end: int) -> Seq<char> {
    if i + 1 < end && !toks[i + 1].is_punct && !toks[i].is_punct {
        toks[i].text.push(' ')
    } else {
        toks[i].text
    }
}

/// The text of the block from `from` up to `to`, inside a state that ends at `end`.
pub open spec fn clause_text(toks: Seq<TokenView>, from: int, to: int, end: int) -> Seq<char>
    decreases to - from,
{
    if from >= to {
        Seq::empty()
    } else {
        clause_text(toks, from, to - 1, end) + spaced_text(toks, to - 1, end)
    }
}

/// The blocks that stand at `i` and behind, up to `end`. A later one takes the place of
/// an earlier one with the same key.
pub open spec fn read_blocks(toks: Seq<TokenView>, i: int, end: int, blocks: Blocks) -> Blocks
    decreases end - i,
{
    if i >= end {
        blocks
    } else if !is_key(toks[i].text) {
        read_blocks(toks, i + 1, end, blocks)
    } else if i + 1 < end && toks[i + 1].kind == "COLON"@ {
        let to = clause_end(toks, i + 2, end, 0, 0);
        proof {
            lemma_clause_end(toks, i + 2, end, 0, 0);
        }
        let text = clause_text(toks, i + 2, to, end);
        let next = if to < end {
            past(toks, to, "COMMA"@)
        } else {
            to
        };
        read_blocks(toks, next, end, with_block(blocks, toks[i].text, text))
    } else if i + 1 < end {
        read_blocks(toks, i + 2, end, blocks)
    } else {
        blocks
    }
}

/// The position behind an arrow at `i`, or `i`. The arrow is one token or two.
pub open spec fn past_arrow(toks: Seq<TokenView>, i: int) -> int {
    if at(toks, i, "FAT_ARROW"@) {
        i + 1
    } else if at(toks, i, "EQ"@) && at(toks, i + 1, "R_ANGLE"@) {
        i + 2
    } else {
        i
    }
}

/// The fields of the state whose name is before `i`, and the position behind them.
pub open spec fn state_fields(toks: Seq<TokenView>, i: int) -> (Seq<(Seq<char>, Seq<char>)>, int) {
    if at(toks, i, "L_CURLY"@) {
        let (fields, j) = read_fields(toks, i + 1, Seq::empty());
        (fields, past(toks, j, "R_CURLY"@))
    } else {
        (Seq::empty(), i)
    }
}

/// The state whose name is at `i`, and the position behind it. Without a block for
/// events it is no state.
pub open spec fn read_state(toks: Seq<TokenView>, i: int) -> (Option<StateView>, int) {
    let (fields, j) = state_fields(toks, i + 1);
    let start = past_arrow(toks, j);
    if at(toks, start, "L_CURLY"@) {
        let end = block_end(toks, start, 0);
        let blocks = read_blocks(
            toks,
            start + 1,
            end,
            Blocks { entry_block: None, process_block: None, exit_block: None },
        );
        let next = past(toks, if end < toks.len() {
            end + 1
        } else {
            end
        }, "COMMA"@);
        match blocks.process_block {
            Some(process_block) => (
                Some(
                    StateView {
                        name: toks[i].text,
                        fields,
                        entry_block: blocks.entry_block,
                        process_block,
                        exit_block: blocks.exit_block,
                    },
                ),
                next,
            ),
            None => (None, next),
        }
    } else {
        (None, past(toks, start, "COMMA"@))
    }
}

/// `states` with `state` behind them, if there is one.
pub open spec fn with_state(states: Seq<StateView>, state: Option<StateView>) -> Seq<StateView> {
    match state {
        Some(s) => states.push(s),
        None => states,
    }
}

/// The states that stand at `i` and behind, up to a closing brace, put behind `done`; and
/// the position of that brace.
pub open spec fn read_states(toks: Seq<TokenView>, i: int, done: Seq<StateView>) -> (
    Seq<StateView>,
    int,
)
    decreases toks.len() - i,
{
    if i < 0 || i >= toks.len() || toks[i].kind == "R_CURLY"@ {
        (done, i)
    } else {
        let (state, next) = read_state(toks, i);
        proof {
            lemma_read_state(toks, i);
        }
        read_states(toks, next, with_state(done, state))
    }
}

/// What has been read of a machine.
pub struct Draft {
    pub name: Option<Seq<char>>,
    pub context_type: Option<Seq<char>>,
    pub states: Seq<StateView>,
}

/// What has been read of a machine once the sections at `i` and behind have been read, up
/// to a closing brace. A later name or context takes the place of an earlier one; states
/// add up.
pub open spec fn read_sections(toks: Seq<TokenView>, i: int, d: Draft) -> Draft
    decreases toks.len() - i,
{
    if i < 0 || i >= toks.len() || toks[i].kind == "R_CURLY"@ {
        d
    } else if !at(toks, i + 1, "COLON"@) {
        read_sections(toks, i + 1, d)
    } else if toks[i].text == "Name"@ {
        if i + 2 < toks.len() {
            read_sections(toks, i + 3, Draft { name: Some(toks[i + 2].text), ..d })
        } else {
            d
        }
    } else if toks[i].text == "Context"@ {
        let end = context_end(toks, i + 2);
        proof {
            lemma_context_end(toks, i + 2);
        }
        read_sections(toks, end, Draft { context_type: Some(joined(toks, i + 2, end)), ..d })
    } else if toks[i].text == "States"@ {
        if at(toks, i + 2, "L_CURLY"@) {
            let (states, j) = read_states(toks, i + 3, d.states);
            proof {
                lemma_read_states(toks, i + 3, d.states);
            }
            read_sections(toks, past(toks, j, "R_CURLY"@), Draft { states, ..d })
        } else {
            read_sections(toks, i + 2, d)
        }
    } else {
        read_sections(toks, i + 1, d)
    }
}

/// The machine that a macro body with the tokens `toks` describes. Without a name it is
/// none.
pub open spec fn body_fsm(toks: Seq<TokenView>) -> Option<FsmView> {
    let d = read_sections(
        toks,
        past(toks, 0, "L_CURLY"@),
        Draft { name: None, context_type: None, states: Seq::empty() },
    );
    match d.name {
        Some(name) => Some(FsmView { name, context_type: d.context_type, states: d.states }),
        None => None,
    }
}

pub proof fn lemma_type_end(toks: Seq<TokenView>, i: int)
    ensures
        type_end(toks, i) >= i,
        i <= toks.len() ==> type_end(toks, i) <= toks.len(),
    decreases toks.len() - i,
{
    if !(i >= toks.len() || toks[i].kind == "COMMA"@ || toks[i].kind == "R_CURLY"@) {
        lemma_type_end(toks, i + 1);
    }
}

pub proof fn lemma_context_end(toks: Seq<TokenView>, i: int)
    ensures
        context_end(toks, i) >= i,
        i <= toks.len() ==> context_end(toks, i) <= toks.len(),
    decreases toks.len() - i,
{
    if !(i >= toks.len() || toks[i].kind == "COMMA"@ || toks[i].text == "Event"@ || toks[i].text
        == "States"@) {
        lemma_context_end(toks, i + 1);
    }
}

pub proof fn lemma_clause_end(toks: Seq<TokenView>, i: int, end: int, depth: int, pipes: int)
    ensures
        clause_end(toks, i, end, depth, pipes) >= i,
        i <= end ==> clause_end(toks, i, end, depth, pipes) <= end,
    decreases end - i,
{
    if i < end {
        if opens(toks[i].kind) {
            lemma_clause_end(toks, i + 1, end, depth + 1, pipes);
        } else if closes(toks[i].kind) {
            lemma_clause_end(toks, i + 1, end, depth - 1, pipes);
        } else if toks[i].kind == "PIPE"@ {
            lemma_clause_end(toks, i + 1, end, depth, pipes + 1);
        } else if !stops(toks, i, end, depth, pipes) {
            lemma_clause_end(toks, i + 1, end, depth, pipes);
        }
    }
}

pub proof fn lemma_block_end(toks: Seq<TokenView>, i: int, depth: int)
    ensures
        block_end(toks, i, depth) >= i,
        i <= toks.len() ==> block_end(toks, i, depth) <= toks.len(),
    decreases toks.len() - i,
{
    if i < toks.len() {
        if toks[i].kind == "L_CURLY"@ {
            lemma_block_end(toks, i + 1, depth + 1);
        } else if toks[i].kind == "R_CURLY"@ {
            lemma_block_end(toks, i + 1, depth - 1);
        } else {
            lemma_block_end(toks, i + 1, depth);
        }
    }
}

pub proof fn lemma_read_fields(toks: Seq<TokenView>, i: int, done: Seq<(Seq<char>, Seq<char>)>)
    ensures
        read_fields(toks, i, done).1 >= i,
        i <= toks.len() ==> read_fields(toks, i, done).1 <= toks.len(),
    decreases toks.len() - i,
{
    if !(i < 0 || i >= toks.len() || toks[i].kind == "R_CURLY"@) {
        if at(toks, i + 1, "COLON"@) {
            let end = type_end(toks, i + 2);
            lemma_type_end(toks, i + 2);
            lemma_read_fields(
                toks,
                past(toks, end, "COMMA"@),
                done.push((toks[i].text, joined(toks, i + 2, end))),
            );
        } else {
            lemma_read_fields(toks, past(toks, i + 1, "COMMA"@), done);
        }
    }
}

pub proof fn lemma_read_state(toks: Seq<TokenView>, i: int)
    requires
        0 <= i < toks.len(),
    ensures
        i < read_state(toks, i).1 <= toks.len(),
{
    lemma_read_fields(toks, i + 2, Seq::empty());
    let (fields, j) = state_fields(toks, i + 1);
    let start = past_arrow(toks, j);
    lemma_block_end(toks, start, 0);
}

pub proof fn lemma_read_states(toks: Seq<TokenView>, i: int, done: Seq<StateView>)
    ensures
        read_states(toks, i, done).1 >= i,
        i <= toks.len() ==> read_states(toks, i, done).1 <= toks.len(),
    decreases toks.len() - i,
{
    if !(i < 0 || i >= toks.len() || toks[i].kind == "R_CURLY"@) {
        let (state, next) = read_state(toks, i);
        lemma_read_state(toks, i);
        lemma_read_states(toks, next, with_state(done, state));
    }
}

/// Whether there is a token of the given kind at `i`.
fn is_at(tokens: &Vec<Token>, i: usize, kind: &str) -> (r: bool)
    ensures
        r == at(token_views(tokens@), i as int, kind@),
        r ==> i < tokens.len(),
{
    i < tokens.len() && same(tokens[i].kind.as_str(), kind)
}

/// The position behind `i` if there is a token of the given kind at `i`, and else `i`.
fn skip_at(tokens: &Vec<Token>, i: usize, kind: &str) -> (r: usize)
    ensures
        r == past(token_views(tokens@), i as int, kind@),
{
    if is_at(tokens, i, kind) {
        i + 1
    } else {
        i
    }
}

/// The texts of the tokens from `from` up to `to`, one behind the other.
fn join_texts(tokens: &Vec<Token>, from: usize, to: usize) -> (r: String)
    requires
        from <= to <= tokens.len(),
    ensures
        r@ == joined(token_views(tokens@), from as int, to as int),
{
    let mut r: String = String::new();
    let mut i: usize = from;
    while i < to
        invariant
            from <= i <= to <= tokens.len(),
            r@ == joined(token_views(tokens@), from as int, i as int),
        decreases to - i,
    {
        r.append(tokens[i].text.as_str());
        i = i + 1;
    }
    r
}

/// Where the type of the context that starts at `from` ends.
fn find_context_end(tokens: &Vec<Token>, from: usize) -> (r: usize)
    requires
        from <= tokens.len(),
    ensures
        r == context_end(token_views(tokens@), from as int),
        from <= r <= tokens.len(),
{
    let mut i: usize = from;
    while i < tokens.len() && !is_at(tokens, i, "COMMA") && !same(tokens[i].text.as_str(), "Event")
        && !same(tokens[i].text.as_str(), "States")
        invariant
            from <= i <= tokens.len(),
            context_end(token_views(tokens@), i as int) == context_end(
                token_views(tokens@),
                from as int,
            ),
        decreases tokens.len() - i,
    {
        i = i + 1;
    }
    i
}

/// Where the type of a field that starts at `from` ends.
fn find_type_end(tokens: &Vec<Token>, from: usize) -> (r: usize)
    requires
        from <= tokens.len(),
    ensures
        r == type_end(token_views(tokens@), from as int),
        from <= r <= tokens.len(),
{
    let mut i: usize = from;
    while i < tokens.len() && !is_at(tokens, i, "COMMA") && !is_at(tokens, i, "R_CURLY")
        invariant
            from <= i <= tokens.len(),
            type_end(token_views(tokens@), i as int) == type_end(
                token_views(tokens@),
                from as int,
            ),
        decreases tokens.len() - i,
    {
        i = i + 1;
    }
    i
}

/// Reads the fields at `from` and behind.
fn parse_fields(tokens: &Vec<Token>, from: usize) -> (r: (Vec<(String, String)>, usize))
    requires
        from <= tokens.len(),
    ensures
        (field_views(r.0@), r.1 as int) == read_fields(
            token_views(tokens@),
            from as int,
            Seq::empty(),
        ),
        from <= r.1 <= tokens.len(),
{
    let ghost tv = token_views(tokens@);
    let mut fields: Vec<(String, String)> = Vec::new();
    let mut i: usize = from;
    assert(field_views(fields@) =~= Seq::empty());
    while i < tokens.len() && !is_at(tokens, i, "R_CURLY")
        invariant
            tv == token_views(tokens@),
            from <= i <= tokens.len(),
            read_fields(tv, i as int, field_views(fields@)) == read_fields(
                tv,
                from as int,
                Seq::empty(),
            ),
        decreases tokens.len() - i,
    {
        let ghost before = fields@;
        if is_at(tokens, i + 1, "COLON") {
            let end: usize = find_type_end(tokens, i + 2);
            let name: String = tokens[i].text.clone();
            let ty: String = join_texts(tokens, i + 2, end);
            fields.push((name, ty));
            assert(field_views(fields@) =~= field_views(before).push((name@, ty@)));
            i = skip_at(tokens, end, "COMMA");
        } else {
            i = skip_at(tokens, i + 1, "COMMA");
        }
    }
    (fields, i)
}

/// The position of the brace that closes the one at `start`, or the end.
fn find_block_end(tokens: &Vec<Token>, start: usize) -> (r: usize)
    requires
        at(token_views(tokens@), start as int, "L_CURLY"@),
        start < tokens.len(),
    ensures
        r == block_end(token_views(tokens@), start as int, 0),
        start < r <= tokens.len(),
{
    let ghost tv = token_views(tokens@);
    let mut depth: usize = 1;
    let mut i: usize = start + 1;
    while i < tokens.len()
        invariant
            tv == token_views(tokens@),
            start < i <= tokens.len(),
            1 <= depth <= i - start,
            block_end(tv, i as int, depth as int) == block_end(tv, start as int, 0),
        decreases tokens.len() - i,
    {
        if is_at(tokens, i, "L_CURLY") {
            depth = depth + 1;
        } else if is_at(tokens, i, "R_CURLY") {
            if depth == 1 {
                return i;
            }
            depth = depth - 1;
        }
        i = i + 1;
    }
    i
}

/// Whether `text` is a word that starts a block of a state.
fn is_block_key(text: &str) -> (r: bool)
    ensures
        r == is_key(text@),
{
    same(text, "entry") || same(text, "process") || same(text, "exit")
}

/// Where the block that starts at `from` ends, inside a state that ends at `end`.
fn find_clause_end(tokens: &Vec<Token>, from: usize, end: usize) -> (r: usize)
    requires
        from <= end <= tokens.len(),
    ensures
        r == clause_end(token_views(tokens@), from as int, end as int, 0, 0),
        from <= r <= end,
{
    let ghost tv = token_views(tokens@);
    let mut depth: i128 = 0;
    let mut pipes: usize = 0;
    let mut i: usize = from;
    while i < end
        invariant
            tv == token_views(tokens@),
            from <= i <= end <= tokens.len(),
            -(i - from) <= depth <= i - from,
            pipes <= i - from,
            clause_end(tv, i as int, end as int, depth as int, pipes as int) == clause_end(
                tv,
                from as int,
                end as int,
                0,
                0,
            ),
        decreases end - i,
    {
        if is_at(tokens, i, "L_CURLY") || is_at(tokens, i, "L_PAREN") || is_at(
            tokens,
            i,
            "L_BRACK",
        ) {
            depth = depth + 1;
        } else if is_at(tokens, i, "R_CURLY") || is_at(tokens, i, "R_PAREN") || is_at(
            tokens,
            i,
            "R_BRACK",
        ) {
            depth = depth - 1;
        } else if is_at(tokens, i, "PIPE") {
            pipes = pipes + 1;
        } else if depth == 0 && (pipes == 0 || pipes >= 2) {
            if is_at(tokens, i, "COMMA") {
                return i;
            }
            if i + 1 < end && is_at(tokens, i + 1, "COLON") && is_block_key(
                tokens[i].text.as_str(),
            ) {
                return i;
            }
        }
        i = i + 1;
    }
    i
}

/// The text of the block from `from` up to `to`, inside a state that ends at `end`.
fn join_clause(tokens: &Vec<Token>, from: usize, to: usize, end: usize) -> (r: String)
    requires
        from <= to <= end <= tokens.len(),
    ensures
        r@ == clause_text(token_views(tokens@), from as int, to as int, end as int),
{
    let ghost tv = token_views(tokens@);
    let mut r: String = String::new();
    let mut i: usize = from;
    while i < to
        invariant
            tv == token_views(tokens@),
            from <= i <= to <= end <= tokens.len(),
            r@ == clause_text(tv, from as int, i as int, end as int),
        decreases to - i,
    {
        let ghost before = r@;
        r.append(tokens[i].text.as_str());
        if i + 1 < end && !tokens[i + 1].is_punct && !tokens[i].is_punct {
            r.push(' ');
        }
        assert(r@ =~= before + spaced_text(tv, i as int, end as int));
        i = i + 1;
    }
    r
}

/// Reads the blocks of a state from `from` up to `end`: on entry, on an event, on exit.
fn parse_blocks(tokens: &Vec<Token>, from: usize, end: usize) -> (r: (
    Option<String>,
    Option<String>,
    Option<String>,
))
    requires
        from <= end <= tokens.len(),
    ensures
        (Blocks {
            entry_block: label_view(r.0),
            process_block: label_view(r.1),
            exit_block: label_view(r.2),
        }) == read_blocks(
            token_views(tokens@),
            from as int,
            end as int,
            (Blocks { entry_block: None, process_block: None, exit_block: None }),
        ),
{
    let ghost tv = token_views(tokens@);
    let mut on_entry: Option<String> = None;
    let mut on_event: Option<String> = None;
    let mut on_exit: Option<String> = None;
    let mut i: usize = from;
    while i < end
        invariant
            tv == token_views(tokens@),
            from <= i <= end <= tokens.len(),
            read_blocks(
                tv,
                i as int,
                end as int,
                (Blocks {
                    entry_block: label_view(on_entry),
                    process_block: label_view(on_event),
                    exit_block: label_view(on_exit),
                }),
            ) == read_blocks(
                tv,
                from as int,
                end as int,
                (Blocks { entry_block: None, process_block: None, exit_block: None }),
            ),
        decreases end - i,
    {
        let key: &str = tokens[i].text.as_str();
        if !is_block_key(key) {
            i = i + 1;
        } else if i + 1 < end && is_at(tokens, i + 1, "COLON") {
            let to: usize = find_clause_end(tokens, i + 2, end);
            let text: String = join_clause(tokens, i + 2, to, end);
            if same(key, "entry") {
                on_entry = Some(text);
            } else if same(key, "process") {
                on_event = Some(text);
            } else {
                on_exit = Some(text);
            }
            if to < end {
                i = skip_at(tokens, to, "COMMA");
            } else {
                i = to;
            }
        } else if i + 1 < end {
            i = i + 2;
        } else {
            i = end;
        }
    }
    (on_entry, on_event, on_exit)
}

/// Reads the state whose name is at `i`.
fn parse_state(tokens: &Vec<Token>, i: usize) -> (r: (Option<StateDefinition>, usize))
    requires
        i < tokens.len(),
    ensures
        r.1 == read_state(token_views(tokens@), i as int).1,
        match r.0 {
            Some(s) => read_state(token_views(tokens@), i as int).0 == Some(s@),
            None => read_state(token_views(tokens@), i as int).0 is None,
        },
        i < r.1 <= tokens.len(),
{
    let ghost tv = token_views(tokens@);
    proof {
        lemma_read_state(tv, i as int);
        lemma_read_fields(tv, i + 2, Seq::empty());
    }
    let (fields, behind): (Vec<(String, String)>, usize) = if is_at(tokens, i + 1, "L_CURLY") {
        let (fields, j): (Vec<(String, String)>, usize) = parse_fields(tokens, i + 2);
        (fields, skip_at(tokens, j, "R_CURLY"))
    } else {
        (Vec::new(), i + 1)
    };
    assert(field_views(fields@) =~= state_fields(tv, i + 1).0);
    let start: usize = if is_at(tokens, behind, "FAT_ARROW") {
        behind + 1
    } else if is_at(tokens, behind, "EQ") && is_at(tokens, behind + 1, "R_ANGLE") {
        behind + 2
    } else {
        behind
    };
    if !is_at(tokens, start, "L_CURLY") {
        return (None, skip_at(tokens, start, "COMMA"));
    }
    let end: usize = find_block_end(tokens, start);
    let (entry_block, process, exit_block): (
        Option<String>,
        Option<String>,
        Option<String>,
    ) = parse_blocks(tokens, start + 1, end);
    let after: usize = if end < tokens.len() {
        end + 1
    } else {
        end
    };
    let next: usize = skip_at(tokens, after, "COMMA");
    match process {
        Some(process_block) => {
            let state = StateDefinition {
                name: tokens[i].text.clone(),
                fields,
                entry_block,
                process_block,
                exit_block,
            };
            (Some(state), next)
        },
        None => (None, next),
    }
}

/// Reads the states at `from` and behind, and puts them behind `states`.
fn parse_states(tokens: &Vec<Token>, from: usize, states: &mut Vec<StateDefinition>) -> (r: usize)
    requires
        from <= tokens.len(),
    ensures
        (state_views(final(states)@), r as int) == read_states(
            token_views(tokens@),
            from as int,
            state_views(old(states)@),
        ),
        from <= r <= tokens.len(),
{
    let ghost tv = token_views(tokens@);
    let mut i: usize = from;
    while i < tokens.len() && !is_at(tokens, i, "R_CURLY")
        invariant
            tv == token_views(tokens@),
            from <= i <= tokens.len(),
            read_states(tv, i as int, state_views(states@)) == read_states(
                tv,
                from as int,
                state_views(old(states)@),
            ),
        decreases tokens.len() - i,
    {
        let ghost before = states@;
        let (state, next): (Option<StateDefinition>, usize) = parse_state(tokens, i);
        match state {
            Some(s) => {
                states.push(s);
                assert(state_views(states@) =~= state_views(before).push(s@));
            },
            None => {},
        }
        i = next;
    }
    i
}

/// Reads the tokens of a macro body.
fn parse_tokens(tokens: &Vec<Token>) -> (r: Option<FsmDefinition>)
    ensures
        match r {
            Some(m) => body_fsm(token_views(tokens@)) == Some(m@),
            None => body_fsm(token_views(tokens@)) is None,
        },
{
    let ghost tv = token_views(tokens@);
    let mut name: Option<String> = None;
    let mut context_type: Option<String> = None;
    let mut states: Vec<StateDefinition> = Vec::new();
    let mut i: usize = skip_at(tokens, 0, "L_CURLY");
    let ghost empty = Draft { name: None, context_type: None, states: Seq::empty() };
    let ghost whole = read_sections(tv, past(tv, 0, "L_CURLY"@), empty);
    assert(state_views(states@) =~= Seq::empty());
    while i < tokens.len() && !is_at(tokens, i, "R_CURLY")
        invariant
            tv == token_views(tokens@),
            i <= tokens.len(),
            read_sections(
                tv,
                i as int,
                (Draft {
                    name: label_view(name),
                    context_type: label_view(context_type),
                    states: state_views(states@),
                }),
            ) == whole,
        decreases tokens.len() - i,
    {
        let text: &str = tokens[i].text.as_str();
        if !is_at(tokens, i + 1, "COLON") {
            i = i + 1;
        } else if same(text, "Name") {
            if i + 2 < tokens.len() {
                name = Some(tokens[i + 2].text.clone());
                i = i + 3;
            } else {
                i = i + 2;
            }
        } else if same(text, "Context") {
            let end: usize = find_context_end(tokens, i + 2);
            context_type = Some(join_texts(tokens, i + 2, end));
            i = end;
        } else if same(text, "States") {
            if is_at(tokens, i + 2, "L_CURLY") {
                let j: usize = parse_states(tokens, i + 3, &mut states);
                i = skip_at(tokens, j, "R_CURLY");
            } else {
                i = i + 2;
            }
        } else {
            i = i + 1;
        }
    }
    match name {
        Some(name) => Some(FsmDefinition { name, context_type, states }),
        None => None,
    }
}

/// Puts the tokens of `node` that are neither white space nor comments behind `tokens`.
fn collect_tokens(node: &SyntaxTree, tokens: &mut Vec<Token>)
    ensures
        token_views(final(tokens)@) == token_views(old(tokens)@) + tokens_of(node@),
    decreases *node,
{
    let ghost before = token_views(tokens@);
    if node.is_token && !node.is_kind("WHITESPACE") && !node.is_kind("COMMENT") {
        let token = Token {
            kind: node.kind.clone(),
            is_punct: node.is_punct,
            text: node.text.clone(),
        };
        tokens.push(token);
        assert(token_views(tokens@) =~= before + seq![token@]);
        return;
    }
    let ghost ts = node@.children;
    let mut i: usize = 0;
    assert(ts.take(0) =~= Seq::<TreeView>::empty());
    assert(before + tokens_of_all(ts.take(0)) =~= before);
    while i < node.children.len()
        invariant
            ts == node@.children,
            ts.len() == node.children@.len(),
            i <= node.children@.len(),
            token_views(tokens@) == before + tokens_of_all(ts.take(i as int)),
        decreases node.children@.len() - i,
    {
        assert(ts[i as int] == node.children@[i as int]@);
        let ghost done = ts.take(i + 1);
        assert(done.drop_last() =~= ts.take(i as int));
        collect_tokens(&node.children[i], tokens);
        assert(token_views(tokens@) =~= before + tokens_of_all(done));
        i = i + 1;
    }
    assert(ts.take(i as int) =~= ts);
}

/// Reads the body of a `state_machine!` macro: `token_tree` is the tree with the braces
/// around it. A body without a name gives nothing.
pub fn parse_macro_body(token_tree: &SyntaxTree) -> (r: Option<FsmDefinition>)
    ensures
        match r {
            Some(m) => body_fsm(tokens_of(token_tree@)) == Some(m@),
            None => body_fsm(tokens_of(token_tree@)) is None,
        },
{
    let mut tokens: Vec<Token> = Vec::new();
    assert(token_views(tokens@) =~= Seq::empty());
    collect_tokens(token_tree, &mut tokens);
    assert(token_views(tokens@) =~= tokens_of(token_tree@));
    parse_tokens(&tokens)
}

/// The first token tree of `t`, in the order of the text.
pub open spec fn first_token_tree(t: TreeView) -> Option<TreeView>
    decreases t,
{
    if t.kind == "TOKEN_TREE"@ {
        Some(t)
    } else {
        first_token_tree_of(t.children)
    }
}

/// The first token tree of `ts`, in the order of the text.
pub open spec fn first_token_tree_of(ts: Seq<TreeView>) -> Option<TreeView>
    decreases ts,
{
    if ts.len() == 0 {
        None
    } else {
        match first_token_tree_of(ts.drop_last()) {
            Some(t) => Some(t),
            None => first_token_tree(ts.last()),
        }
    }
}

/// The machine that the source text `call` of a macro call describes.
pub open spec fn call_fsm(call: Seq<char>) -> Option<FsmView> {
    match first_token_tree(source_tree(call)) {
        Some(t) => body_fsm(tokens_of(t)),
        None => None,
    }
}

/// The first token tree of `node`.
fn find_token_tree(node: &SyntaxTree) -> (r: Option<&SyntaxTree>)
    ensures
        match r {
            Some(t) => first_token_tree(node@) == Some(t@),
            None => first_token_tree(node@) is None,
        },
    decreases *node,
{
    if node.is_kind("TOKEN_TREE") {
        return Some(node);
    }
    let ghost ts = node@.children;
    let mut i: usize = 0;
    while i < node.children.len()
        invariant
            ts == node@.children,
            ts.len() == node.children@.len(),
            i <= node.children@.len(),
            node@.kind != "TOKEN_TREE"@,
            first_token_tree_of(ts.take(i as int)) is None,
        decreases node.children@.len() - i,
    {
        assert(ts[i as int] == node.children@[i as int]@);
        assert(ts.take(i + 1).drop_last() =~= ts.take(i as int));
        match find_token_tree(&node.children[i]) {
            Some(t) => {
                proof {
                    lemma_first_stays(ts, i + 1);
                }
                return Some(t);
            },
            None => {},
        }
        i = i + 1;
    }
    assert(ts.take(i as int) =~= ts);
    None
}

proof fn lemma_first_stays(ts: Seq<TreeView>, n: int)
    requires
        0 <= n <= ts.len(),
        first_token_tree_of(ts.take(n)) is Some,
    ensures
        first_token_tree_of(ts) == first_token_tree_of(ts.take(n)),
    decreases ts.len(),
{
    if n == ts.len() {
        assert(ts.take(n) =~= ts);
    } else {
        assert(ts.drop_last().take(n) =~= ts.take(n));
        lemma_first_stays(ts.drop_last(), n);
    }
}

/// Reads a call of the `state_machine!` macro from its source text.
pub fn parse_macro_call(call: &str) -> (r: Option<FsmDefinition>)
    requires
        parsable(call@),
    ensures
        match r {
            Some(m) => call_fsm(call@) == Some(m@),
            None => call_fsm(call@) is None,
        },
{
    let tree: SyntaxTree = parse_source(call);
    match find_token_tree(&tree) {
        Some(t) => parse_macro_body(t),
        None => None,
    }
}

} // verus!
