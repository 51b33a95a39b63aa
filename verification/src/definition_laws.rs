//! Reading back a state machine that is written down as the tokens of a macro.
use vstd::prelude::*;

use crate::input::{
    arrow_at, braces_at, closing, definition, find_word, ident_at, inner_end, key_at, lemma_closing,
    lemma_tree_end, no_blocks, no_states, past_comma, past_fields, past_state, past_trees,
    piece_end, read_blocks, read_body, read_fields, read_state, read_states, rendered, token_text,
    tree_count, tree_end, with_read, with_read_state, BlockView, BlocksView, DefinitionView, Delim,
    Failure, InputView, Parsers, ReadBlocks, ReadState, ReadStates,
};
use crate::model::{FsmView, StateView};
use crate::positions::unspaced;
use crate::visit::{grown, ExprStepView, ExprView};

verus! {

/// How many groups are open behind the first `n` of `ts`.
pub open spec fn groups_open(ts: Seq<InputView>, n: int) -> int
    decreases n,
{
    if n <= 0 {
        0
    } else {
        match ts[n - 1] {
            InputView::Open(_) => groups_open(ts, n - 1) + 1,
            InputView::Close(_) => groups_open(ts, n - 1) - 1,
            _ => groups_open(ts, n - 1),
        }
    }
}

/// Every group in `ts` is closed, and none closes that was not opened.
pub open spec fn is_whole(ts: Seq<InputView>) -> bool {
    &&& forall|n: int| 0 <= n <= ts.len() ==> #[trigger] groups_open(ts, n) >= 0
    &&& groups_open(ts, ts.len() as int) == 0
}

/// `piece` stands in `toks` at `i`.
pub open spec fn lies_at(toks: Seq<InputView>, i: int, piece: Seq<InputView>) -> bool {
    &&& 0 <= i
    &&& i + piece.len() <= toks.len()
    &&& forall|k: int| 0 <= k < piece.len() ==> toks[i + k] == #[trigger] piece[k]
}

proof fn lemma_lies_split(toks: Seq<InputView>, i: int, a: Seq<InputView>, b: Seq<InputView>)
    requires
        lies_at(toks, i, a + b),
    ensures
        lies_at(toks, i, a),
        lies_at(toks, i + a.len(), b),
{
    let all = a + b;
    assert forall|k: int| 0 <= k < a.len() implies toks[i + k] == #[trigger] a[k] by {
        assert(all[k] == a[k]);
    }
    assert forall|k: int| 0 <= k < b.len() implies toks[i + a.len() + k] == #[trigger] b[k] by {
        assert(all[a.len() + k] == b[k]);
    }
}

proof fn lemma_open_front(a: Seq<InputView>, b: Seq<InputView>, n: int)
    requires
        0 <= n <= a.len(),
    ensures
        groups_open(a + b, n) == groups_open(a, n),
    decreases n,
{
    if n > 0 {
        lemma_open_front(a, b, n - 1);
    }
}

proof fn lemma_open_back(a: Seq<InputView>, b: Seq<InputView>, n: int)
    requires
        0 <= n <= b.len(),
    ensures
        groups_open(a + b, a.len() + n) == groups_open(a, a.len() as int) + groups_open(b, n),
    decreases n,
{
    if n > 0 {
        lemma_open_back(a, b, n - 1);
        assert((a + b)[a.len() + n - 1] == b[n - 1]);
    } else {
        lemma_open_front(a, b, a.len() as int);
    }
}

proof fn lemma_whole_join(a: Seq<InputView>, b: Seq<InputView>)
    requires
        is_whole(a),
        is_whole(b),
    ensures
        is_whole(a + b),
{
    let all = a + b;
    assert forall|n: int| 0 <= n <= all.len() implies #[trigger] groups_open(all, n) >= 0 by {
        if n <= a.len() {
            lemma_open_front(a, b, n);
            assert(groups_open(a, n) >= 0);
        } else {
            lemma_open_back(a, b, n - a.len());
            assert(groups_open(b, n - a.len()) >= 0);
        }
    }
    lemma_open_back(a, b, b.len() as int);
}

/// Tokens without brackets are whole.
proof fn lemma_flat_whole(ts: Seq<InputView>)
    requires
        forall|k: int|
            0 <= k < ts.len() ==> !(#[trigger] ts[k] is Open) && !(ts[k] is Close),
    ensures
        is_whole(ts),
{
    assert forall|n: int| 0 <= n <= ts.len() implies #[trigger] groups_open(ts, n) == 0 by {
        lemma_flat_open(ts, n);
    }
}

proof fn lemma_flat_open(ts: Seq<InputView>, n: int)
    requires
        forall|k: int|
            0 <= k < ts.len() ==> !(#[trigger] ts[k] is Open) && !(ts[k] is Close),
        0 <= n <= ts.len(),
    ensures
        groups_open(ts, n) == 0,
    decreases n,
{
    if n > 0 {
        lemma_flat_open(ts, n - 1);
        assert(!(ts[n - 1] is Open) && !(ts[n - 1] is Close));
    }
}

/// A group with whole contents is whole.
proof fn lemma_group_whole(d: Delim, inner: Seq<InputView>)
    requires
        is_whole(inner),
    ensures
        is_whole(seq![InputView::Open(d)] + inner + seq![InputView::Close(d)]),
{
    let a = seq![InputView::Open(d)];
    let b = a + inner;
    let c = seq![InputView::Close(d)];
    let all = b + c;
    reveal_with_fuel(groups_open, 2);
    assert(groups_open(a, 1) == 1);
    assert(groups_open(c, 1) == -1);
    assert forall|n: int| 0 <= n <= all.len() implies #[trigger] groups_open(all, n) >= 0 by {
        if n <= b.len() {
            lemma_open_front(b, c, n);
            if n <= 1 {
                lemma_open_front(a, inner, n);
                assert(n == 0 || n == 1);
            } else {
                lemma_open_back(a, inner, n - 1);
                assert(groups_open(inner, n - 1) >= 0);
            }
        } else {
            lemma_open_back(b, c, 1);
            lemma_open_back(a, inner, inner.len() as int);
        }
    }
    lemma_open_back(b, c, 1);
    lemma_open_back(a, inner, inner.len() as int);
}

/// The bracket that closes stands where as many groups are open again as were before.
proof fn lemma_closing_found(
    toks: Seq<InputView>,
    i: int,
    ts: Seq<InputView>,
    j: int,
    depth: int,
    level: int,
)
    requires
        lies_at(toks, i, ts),
        is_whole(ts),
        0 <= j <= ts.len(),
        level >= 0,
        depth >= 1,
        groups_open(ts, j) == level + depth,
    ensures
        ({
            let c = closing(toks, i + j, depth) - i;
            &&& j <= c < ts.len()
            &&& ts[c] is Close
            &&& groups_open(ts, c + 1) == level
        }),
    decreases ts.len() - j,
{
    assert(j < ts.len());
    assert(toks[i + j] == ts[j]);
    match ts[j] {
        InputView::Open(_) => {
            assert(groups_open(ts, j + 1) == level + depth + 1);
            lemma_closing_found(toks, i, ts, j + 1, depth + 1, level);
        },
        InputView::Close(_) => {
            assert(groups_open(ts, j + 1) == level + depth - 1);
            if depth > 1 {
                lemma_closing_found(toks, i, ts, j + 1, depth - 1, level);
            }
        },
        _ => {
            assert(groups_open(ts, j + 1) == level + depth);
            lemma_closing_found(toks, i, ts, j + 1, depth, level);
        },
    }
}

/// A token or a group of whole tokens ends among them, with no group left open.
proof fn lemma_tree_inside(toks: Seq<InputView>, i: int, ts: Seq<InputView>, j: int, end: int)
    requires
        lies_at(toks, i, ts),
        is_whole(ts),
        0 <= j < ts.len(),
        groups_open(ts, j) == 0,
        i + ts.len() <= end <= toks.len(),
    ensures
        j < tree_end(toks, i + j, end) - i <= ts.len(),
        groups_open(ts, tree_end(toks, i + j, end) - i) == 0,
{
    assert(toks[i + j] == ts[j]);
    match ts[j] {
        InputView::Open(_) => {
            assert(groups_open(ts, j + 1) == 1);
            lemma_closing_found(toks, i, ts, j + 1, 1, 0);
        },
        InputView::Close(_) => {
            assert(groups_open(ts, j + 1) == -1);
            assert(groups_open(ts, j + 1) >= 0);
        },
        _ => {
            assert(groups_open(ts, j + 1) == 0);
        },
    }
}

/// The number of tokens and groups of whole tokens, from `j` on.
proof fn lemma_count_inside(toks: Seq<InputView>, i: int, ts: Seq<InputView>, j: int, end: int)
    requires
        lies_at(toks, i, ts),
        is_whole(ts),
        0 <= j <= ts.len(),
        groups_open(ts, j) == 0,
        i + ts.len() <= end <= toks.len(),
    ensures
        tree_count(toks, i + j, end) >= tree_count(toks, i + ts.len(), end),
        past_trees(
            toks,
            i + j,
            end,
            (tree_count(toks, i + j, end) - tree_count(toks, i + ts.len(), end)) as nat,
        ) == i + ts.len(),
        j < ts.len() ==> tree_count(toks, i + j, end) > tree_count(toks, i + ts.len(), end),
    decreases ts.len() - j,
{
    if j < ts.len() {
        lemma_tree_inside(toks, i, ts, j, end);
        let next = tree_end(toks, i + j, end) - i;
        lemma_count_inside(toks, i, ts, next, end);
        assert(tree_count(toks, i + j, end) == tree_count(toks, i + next, end) + 1);
    }
}

/// What a parser takes ends where the tokens do that it takes.
proof fn lemma_piece(
    toks: Seq<InputView>,
    i: int,
    ts: Seq<InputView>,
    end: int,
    rest: Result<nat, Seq<char>>,
)
    requires
        lies_at(toks, i, ts),
        is_whole(ts),
        ts.len() > 0,
        i + ts.len() <= end <= toks.len(),
        rest == Ok::<nat, Seq<char>>(tree_count(toks, i + ts.len(), end)),
    ensures
        piece_end(toks, i, end, rest) == Ok::<int, Failure>(i + ts.len()),
{
    lemma_count_inside(toks, i, ts, 0, end);
}

/// The texts of tokens do not depend on where they stand.
proof fn lemma_rendered_moved(toks: Seq<InputView>, i: int, ts: Seq<InputView>, n: int)
    requires
        lies_at(toks, i, ts),
        0 <= n <= ts.len(),
    ensures
        rendered(toks, i, i + n) == rendered(ts, 0, n),
    decreases n,
{
    if n > 0 {
        lemma_rendered_moved(toks, i, ts, n - 1);
        assert(toks[i + (n - 1)] == ts[n - 1]);
        if n >= 2 {
            assert(toks[i + (n - 2)] == ts[n - 2]);
        }
    }
}

proof fn lemma_closing_moved(toks: Seq<InputView>, i: int, ts: Seq<InputView>, j: int, depth: int)
    requires
        lies_at(toks, i, ts),
        0 <= j <= ts.len(),
    ensures
        closing(ts, j, depth) < ts.len() ==> closing(toks, i + j, depth) == i + closing(
            ts,
            j,
            depth,
        ),
        closing(ts, j, depth) >= ts.len() ==> closing(toks, i + j, depth) >= i + ts.len(),
    decreases ts.len() - j,
{
    if j < ts.len() {
        assert(toks[i + j] == ts[j]);
        lemma_closing_moved(toks, i, ts, j + 1, depth + 1);
        lemma_closing_moved(toks, i, ts, j + 1, depth - 1);
        lemma_closing_moved(toks, i, ts, j + 1, depth);
    } else {
        lemma_closing(toks, i + j, depth);
    }
}

/// The number of tokens and groups does not depend on where they stand.
proof fn lemma_count_moved(toks: Seq<InputView>, i: int, ts: Seq<InputView>, j: int)
    requires
        lies_at(toks, i, ts),
        0 <= j <= ts.len(),
    ensures
        tree_count(toks, i + j, i + ts.len()) == tree_count(ts, j, ts.len() as int),
    decreases ts.len() - j,
{
    let n = ts.len() as int;
    if j < n {
        assert(toks[i + j] == ts[j]);
        lemma_closing_moved(toks, i, ts, j + 1, 1);
        lemma_tree_end(ts, j, n);
        assert(tree_end(toks, i + j, i + n) == i + tree_end(ts, j, n));
        lemma_count_moved(toks, i, ts, tree_end(ts, j, n));
        assert(tree_count(ts, j, n) == tree_count(ts, tree_end(ts, j, n), n) + 1);
        assert(tree_count(toks, i + j, i + n) == tree_count(
            toks,
            i + tree_end(ts, j, n),
            i + n,
        ) + 1);
    }
}

/// The text of `ts`.
pub open spec fn text_of(ts: Seq<InputView>) -> Seq<char> {
    rendered(ts, 0, ts.len() as int)
}

/// How many tokens and groups `ts` has.
pub open spec fn count_of(ts: Seq<InputView>) -> nat {
    tree_count(ts, 0, ts.len() as int)
}

/// A comma, or nothing.
pub open spec fn comma_if(there: bool) -> Seq<InputView> {
    if there {
        seq![InputView::Punct(',', false)]
    } else {
        Seq::empty()
    }
}

/// A word and a colon.
pub open spec fn labelled(name: Seq<char>) -> Seq<InputView> {
    seq![InputView::Ident(name), InputView::Punct(':', false)]
}

/// A field as it is written down.
pub struct FieldInput {
    pub name: Seq<char>,
    pub ty: Seq<InputView>,
    pub comma: bool,
}

/// The tokens of several fields.
pub open spec fn fields_input(fs: Seq<FieldInput>) -> Seq<InputView>
    decreases fs.len(),
{
    if fs.len() == 0 {
        Seq::empty()
    } else {
        labelled(fs[0].name) + fs[0].ty + (comma_if(fs[0].comma) + fields_input(fs.drop_first()))
    }
}

/// `fs` can be fields: each has a name and a type, and the parser of types takes the type from
/// the text that starts with it.
pub open spec fn are_fields(p: Parsers, fs: Seq<FieldInput>) -> bool
    decreases fs.len(),
{
    fs.len() > 0 ==> {
        let rest = comma_if(fs[0].comma) + fields_input(fs.drop_first());
        &&& (p.ident)(fs[0].name)
        &&& fs[0].ty.len() > 0 && is_whole(fs[0].ty)
        &&& (p.ty)(text_of(fs[0].ty + rest)) == Ok::<nat, Seq<char>>(count_of(rest))
        &&& are_fields(p, fs.drop_first())
    }
}

/// The fields that are written down.
pub open spec fn fields_meant(fs: Seq<FieldInput>) -> Seq<(Seq<char>, Seq<char>)> {
    fs.map_values(|f: FieldInput| (f.name, text_of(f.ty)))
}

/// A block as it is written down: its word, its tokens, and the steps of the walk through its
/// expression.
pub struct BlockInput {
    pub key: Seq<char>,
    pub code: Seq<InputView>,
    pub steps: Seq<ExprStepView>,
    pub comma: bool,
}

/// The tokens of several blocks.
pub open spec fn blocks_input(bs: Seq<BlockInput>) -> Seq<InputView>
    decreases bs.len(),
{
    if bs.len() == 0 {
        Seq::empty()
    } else {
        labelled(bs[0].key) + bs[0].code + (comma_if(bs[0].comma) + blocks_input(
            bs.drop_first(),
        ))
    }
}

/// `bs` can be blocks: each has a word and an expression, and the parser of expressions takes
/// the expression from the text that starts with it.
pub open spec fn are_blocks(p: Parsers, bs: Seq<BlockInput>) -> bool
    decreases bs.len(),
{
    bs.len() > 0 ==> {
        let rest = comma_if(bs[0].comma) + blocks_input(bs.drop_first());
        &&& (p.ident)(bs[0].key)
        &&& bs[0].key == "entry"@ || bs[0].key == "process"@ || bs[0].key == "exit"@
        &&& bs[0].code.len() > 0 && is_whole(bs[0].code)
        &&& (p.expr)(text_of(bs[0].code + rest)) == Ok::<(nat, Seq<ExprStepView>), Seq<char>>(
            (count_of(rest), bs[0].steps),
        )
        &&& are_blocks(p, bs.drop_first())
    }
}

/// The block behind the word `key`: the last one, where there are several.
pub open spec fn block_meant(bs: Seq<BlockInput>, key: Seq<char>) -> Option<BlockView>
    decreases bs.len(),
{
    if bs.len() == 0 {
        None
    } else if bs.last().key == key {
        Some(BlockView { text: text_of(bs.last().code), tree: grown(bs.last().steps) })
    } else {
        block_meant(bs.drop_last(), key)
    }
}

/// A state as it is written down.
pub struct StateInput {
    pub name: Seq<char>,
    pub fields: Option<Seq<FieldInput>>,
    pub blocks: Seq<BlockInput>,
    pub comma: bool,
}

/// A group in braces.
pub open spec fn braced(inner: Seq<InputView>) -> Seq<InputView> {
    seq![InputView::Open(Delim::Brace)] + inner + seq![InputView::Close(Delim::Brace)]
}

/// The tokens of the fields of a state.
pub open spec fn group_input(fields: Option<Seq<FieldInput>>) -> Seq<InputView> {
    match fields {
        Some(fs) => braced(fields_input(fs)),
        None => Seq::empty(),
    }
}

/// An arrow.
pub open spec fn arrow_input() -> Seq<InputView> {
    seq![InputView::Punct('=', true), InputView::Punct('>', false)]
}

/// The tokens of a state.
pub open spec fn state_input(w: StateInput) -> Seq<InputView> {
    seq![InputView::Ident(w.name)] + group_input(w.fields) + arrow_input() + braced(
        blocks_input(w.blocks),
    ) + comma_if(w.comma)
}

/// `w` can be a state.
pub open spec fn is_state_input(p: Parsers, w: StateInput) -> bool {
    &&& (p.ident)(w.name)
    &&& w.fields matches Some(fs) ==> are_fields(p, fs)
    &&& are_blocks(p, w.blocks)
}

/// The tokens of several states.
pub open spec fn states_input(ws: Seq<StateInput>) -> Seq<InputView>
    decreases ws.len(),
{
    if ws.len() == 0 {
        Seq::empty()
    } else {
        state_input(ws[0]) + states_input(ws.drop_first())
    }
}

/// The text of an optional block.
pub open spec fn text_meant(b: Option<BlockView>) -> Option<Seq<char>> {
    match b {
        Some(b) => Some(b.text),
        None => None,
    }
}

/// The expression of an optional block.
pub open spec fn tree_meant(b: Option<BlockView>) -> Option<ExprView> {
    match b {
        Some(b) => Some(b.tree),
        None => None,
    }
}

/// The state that is written down as `w`, where it has a block for events.
pub open spec fn state_meant(w: StateInput) -> StateView {
    StateView {
        name: w.name,
        fields: match w.fields {
            Some(fs) => fields_meant(fs),
            None => Seq::empty(),
        },
        entry_block: text_meant(block_meant(w.blocks, "entry"@)),
        process_block: block_meant(w.blocks, "process"@)->0.text,
        exit_block: text_meant(block_meant(w.blocks, "exit"@)),
    }
}

/// The expressions of the blocks of the state that is written down as `w`.
pub open spec fn trees_meant(w: StateInput) -> BlocksView {
    BlocksView {
        entry: tree_meant(block_meant(w.blocks, "entry"@)),
        process: block_meant(w.blocks, "process"@)->0.tree,
        exit: tree_meant(block_meant(w.blocks, "exit"@)),
    }
}

/// The states that are written down: all those that have a block for events.
pub open spec fn states_meant(ws: Seq<StateInput>) -> ReadStates
    decreases ws.len(),
{
    if ws.len() == 0 {
        ReadStates { states: Seq::empty(), blocks: Seq::empty() }
    } else {
        let rest = states_meant(ws.drop_first());
        if block_meant(ws[0].blocks, "process"@) is Some {
            ReadStates {
                states: seq![state_meant(ws[0])] + rest.states,
                blocks: seq![trees_meant(ws[0])] + rest.blocks,
            }
        } else {
            rest
        }
    }
}

/// A machine as it is written down, with what stands before its name and before its states.
pub struct MachineInput {
    pub before: Seq<InputView>,
    pub name: Seq<char>,
    pub between: Seq<InputView>,
    pub states: Seq<StateInput>,
}

/// The tokens of a machine.
pub open spec fn machine_input(m: MachineInput) -> Seq<InputView> {
    m.before + labelled("Name"@) + seq![InputView::Ident(m.name)] + m.between + labelled(
        "States"@,
    ) + braced(states_input(m.states))
}

/// The word `word` does not stand in `ts`.
pub open spec fn lacks_word(ts: Seq<InputView>, word: Seq<char>) -> bool {
    forall|k: int| 0 <= k < ts.len() ==> #[trigger] ts[k] != InputView::Ident(word)
}

/// `m` can be a machine.
pub open spec fn is_machine_input(p: Parsers, m: MachineInput) -> bool {
    &&& is_whole(m.before) && lacks_word(m.before, "Name"@)
    &&& is_whole(m.between) && lacks_word(m.between, "States"@)
    &&& (p.ident)("Name"@) && (p.ident)("States"@) && (p.ident)(m.name)
    &&& forall|k: int| 0 <= k < m.states.len() ==> is_state_input(p, #[trigger] m.states[k])
}

proof fn lemma_labelled_whole(name: Seq<char>)
    ensures
        is_whole(labelled(name)),
        is_whole(seq![InputView::Ident(name)]),
        is_whole(comma_if(true)),
        is_whole(comma_if(false)),
        is_whole(arrow_input()),
{
    lemma_flat_whole(labelled(name));
    lemma_flat_whole(seq![InputView::Ident(name)]);
    lemma_flat_whole(comma_if(true));
    lemma_flat_whole(comma_if(false));
    lemma_flat_whole(arrow_input());
}

proof fn lemma_fields_whole(p: Parsers, fs: Seq<FieldInput>)
    requires
        are_fields(p, fs),
    ensures
        is_whole(fields_input(fs)),
    decreases fs.len(),
{
    if fs.len() > 0 {
        let f = fs[0];
        let rest = fs.drop_first();
        lemma_fields_whole(p, rest);
        lemma_labelled_whole(f.name);
        lemma_whole_join(labelled(f.name), f.ty);
        lemma_whole_join(comma_if(f.comma), fields_input(rest));
        lemma_whole_join(labelled(f.name) + f.ty, comma_if(f.comma) + fields_input(rest));
    } else {
        lemma_flat_whole(fields_input(fs));
    }
}

proof fn lemma_blocks_whole(p: Parsers, bs: Seq<BlockInput>)
    requires
        are_blocks(p, bs),
    ensures
        is_whole(blocks_input(bs)),
    decreases bs.len(),
{
    if bs.len() > 0 {
        let b = bs[0];
        let rest = bs.drop_first();
        lemma_blocks_whole(p, rest);
        lemma_labelled_whole(b.key);
        lemma_whole_join(labelled(b.key), b.code);
        lemma_whole_join(comma_if(b.comma), blocks_input(rest));
        lemma_whole_join(labelled(b.key) + b.code, comma_if(b.comma) + blocks_input(rest));
    } else {
        lemma_flat_whole(blocks_input(bs));
    }
}

/// A piece that a parser takes from what is left of a group, with what follows it.
proof fn lemma_taken(
    toks: Seq<InputView>,
    i: int,
    ts: Seq<InputView>,
    comma: bool,
    more: Seq<InputView>,
)
    requires
        lies_at(toks, i, ts + (comma_if(comma) + more)),
        is_whole(ts),
        ts.len() > 0,
        more.len() > 0 ==> more[0] is Ident,
    ensures
        ({
            let rest = comma_if(comma) + more;
            let end = i + ts.len() + rest.len();
            &&& rendered(toks, i, end) == text_of(ts + rest)
            &&& rendered(toks, i, i + ts.len()) == text_of(ts)
            &&& piece_end(toks, i, end, Ok(count_of(rest))) == Ok::<int, Failure>(i + ts.len())
            &&& past_comma(toks, i + ts.len(), end) == i + ts.len() + comma_if(comma).len()
            &&& lies_at(toks, i + ts.len() + comma_if(comma).len(), more)
        }),
{
    let rest = comma_if(comma) + more;
    let all = ts + rest;
    let end = i + all.len();
    lemma_rendered_moved(toks, i, all, all.len() as int);
    lemma_lies_split(toks, i, ts, rest);
    lemma_lies_split(toks, i + ts.len(), comma_if(comma), more);
    lemma_rendered_moved(toks, i, ts, ts.len() as int);
    lemma_count_moved(toks, i + ts.len(), rest, 0);
    lemma_piece(toks, i, ts, end, Ok(count_of(rest)));
    if comma {
        assert(toks[i + ts.len() + 0] == comma_if(comma)[0]);
    } else if more.len() > 0 {
        assert(toks[i + ts.len() + comma_if(comma).len() + 0] == more[0]);
    }
}

proof fn lemma_fields_back(
    p: Parsers,
    toks: Seq<InputView>,
    i: int,
    fs: Seq<FieldInput>,
    done: Seq<(Seq<char>, Seq<char>)>,
)
    requires
        lies_at(toks, i, fields_input(fs)),
        are_fields(p, fs),
    ensures
        read_fields(p, toks, i, i + fields_input(fs).len(), done) == Ok::<
            Seq<(Seq<char>, Seq<char>)>,
            Failure,
        >(done + fields_meant(fs)),
    decreases fs.len(),
{
    let end = i + fields_input(fs).len();
    if fs.len() == 0 {
        assert(done + fields_meant(fs) =~= done);
    } else {
        let f = fs[0];
        let more = fs.drop_first();
        let tail = comma_if(f.comma) + fields_input(more);
        assert(fields_input(fs) =~= labelled(f.name) + (f.ty + tail));
        lemma_lies_split(toks, i, labelled(f.name), f.ty + tail);
        assert(toks[i + 0] == labelled(f.name)[0]);
        assert(toks[i + 1] == labelled(f.name)[1]);
        if more.len() > 0 {
            assert(fields_input(more)[0] == labelled(more[0].name)[0]);
        }
        lemma_taken(toks, i + 2, f.ty, f.comma, fields_input(more));
        let next = i + 2 + f.ty.len() + comma_if(f.comma).len();
        let got = done.push((f.name, text_of(f.ty)));
        lemma_fields_back(p, toks, next, more, got);
        assert(got + fields_meant(more) =~= done + fields_meant(fs));
    }
}

/// The blocks `done` with those of `bs` in place of others.
spec fn blocks_over(done: ReadBlocks, bs: Seq<BlockInput>) -> ReadBlocks {
    ReadBlocks {
        entry: if block_meant(bs, "entry"@) is Some {
            block_meant(bs, "entry"@)
        } else {
            done.entry
        },
        process: if block_meant(bs, "process"@) is Some {
            block_meant(bs, "process"@)
        } else {
            done.process
        },
        exit: if block_meant(bs, "exit"@) is Some {
            block_meant(bs, "exit"@)
        } else {
            done.exit
        },
    }
}

proof fn lemma_keys_differ()
    ensures
        "entry"@ != "process"@,
        "entry"@ != "exit"@,
        "process"@ != "exit"@,
{
    reveal_strlit("entry");
    reveal_strlit("process");
    reveal_strlit("exit");
    assert("entry"@.len() == 5 && "process"@.len() == 7 && "exit"@.len() == 4);
}

/// A first block counts where no later one has its word.
proof fn lemma_block_first(bs: Seq<BlockInput>, key: Seq<char>)
    requires
        bs.len() > 0,
    ensures
        block_meant(bs, key) == if block_meant(bs.drop_first(), key) is Some {
            block_meant(bs.drop_first(), key)
        } else if bs[0].key == key {
            Some(BlockView { text: text_of(bs[0].code), tree: grown(bs[0].steps) })
        } else {
            None
        },
    decreases bs.len(),
{
    if bs.len() > 1 {
        let rest = bs.drop_first();
        assert(rest.last() == bs.last());
        assert(rest.drop_last() =~= bs.drop_last().drop_first());
        assert(bs.drop_last()[0] == bs[0]);
        lemma_block_first(bs.drop_last(), key);
    } else {
        assert(bs.drop_first() =~= Seq::empty());
        assert(bs.drop_last() =~= Seq::empty());
        assert(block_meant(bs.drop_last(), key) is None);
        assert(block_meant(bs.drop_first(), key) is None);
    }
}

proof fn lemma_blocks_back(
    p: Parsers,
    toks: Seq<InputView>,
    i: int,
    bs: Seq<BlockInput>,
    done: ReadBlocks,
)
    requires
        lies_at(toks, i, blocks_input(bs)),
        are_blocks(p, bs),
    ensures
        read_blocks(p, toks, i, i + blocks_input(bs).len(), done) == Ok::<ReadBlocks, Failure>(
            blocks_over(done, bs),
        ),
    decreases bs.len(),
{
    let end = i + blocks_input(bs).len();
    if bs.len() > 0 {
        lemma_keys_differ();
        let b = bs[0];
        let more = bs.drop_first();
        let tail = comma_if(b.comma) + blocks_input(more);
        assert(blocks_input(bs) =~= labelled(b.key) + (b.code + tail));
        lemma_lies_split(toks, i, labelled(b.key), b.code + tail);
        assert(toks[i + 0] == labelled(b.key)[0]);
        assert(toks[i + 1] == labelled(b.key)[1]);
        if more.len() > 0 {
            assert(blocks_input(more)[0] == labelled(more[0].key)[0]);
        }
        lemma_taken(toks, i + 2, b.code, b.comma, blocks_input(more));
        let next = i + 2 + b.code.len() + comma_if(b.comma).len();
        let got = with_read(
            done,
            b.key,
            BlockView { text: text_of(b.code), tree: grown(b.steps) },
        );
        lemma_blocks_back(p, toks, next, more, got);
        lemma_block_first(bs, "entry"@);
        lemma_block_first(bs, "process"@);
        lemma_block_first(bs, "exit"@);
        assert(key_at(p, toks, i, end));
        assert(read_blocks(p, toks, i, end, done) == read_blocks(p, toks, next, end, got));
        assert(blocks_over(got, more) == blocks_over(done, bs));
    }
}

/// A group in braces ends behind its contents.
proof fn lemma_group_ends(toks: Seq<InputView>, i: int, inner: Seq<InputView>, end: int)
    requires
        lies_at(toks, i, braced(inner)),
        is_whole(inner),
        i + braced(inner).len() <= end <= toks.len(),
    ensures
        braces_at(toks, i, end),
        inner_end(toks, i, end) == i + 1 + inner.len(),
        tree_end(toks, i, end) == i + braced(inner).len(),
        lies_at(toks, i + 1, inner),
{
    let open = seq![InputView::Open(Delim::Brace)];
    let close = seq![InputView::Close(Delim::Brace)];
    lemma_lies_split(toks, i, open + inner, close);
    lemma_lies_split(toks, i, open, inner);
    assert(toks[i + 0] == open[0]);
    let c = i + 1 + inner.len();
    assert(toks[c + 0] == close[0]);
    lemma_closing_at(toks, i + 1, inner, 0, 1);
}

/// Behind whole tokens, the same groups are open.
proof fn lemma_closing_at(toks: Seq<InputView>, i: int, ts: Seq<InputView>, j: int, depth: int)
    requires
        lies_at(toks, i, ts),
        is_whole(ts),
        0 <= j <= ts.len(),
        depth == 1 + groups_open(ts, j),
        i + ts.len() < toks.len(),
        toks[i + ts.len()] is Close,
    ensures
        closing(toks, i + j, depth) == i + ts.len(),
    decreases ts.len() - j,
{
    if j < ts.len() {
        assert(toks[i + j] == ts[j]);
        assert(groups_open(ts, j + 1) >= 0);
        match ts[j] {
            InputView::Open(_) => {
                lemma_closing_at(toks, i, ts, j + 1, depth + 1);
            },
            InputView::Close(_) => {
                assert(groups_open(ts, j + 1) == groups_open(ts, j) - 1);
                lemma_closing_at(toks, i, ts, j + 1, depth - 1);
            },
            _ => {
                lemma_closing_at(toks, i, ts, j + 1, depth);
            },
        }
    }
}

/// What is read of a state that is written down.
spec fn read_of(w: StateInput) -> Option<ReadState> {
    if block_meant(w.blocks, "process"@) is Some {
        Some(ReadState { state: state_meant(w), blocks: trees_meant(w) })
    } else {
        None
    }
}

proof fn lemma_state_back(p: Parsers, toks: Seq<InputView>, i: int, w: StateInput, end: int)
    requires
        lies_at(toks, i, state_input(w)),
        is_state_input(p, w),
        i + state_input(w).len() <= end <= toks.len(),
        !w.comma && i + state_input(w).len() < end ==> toks[i + state_input(w).len()] is Ident,
    ensures
        read_state(p, toks, i, end) == Ok::<Option<ReadState>, Failure>(read_of(w)),
        past_state(toks, i, end) == i + state_input(w).len(),
{
    let p1 = seq![InputView::Ident(w.name)];
    let group = group_input(w.fields);
    let body = blocks_input(w.blocks);
    let p2 = p1 + group;
    let p3 = p2 + arrow_input();
    let p4 = p3 + braced(body);
    lemma_lies_split(toks, i, p4, comma_if(w.comma));
    lemma_lies_split(toks, i, p3, braced(body));
    lemma_lies_split(toks, i, p2, arrow_input());
    lemma_lies_split(toks, i, p1, group);
    assert(toks[i + 0] == p1[0]);
    let j = i + p2.len();
    assert(toks[j + 0] == arrow_input()[0]);
    assert(toks[j + 1] == arrow_input()[1]);
    lemma_blocks_whole(p, w.blocks);
    lemma_group_ends(toks, j + 2, body, end);
    match w.fields {
        Some(fs) => {
            lemma_fields_whole(p, fs);
            lemma_group_ends(toks, i + 1, fields_input(fs), end);
            lemma_fields_back(p, toks, i + 2, fs, Seq::empty());
            assert(Seq::empty() + fields_meant(fs) =~= fields_meant(fs));
        },
        None => {
            assert(toks[i + 1] == arrow_input()[0]);
            assert(!braces_at(toks, i + 1, end));
        },
    }
    assert(past_fields(toks, i + 1, end) == j);
    assert(arrow_at(toks, j, end));
    lemma_blocks_back(p, toks, j + 3, w.blocks, no_blocks());
    let behind = i + p4.len();
    if w.comma {
        assert(toks[behind + 0] == comma_if(w.comma)[0]);
    }
    assert(past_comma(toks, behind, end) == i + state_input(w).len());
}

/// However many states are written down one after the other, all those that have a block for
/// events are read, in their order, with their fields, their blocks and the expressions of
/// these, behind those that were there before.
pub proof fn law_input_states_read_back(
    p: Parsers,
    toks: Seq<InputView>,
    i: int,
    ws: Seq<StateInput>,
    done: ReadStates,
)
    requires
        lies_at(toks, i, states_input(ws)),
        forall|k: int| 0 <= k < ws.len() ==> is_state_input(p, #[trigger] ws[k]),
    ensures
        read_states(p, toks, i, i + states_input(ws).len(), done) == Ok::<ReadStates, Failure>(
            ReadStates {
                states: done.states + states_meant(ws).states,
                blocks: done.blocks + states_meant(ws).blocks,
            },
        ),
    decreases ws.len(),
{
    let end = i + states_input(ws).len();
    if ws.len() == 0 {
        assert(done.states + states_meant(ws).states =~= done.states);
        assert(done.blocks + states_meant(ws).blocks =~= done.blocks);
    } else {
        let w = ws[0];
        let more = ws.drop_first();
        assert(is_state_input(p, w));
        lemma_lies_split(toks, i, state_input(w), states_input(more));
        let next = i + state_input(w).len();
        assert(state_input(w).len() > 0);
        if more.len() > 0 {
            assert(state_input(more[0])[0] == InputView::Ident(more[0].name));
            assert(states_input(more)[0] == state_input(more[0])[0]);
            assert(toks[next + 0] == states_input(more)[0]);
        }
        lemma_state_back(p, toks, i, w, end);
        assert forall|k: int| 0 <= k < more.len() implies is_state_input(p, #[trigger] more[k]) by {
            assert(more[k] == ws[k + 1]);
        }
        let got = with_read_state(done, read_of(w));
        law_input_states_read_back(p, toks, next, more, got);
        assert(got.states + states_meant(more).states =~= done.states + states_meant(ws).states);
        assert(got.blocks + states_meant(more).blocks =~= done.blocks + states_meant(ws).blocks);
    }
}

proof fn lemma_states_whole(p: Parsers, ws: Seq<StateInput>)
    requires
        forall|k: int| 0 <= k < ws.len() ==> is_state_input(p, #[trigger] ws[k]),
    ensures
        is_whole(states_input(ws)),
    decreases ws.len(),
{
    if ws.len() > 0 {
        let w = ws[0];
        let more = ws.drop_first();
        assert(is_state_input(p, w));
        assert forall|k: int| 0 <= k < more.len() implies is_state_input(p, #[trigger] more[k]) by {
            assert(more[k] == ws[k + 1]);
        }
        lemma_states_whole(p, more);
        lemma_labelled_whole(w.name);
        lemma_blocks_whole(p, w.blocks);
        lemma_group_whole(Delim::Brace, blocks_input(w.blocks));
        match w.fields {
            Some(fs) => {
                lemma_fields_whole(p, fs);
                lemma_group_whole(Delim::Brace, fields_input(fs));
            },
            None => {
                lemma_flat_whole(group_input(w.fields));
            },
        }
        let p1 = seq![InputView::Ident(w.name)];
        let p2 = p1 + group_input(w.fields);
        let p3 = p2 + arrow_input();
        let p4 = p3 + braced(blocks_input(w.blocks));
        lemma_whole_join(p1, group_input(w.fields));
        lemma_whole_join(p2, arrow_input());
        lemma_whole_join(p3, braced(blocks_input(w.blocks)));
        lemma_whole_join(p4, comma_if(w.comma));
        lemma_whole_join(state_input(w), states_input(more));
    } else {
        lemma_flat_whole(states_input(ws));
    }
}

/// The search for a word passes over whole tokens that lack it.
proof fn lemma_word_behind(
    p: Parsers,
    toks: Seq<InputView>,
    i: int,
    ts: Seq<InputView>,
    j: int,
    word: Seq<char>,
)
    requires
        lies_at(toks, i, ts),
        is_whole(ts),
        lacks_word(ts, word),
        0 <= j <= ts.len(),
        groups_open(ts, j) == 0,
    ensures
        find_word(p, toks, i + j, word) == find_word(p, toks, i + ts.len(), word),
    decreases ts.len() - j,
{
    if j < ts.len() {
        let n = toks.len() as int;
        assert(toks[i + j] == ts[j]);
        assert(ts[j] != InputView::Ident(word));
        lemma_tree_inside(toks, i, ts, j, n);
        let next = tree_end(toks, i + j, n) - i;
        lemma_word_behind(p, toks, i, ts, next, word);
        assert(ident_at(p, toks, i + j, n) != Ok::<Seq<char>, Failure>(word));
    }
}

/// Where the parts of a machine stand that is written down.
proof fn lemma_machine_stands(p: Parsers, m: MachineInput, more: Seq<InputView>) -> (j: int)
    requires
        is_machine_input(p, m),
    ensures
        ({
            let toks = machine_input(m) + more;
            let i = m.before.len() as int;
            &&& find_word(p, toks, 0, "Name"@) == i
            &&& i + 3 <= j && j + 3 <= toks.len()
            &&& toks[i] == InputView::Ident("Name"@)
            &&& toks[i + 1] == InputView::Punct(':', false)
            &&& toks[i + 2] == InputView::Ident(m.name)
            &&& find_word(p, toks, i + 3, "States"@) == j
            &&& toks[j] == InputView::Ident("States"@)
            &&& toks[j + 1] == InputView::Punct(':', false)
            &&& lies_at(toks, j + 2, braced(states_input(m.states)))
            &&& toks.len() == j + 2 + braced(states_input(m.states)).len() + more.len()
        }),
{
    let toks = machine_input(m) + more;
    let body = states_input(m.states);
    let name = seq![InputView::Ident(m.name)];
    let p1 = m.before + labelled("Name"@);
    let p2 = p1 + name;
    let p3 = p2 + m.between;
    let p4 = p3 + labelled("States"@);
    assert(lies_at(toks, 0, p4 + braced(body)));
    lemma_lies_split(toks, 0, p4, braced(body));
    lemma_lies_split(toks, 0, p3, labelled("States"@));
    lemma_lies_split(toks, 0, p2, m.between);
    lemma_lies_split(toks, 0, p1, name);
    lemma_lies_split(toks, 0, m.before, labelled("Name"@));
    let i = m.before.len() as int;
    assert(toks[i + 0] == labelled("Name"@)[0]);
    assert(toks[i + 1] == labelled("Name"@)[1]);
    assert(toks[i + 2 + 0] == name[0]);
    let j = p3.len() as int;
    assert(toks[j + 0] == labelled("States"@)[0]);
    assert(toks[j + 1] == labelled("States"@)[1]);
    lemma_word_behind(p, toks, 0, m.before, 0, "Name"@);
    assert(find_word(p, toks, i, "Name"@) == i);
    lemma_word_behind(p, toks, i + 3, m.between, 0, "States"@);
    assert(find_word(p, toks, j, "States"@) == j);
    j
}

/// What is read behind the word that the states stand behind.
proof fn lemma_body_back(
    p: Parsers,
    toks: Seq<InputView>,
    j: int,
    states: Seq<StateInput>,
    name: Seq<char>,
)
    requires
        0 <= j && j + 3 <= toks.len(),
        toks[j] == InputView::Ident("States"@),
        (p.ident)("States"@),
        toks[j + 1] == InputView::Punct(':', false),
        lies_at(toks, j + 2, braced(states_input(states))),
        forall|k: int| 0 <= k < states.len() ==> is_state_input(p, #[trigger] states[k]),
    ensures
        read_body(p, toks, j, name) == if toks.len() == j + 2 + braced(
            states_input(states),
        ).len() {
            Ok::<DefinitionView, Failure>(
                DefinitionView {
                    fsm: FsmView {
                        name,
                        context_type: None,
                        states: states_meant(states).states,
                    },
                    blocks: states_meant(states).blocks,
                },
            )
        } else {
            Err(Failure::Trailing)
        },
{
    let body = states_input(states);
    lemma_states_whole(p, states);
    lemma_group_ends(toks, j + 2, body, toks.len() as int);
    law_input_states_read_back(p, toks, j + 3, states, no_states());
    let read = states_meant(states);
    assert(Seq::empty() + read.states =~= read.states);
    assert(Seq::empty() + read.blocks =~= read.blocks);
}

/// A machine that is written down is read back: its name, and all of its states. What stands
/// before its name, and before its states, is passed over. Where something follows the states,
/// there is an error.
pub proof fn law_input_read_back(p: Parsers, m: MachineInput, more: Seq<InputView>)
    requires
        is_machine_input(p, m),
    ensures
        definition(p, machine_input(m) + more) == if more.len() == 0 {
            Ok::<DefinitionView, Failure>(
                DefinitionView {
                    fsm: FsmView {
                        name: m.name,
                        context_type: None,
                        states: states_meant(m.states).states,
                    },
                    blocks: states_meant(m.states).blocks,
                },
            )
        } else {
            Err(Failure::Trailing)
        },
{
    let j = lemma_machine_stands(p, m, more);
    lemma_body_back(p, machine_input(m) + more, j, m.states, m.name);
}

/// The text of a token.
pub open spec fn letters_of(t: InputView) -> Seq<char> {
    match t {
        InputView::Ident(text) => text,
        InputView::Literal(text) => text,
        InputView::Punct(c, _) => seq![c],
        InputView::Open(Delim::Paren) => seq!['('],
        InputView::Open(Delim::Brace) => seq!['{'],
        InputView::Open(Delim::Bracket) => seq!['['],
        InputView::Close(Delim::Paren) => seq![')'],
        InputView::Close(Delim::Brace) => seq!['}'],
        InputView::Close(Delim::Bracket) => seq![']'],
    }
}

/// The texts of several tokens, without spaces.
pub open spec fn letters_of_all(ts: Seq<InputView>) -> Seq<char>
    decreases ts.len(),
{
    if ts.len() == 0 {
        Seq::empty()
    } else {
        letters_of_all(ts.drop_last()) + unspaced(letters_of(ts.last()))
    }
}

proof fn lemma_unspaced_join(a: Seq<char>, b: Seq<char>)
    ensures
        unspaced(a + b) == unspaced(a) + unspaced(b),
{
    Seq::filter_distributes_over_add(a, b, |c: char| c != ' ');
}

proof fn lemma_rendered_texts(ts: Seq<InputView>, n: int)
    requires
        0 <= n <= ts.len(),
    ensures
        unspaced(rendered(ts, 0, n)) == letters_of_all(ts.take(n)),
    decreases n,
{
    reveal(Seq::filter);
    let none = Seq::<char>::empty();
    assert(unspaced(none) =~= none);
    if n > 0 {
        lemma_rendered_texts(ts, n - 1);
        let part = ts.take(n);
        let text = letters_of(ts[n - 1]);
        assert(part.drop_last() =~= ts.take(n - 1));
        assert(part.last() == ts[n - 1]);
        let space = seq![' '];
        assert(space.drop_last() =~= none);
        assert(unspaced(space) =~= none);
        assert(token_text(ts[n - 1]) =~= text);
        if n == 1 {
            assert(ts.take(0) =~= Seq::<InputView>::empty());
            assert(none + unspaced(text) =~= unspaced(text));
        } else {
            let before = rendered(ts, 0, n - 1);
            lemma_unspaced_join(before + space, text);
            lemma_unspaced_join(before, space);
            lemma_unspaced_join(before, text);
            assert(unspaced(before) + none =~= unspaced(before));
        }
    } else {
        assert(rendered(ts, 0, 0) =~= none);
    }
}

/// The text of tokens holds the texts of all of them, in their order, and spaces alone between
/// them.
pub proof fn law_text_of_tokens(ts: Seq<InputView>)
    ensures
        unspaced(text_of(ts)) == letters_of_all(ts),
{
    lemma_rendered_texts(ts, ts.len() as int);
    assert(ts.take(ts.len() as int) =~= ts);
}

/// `t` is the mark `c`.
pub open spec fn is_punct(t: InputView, c: char) -> bool {
    t == InputView::Punct(c, true) || t == InputView::Punct(c, false)
}

/// No group in braces is at `s`, and no arrow.
pub open spec fn lacks_arrow(toks: Seq<InputView>, s: int, end: int) -> bool {
    &&& s < end ==> toks[s] != InputView::Open(Delim::Brace)
    &&& s + 1 < end ==> !(toks[s] == InputView::Punct('=', true) && is_punct(
        toks[s + 1],
        '>',
    ))
}

/// Where something stands behind some states that is no state, there is an error, which says
/// what is missing: a name, one that is no keyword, an arrow, or a group in braces.
pub proof fn law_faulty_state(
    p: Parsers,
    toks: Seq<InputView>,
    i: int,
    ws: Seq<StateInput>,
    end: int,
    done: ReadStates,
    name: Seq<char>,
)
    requires
        lies_at(toks, i, states_input(ws)),
        forall|k: int| 0 <= k < ws.len() ==> is_state_input(p, #[trigger] ws[k]),
        i + states_input(ws).len() < end <= toks.len(),
        ws.len() > 0 && !ws.last().comma ==> toks[i + states_input(ws).len()] is Ident,
    ensures
        ({
            let s = i + states_input(ws).len();
            let read = read_states(p, toks, i, end, done);
            let named = toks[s] == InputView::Ident(name) && (p.ident)(name);
            let arrow = s + 2 < end && toks[s + 1] == InputView::Punct('=', true) && is_punct(
                toks[s + 2],
                '>',
            );
            &&& !(toks[s] is Ident) ==> read == Err::<ReadStates, Failure>(Failure::NoIdent(false))
            &&& toks[s] == InputView::Ident(name) && !(p.ident)(name) ==> read == Err::<
                ReadStates,
                Failure,
            >(Failure::Keyword(name))
            &&& named && lacks_arrow(toks, s + 1, end) ==> read == Err::<ReadStates, Failure>(
                Failure::NoArrow,
            )
            &&& named && arrow && s + 3 >= end ==> read == Err::<ReadStates, Failure>(
                Failure::NoBraces(true),
            )
            &&& named && arrow && s + 3 < end && toks[s + 3] != InputView::Open(Delim::Brace)
                ==> read == Err::<ReadStates, Failure>(Failure::NoBraces(false))
        }),
    decreases ws.len(),
{
    let s = i + states_input(ws).len();
    if ws.len() > 0 {
        let w = ws[0];
        let more = ws.drop_first();
        assert(is_state_input(p, w));
        lemma_lies_split(toks, i, state_input(w), states_input(more));
        let next = i + state_input(w).len();
        assert(state_input(w).len() > 0);
        if more.len() > 0 {
            assert(state_input(more[0])[0] == InputView::Ident(more[0].name));
            assert(states_input(more)[0] == state_input(more[0])[0]);
            assert(toks[next + 0] == states_input(more)[0]);
            assert(more.last() == ws.last());
        } else {
            assert(w == ws.last());
            assert(s == next);
        }
        lemma_state_back(p, toks, i, w, end);
        assert forall|k: int| 0 <= k < more.len() implies is_state_input(p, #[trigger] more[k]) by {
            assert(more[k] == ws[k + 1]);
        }
        law_faulty_state(p, toks, next, more, end, with_read_state(done, read_of(w)), name);
    }
}

/// A field has a name, a colon and a type, and a block a word, a colon and an expression:
/// where one of them is missing there is an error, whatever was read before.
pub proof fn law_faulty_part(
    p: Parsers,
    toks: Seq<InputView>,
    i: int,
    end: int,
    fields: Seq<(Seq<char>, Seq<char>)>,
    blocks: ReadBlocks,
    name: Seq<char>,
    message: Seq<char>,
)
    requires
        0 <= i < end <= toks.len(),
        toks[i] == InputView::Ident(name),
        (p.ident)(name),
    ensures
        ({
            let keyed = name == "entry"@ || name == "process"@ || name == "exit"@;
            let colon = i + 1 < end && is_punct(toks[i + 1], ':');
            let text = rendered(toks, i + 2, end);
            let read = read_fields(p, toks, i, end, fields);
            let kept = read_blocks(p, toks, i, end, blocks);
            &&& !colon ==> read == Err::<Seq<(Seq<char>, Seq<char>)>, Failure>(Failure::NoColon)
            &&& !colon && keyed ==> kept == Err::<ReadBlocks, Failure>(Failure::NoColon)
            &&& colon && (p.ty)(text) == Err::<nat, Seq<char>>(message) ==> read == Err::<
                Seq<(Seq<char>, Seq<char>)>,
                Failure,
            >(Failure::Syntax(message))
            &&& colon && keyed && (p.expr)(text) == Err::<(nat, Seq<ExprStepView>), Seq<char>>(
                message,
            ) ==> kept == Err::<ReadBlocks, Failure>(Failure::Syntax(message))
        }),
{
}

/// Tokens without the word that the name stands behind, or without the one that the states
/// stand behind, are no machine.
pub proof fn law_no_definition(
    p: Parsers,
    before: Seq<InputView>,
    name: Seq<char>,
    behind: Seq<InputView>,
)
    requires
        is_whole(before),
        lacks_word(before, "Name"@),
        is_whole(behind),
        lacks_word(behind, "States"@),
        (p.ident)("Name"@),
        (p.ident)(name),
    ensures
        definition(p, before) == Err::<DefinitionView, Failure>(Failure::NoIdent(true)),
        definition(p, before + labelled("Name"@) + seq![InputView::Ident(name)] + behind) == Err::<
            DefinitionView,
            Failure,
        >(Failure::NoIdent(true)),
{
    assert(lies_at(before, 0, before));
    lemma_word_behind(p, before, 0, before, 0, "Name"@);
    assert(find_word(p, before, before.len() as int, "Name"@) == before.len());
    let one = seq![InputView::Ident(name)];
    let front = before + labelled("Name"@);
    let toks = front + one + behind;
    let i = before.len() as int;
    assert(lies_at(toks, 0, front + one + behind));
    lemma_lies_split(toks, 0, front + one, behind);
    lemma_lies_split(toks, 0, front, one);
    lemma_lies_split(toks, 0, before, labelled("Name"@));
    assert(toks[i + 0] == labelled("Name"@)[0]);
    assert(toks[i + 1] == labelled("Name"@)[1]);
    assert(toks[i + 2 + 0] == one[0]);
    lemma_word_behind(p, toks, 0, before, 0, "Name"@);
    assert(find_word(p, toks, i, "Name"@) == i);
    lemma_word_behind(p, toks, i + 3, behind, 0, "States"@);
    assert(find_word(p, toks, toks.len() as int, "States"@) == toks.len());
}

} // verus!
