//! Reading a state machine back: what is written down as tokens, and what is read of them.
use vstd::prelude::*;

use crate::macro_body::{
    at, block_end, body_fsm, call_fsm, clause_end, clause_text, context_end, first_token_tree,
    first_token_tree_of, is_key, joined, past, past_arrow, read_blocks, read_fields, read_sections,
    read_state, read_states, spaced_text, state_fields, stops, tokens_of, tokens_of_all, type_end,
    with_block, with_state, Blocks, Draft, TokenView,
};
use crate::model::{FsmView, StateView};
use crate::syntax::{source_tree, TreeView};

verus! {

/// A field as it is written down: a name and the tokens of a type.
pub struct WrittenField {
    pub name: TokenView,
    pub ty: Seq<TokenView>,
}

/// A state as it is written down: a name, fields, and the tokens of its blocks.
pub struct WrittenState {
    pub name: TokenView,
    pub fields: Option<Seq<WrittenField>>,
    /// A comma stands behind the last field.
    pub field_comma: bool,
    /// The arrow is written as two tokens.
    pub split_arrow: bool,
    pub entry: Option<Seq<TokenView>>,
    pub process: Option<Seq<TokenView>>,
    pub exit: Option<Seq<TokenView>>,
    /// A comma stands behind the first block.
    pub entry_comma: bool,
    /// A comma stands behind the second block.
    pub process_comma: bool,
    /// A comma stands behind the last block.
    pub exit_comma: bool,
    /// A comma stands behind the state.
    pub comma: bool,
}

/// A machine as it is written down.
pub struct WrittenMachine {
    pub name: TokenView,
    pub context: Option<Seq<TokenView>>,
    pub event: Option<Seq<TokenView>>,
    pub states: Seq<WrittenState>,
}

/// A mark.
pub open spec fn mark(kind: Seq<char>, text: Seq<char>) -> TokenView {
    TokenView { kind, is_punct: true, text }
}

/// A word.
pub open spec fn word(text: Seq<char>) -> TokenView {
    TokenView { kind: "IDENT"@, is_punct: false, text }
}

/// A comma.
pub open spec fn comma() -> TokenView {
    mark("COMMA"@, ","@)
}

/// A colon.
pub open spec fn colon() -> TokenView {
    mark("COLON"@, ":"@)
}

/// An opening brace.
pub open spec fn open_brace() -> TokenView {
    mark("L_CURLY"@, "{"@)
}

/// A closing brace.
pub open spec fn close_brace() -> TokenView {
    mark("R_CURLY"@, "}"@)
}

/// A comma, or nothing.
pub open spec fn comma_if(there: bool) -> Seq<TokenView> {
    if there {
        seq![comma()]
    } else {
        Seq::empty()
    }
}

/// The tokens of a field, with a comma behind it or without one.
pub open spec fn field_tokens(f: WrittenField, comma: bool) -> Seq<TokenView> {
    seq![f.name, colon()] + f.ty + comma_if(comma)
}

/// The tokens of several fields, with commas between them, and behind the last one or not.
pub open spec fn fields_tokens(fs: Seq<WrittenField>, comma: bool) -> Seq<TokenView>
    decreases fs.len(),
{
    if fs.len() == 0 {
        Seq::empty()
    } else {
        field_tokens(fs[0], comma || fs.len() > 1) + fields_tokens(fs.drop_first(), comma)
    }
}

/// The tokens of a block behind the word `key`, with a comma behind it or without one.
pub open spec fn clause_tokens(key: Seq<char>, c: Seq<TokenView>, comma: bool) -> Seq<TokenView> {
    seq![word(key), colon()] + c + comma_if(comma)
}

/// The tokens of an optional block.
pub open spec fn optional_tokens(
    key: Seq<char>,
    c: Option<Seq<TokenView>>,
    comma: bool,
) -> Seq<TokenView> {
    match c {
        Some(c) => clause_tokens(key, c, comma),
        None => Seq::empty(),
    }
}

/// The tokens between the braces of a state: its blocks, with commas behind them or not.
pub open spec fn blocks_tokens(w: WrittenState) -> Seq<TokenView> {
    optional_tokens("entry"@, w.entry, w.entry_comma) + optional_tokens(
        "process"@,
        w.process,
        w.process_comma,
    ) + optional_tokens("exit"@, w.exit, w.exit_comma)
}

/// The tokens of the fields of a state, with the braces around them.
pub open spec fn group_tokens(fields: Option<Seq<WrittenField>>, comma: bool) -> Seq<TokenView> {
    match fields {
        Some(fs) => seq![open_brace()] + fields_tokens(fs, comma) + seq![close_brace()],
        None => Seq::empty(),
    }
}

/// The tokens of an arrow.
pub open spec fn arrow_tokens(split: bool) -> Seq<TokenView> {
    if split {
        seq![mark("EQ"@, "="@), mark("R_ANGLE"@, ">"@)]
    } else {
        seq![mark("FAT_ARROW"@, "=>"@)]
    }
}

/// The tokens of a state, with a comma behind it or without one.
pub open spec fn state_tokens(w: WrittenState) -> Seq<TokenView> {
    seq![w.name] + group_tokens(w.fields, w.field_comma) + arrow_tokens(w.split_arrow) + seq![
        open_brace(),
    ] + blocks_tokens(w) + (seq![close_brace()] + comma_if(w.comma))
}

/// The tokens of several states.
pub open spec fn states_tokens(ws: Seq<WrittenState>) -> Seq<TokenView>
    decreases ws.len(),
{
    if ws.len() == 0 {
        Seq::empty()
    } else {
        state_tokens(ws[0]) + states_tokens(ws.drop_first())
    }
}

/// The tokens of the context of a machine.
pub open spec fn context_tokens(context: Option<Seq<TokenView>>) -> Seq<TokenView> {
    match context {
        Some(ty) => seq![word("Context"@), colon()] + ty + seq![comma()],
        None => Seq::empty(),
    }
}

/// The tokens of the type of the events of a machine.
pub open spec fn event_tokens(event: Option<Seq<TokenView>>) -> Seq<TokenView> {
    match event {
        Some(ty) => seq![word("Event"@), colon()] + ty + seq![comma()],
        None => Seq::empty(),
    }
}

/// The tokens of a machine, with the braces around it.
pub open spec fn machine_tokens(m: WrittenMachine) -> Seq<TokenView> {
    seq![open_brace(), word("Name"@), colon(), m.name, comma()] + context_tokens(m.context)
        + event_tokens(m.event) + seq![word("States"@), colon(), open_brace()] + states_tokens(
        m.states,
    ) + seq![close_brace(), close_brace()]
}

/// The texts of several tokens, one behind the other.
pub open spec fn texts(ts: Seq<TokenView>) -> Seq<char>
    decreases ts.len(),
{
    if ts.len() == 0 {
        Seq::empty()
    } else {
        texts(ts.drop_last()) + ts.last().text
    }
}

/// Whether a space stands before the last of `ts`: neither it nor the one before is a mark.
pub open spec fn gap_before_last(ts: Seq<TokenView>) -> Seq<char> {
    if ts.len() >= 2 && !ts[ts.len() - 2].is_punct && !ts.last().is_punct {
        seq![' ']
    } else {
        Seq::empty()
    }
}

/// The texts of several tokens, with a space between two that are no marks.
pub open spec fn sentence(ts: Seq<TokenView>) -> Seq<char>
    decreases ts.len(),
{
    if ts.len() == 0 {
        Seq::empty()
    } else {
        sentence(ts.drop_last()) + gap_before_last(ts) + ts.last().text
    }
}

/// How many braces are open behind the first `n` of `ts`.
pub open spec fn braces_open(ts: Seq<TokenView>, n: int) -> int
    decreases n,
{
    if n <= 0 {
        0
    } else if ts[n - 1].kind == "L_CURLY"@ {
        braces_open(ts, n - 1) + 1
    } else if ts[n - 1].kind == "R_CURLY"@ {
        braces_open(ts, n - 1) - 1
    } else {
        braces_open(ts, n - 1)
    }
}

/// Every brace in `ts` is closed, and none closes that was not opened.
pub open spec fn is_level(ts: Seq<TokenView>) -> bool {
    &&& forall|n: int| 0 <= n <= ts.len() ==> #[trigger] braces_open(ts, n) >= 0
    &&& braces_open(ts, ts.len() as int) == 0
}

/// A bracket of any kind that opens.
pub open spec fn is_opening(t: TokenView) -> bool {
    t.kind == "L_CURLY"@ || t.kind == "L_PAREN"@ || t.kind == "L_BRACK"@
}

/// A bracket of any kind that closes.
pub open spec fn is_closing(t: TokenView) -> bool {
    t.kind == "R_CURLY"@ || t.kind == "R_PAREN"@ || t.kind == "R_BRACK"@
}

/// How many brackets of any kind are open behind the first `n` of `ts`.
pub open spec fn brackets_open(ts: Seq<TokenView>, n: int) -> int
    decreases n,
{
    if n <= 0 {
        0
    } else if is_opening(ts[n - 1]) {
        brackets_open(ts, n - 1) + 1
    } else if is_closing(ts[n - 1]) {
        brackets_open(ts, n - 1) - 1
    } else {
        brackets_open(ts, n - 1)
    }
}

/// How many bars stand among the first `n` of `ts`.
pub open spec fn bars(ts: Seq<TokenView>, n: int) -> int
    decreases n,
{
    if n <= 0 {
        0
    } else if ts[n - 1].kind == "PIPE"@ {
        bars(ts, n - 1) + 1
    } else {
        bars(ts, n - 1)
    }
}

/// The first `n` of `ts` leave neither a bracket nor the parameters of a closure open.
pub open spec fn is_outside(ts: Seq<TokenView>, n: int) -> bool {
    brackets_open(ts, n) == 0 && bars(ts, n) != 1
}

/// A comma, or a word that starts a block, with its colon.
pub open spec fn is_end_mark(ts: Seq<TokenView>, n: int) -> bool {
    ||| ts[n].kind == "COMMA"@
    ||| n + 1 < ts.len() && ts[n + 1].kind == "COLON"@ && (ts[n].text == "entry"@ || ts[n].text
        == "process"@ || ts[n].text == "exit"@)
}

/// `ts` can be a block: its brackets are in order, and no comma and no start of another block
/// stands in it outside of brackets and of the parameters of a closure.
pub open spec fn is_clause(ts: Seq<TokenView>) -> bool {
    &&& is_level(ts)
    &&& is_outside(ts, ts.len() as int)
    &&& forall|n: int| 0 <= n < ts.len() && #[trigger] is_outside(ts, n) ==> !is_end_mark(ts, n)
}

/// An optional block can be one.
pub open spec fn is_optional_clause(c: Option<Seq<TokenView>>) -> bool {
    c matches Some(c) ==> is_clause(c)
}

/// `f` can be a field: its type holds neither a comma nor a closing brace.
pub open spec fn is_field(f: WrittenField) -> bool {
    &&& f.name.kind != "R_CURLY"@
    &&& forall|k: int|
        0 <= k < f.ty.len() ==> (#[trigger] f.ty[k]).kind != "COMMA"@ && f.ty[k].kind
            != "R_CURLY"@
}

/// `w` can be a state.
pub open spec fn is_state(w: WrittenState) -> bool {
    &&& w.name.kind != "R_CURLY"@ && w.name.kind != "COMMA"@
    &&& w.fields matches Some(fs) ==> forall|k: int|
        0 <= k < fs.len() ==> is_field(#[trigger] fs[k])
    &&& is_optional_clause(w.entry)
    &&& is_optional_clause(w.process)
    &&& is_optional_clause(w.exit)
}

/// The field that is written down as `f`.
pub open spec fn field_of(f: WrittenField) -> (Seq<char>, Seq<char>) {
    (f.name.text, texts(f.ty))
}

/// The fields that are written down.
pub open spec fn fields_of(fields: Option<Seq<WrittenField>>) -> Seq<(Seq<char>, Seq<char>)> {
    match fields {
        Some(fs) => fs.map_values(|f: WrittenField| field_of(f)),
        None => Seq::empty(),
    }
}

/// The text of a block. Where the word of the next block follows it directly, and its last
/// token is no mark, a space ends it.
pub open spec fn block_text(c: Seq<TokenView>, word_follows: bool) -> Seq<char> {
    if word_follows && c.len() > 0 && !c.last().is_punct {
        sentence(c).push(' ')
    } else {
        sentence(c)
    }
}

/// The text of an optional block.
pub open spec fn clause_of(c: Option<Seq<TokenView>>, word_follows: bool) -> Option<Seq<char>> {
    match c {
        Some(c) => Some(block_text(c, word_follows)),
        None => None,
    }
}

/// Another block follows the first one directly.
pub open spec fn word_follows_entry(w: WrittenState) -> bool {
    !w.entry_comma && (w.process is Some || w.exit is Some)
}

/// Another block follows the second one directly.
pub open spec fn word_follows_process(w: WrittenState) -> bool {
    !w.process_comma && w.exit is Some
}

/// The state that is written down as `w`.
pub open spec fn state_of(w: WrittenState) -> StateView {
    StateView {
        name: w.name.text,
        fields: fields_of(w.fields),
        entry_block: clause_of(w.entry, word_follows_entry(w)),
        process_block: clause_of(w.process, word_follows_process(w))->0,
        exit_block: clause_of(w.exit, false),
    }
}

/// The states that are written down: all those that have a block for events.
pub open spec fn states_of(ws: Seq<WrittenState>) -> Seq<StateView>
    decreases ws.len(),
{
    if ws.len() == 0 {
        Seq::empty()
    } else if ws[0].process is Some {
        seq![state_of(ws[0])] + states_of(ws.drop_first())
    } else {
        states_of(ws.drop_first())
    }
}

/// `piece` stands in `toks` at `i`.
pub open spec fn runs_at(toks: Seq<TokenView>, i: int, piece: Seq<TokenView>) -> bool {
    &&& 0 <= i
    &&& i + piece.len() <= toks.len()
    &&& forall|k: int| 0 <= k < piece.len() ==> toks[i + k] == #[trigger] piece[k]
}

proof fn lemma_runs_split(toks: Seq<TokenView>, i: int, a: Seq<TokenView>, b: Seq<TokenView>)
    requires
        runs_at(toks, i, a + b),
    ensures
        runs_at(toks, i, a),
        runs_at(toks, i + a.len(), b),
{
    let all = a + b;
    assert forall|k: int| 0 <= k < a.len() implies toks[i + k] == #[trigger] a[k] by {
        assert(all[k] == a[k]);
    }
    assert forall|k: int| 0 <= k < b.len() implies toks[i + a.len() + k] == #[trigger] b[k] by {
        assert(all[a.len() + k] == b[k]);
    }
}

/// The kinds of tokens that are told apart differ.
proof fn lemma_token_kinds()
    ensures
        "COMMA"@ != "COLON"@,
        "COMMA"@ != "L_CURLY"@,
        "COMMA"@ != "R_CURLY"@,
        "COMMA"@ != "L_PAREN"@,
        "COMMA"@ != "R_PAREN"@,
        "COMMA"@ != "L_BRACK"@,
        "COMMA"@ != "R_BRACK"@,
        "COMMA"@ != "PIPE"@,
        "PIPE"@ != "L_CURLY"@,
        "PIPE"@ != "R_CURLY"@,
        "PIPE"@ != "L_PAREN"@,
        "PIPE"@ != "R_PAREN"@,
        "PIPE"@ != "L_BRACK"@,
        "PIPE"@ != "R_BRACK"@,
        "COLON"@ != "L_CURLY"@,
        "COLON"@ != "R_CURLY"@,
        "L_CURLY"@ != "R_CURLY"@,
        "IDENT"@ != "COMMA"@,
        "IDENT"@ != "COLON"@,
        "IDENT"@ != "L_CURLY"@,
        "IDENT"@ != "R_CURLY"@,
        "IDENT"@ != "L_PAREN"@,
        "IDENT"@ != "R_PAREN"@,
        "IDENT"@ != "L_BRACK"@,
        "IDENT"@ != "R_BRACK"@,
        "IDENT"@ != "PIPE"@,
        "FAT_ARROW"@ != "L_CURLY"@,
        "FAT_ARROW"@ != "COLON"@,
        "EQ"@ != "FAT_ARROW"@,
        "EQ"@ != "L_CURLY"@,
        "EQ"@ != "COLON"@,
{
    reveal_strlit("COMMA");
    reveal_strlit("COLON");
    reveal_strlit("L_CURLY");
    reveal_strlit("R_CURLY");
    reveal_strlit("L_PAREN");
    reveal_strlit("R_PAREN");
    reveal_strlit("L_BRACK");
    reveal_strlit("R_BRACK");
    reveal_strlit("PIPE");
    reveal_strlit("IDENT");
    reveal_strlit("FAT_ARROW");
    reveal_strlit("EQ");
    assert("COMMA"@[2] == 'M' && "COLON"@[2] == 'L');
    assert("L_CURLY"@[0] == 'L' && "R_CURLY"@[0] == 'R');
    assert("COMMA"@.len() == 5 && "COLON"@.len() == 5 && "L_CURLY"@.len() == 7);
    assert("R_CURLY"@.len() == 7 && "L_PAREN"@.len() == 7 && "R_PAREN"@.len() == 7);
    assert("L_BRACK"@.len() == 7 && "R_BRACK"@.len() == 7 && "PIPE"@.len() == 4);
    assert("IDENT"@.len() == 5 && "IDENT"@[0] == 'I' && "COMMA"@[0] == 'C' && "COLON"@[0] == 'C');
    assert("FAT_ARROW"@.len() == 9 && "EQ"@.len() == 2);
}

/// The words that are told apart differ.
proof fn lemma_words()
    ensures
        "entry"@ != "process"@,
        "entry"@ != "exit"@,
        "process"@ != "exit"@,
        "Name"@ != "Context"@,
        "Name"@ != "States"@,
        "Context"@ != "States"@,
        "Event"@ != "Name"@,
        "Event"@ != "Context"@,
        "Event"@ != "States"@,
        ","@ != "Name"@,
        ","@ != "Context"@,
        ","@ != "States"@,
        ":"@ != "Name"@,
        ":"@ != "Context"@,
        ":"@ != "States"@,
{
    reveal_strlit("Event");
    reveal_strlit(",");
    reveal_strlit(":");
    assert("Event"@.len() == 5 && ","@.len() == 1 && ":"@.len() == 1);
    reveal_strlit("entry");
    reveal_strlit("process");
    reveal_strlit("exit");
    reveal_strlit("Name");
    reveal_strlit("Context");
    reveal_strlit("States");
    assert("entry"@.len() == 5 && "process"@.len() == 7 && "exit"@.len() == 4);
    assert("Name"@.len() == 4 && "Context"@.len() == 7 && "States"@.len() == 6);
}

proof fn lemma_joined(toks: Seq<TokenView>, i: int, ts: Seq<TokenView>, n: int)
    requires
        runs_at(toks, i, ts),
        0 <= n <= ts.len(),
    ensures
        joined(toks, i, i + n) == texts(ts.take(n)),
    decreases n,
{
    if n > 0 {
        lemma_joined(toks, i, ts, n - 1);
        assert(ts.take(n).drop_last() =~= ts.take(n - 1));
        assert(toks[i + (n - 1)] == ts[n - 1]);
    }
}

proof fn lemma_type(toks: Seq<TokenView>, i: int, ty: Seq<TokenView>, n: int)
    requires
        runs_at(toks, i, ty),
        0 <= n <= ty.len(),
        forall|k: int|
            0 <= k < ty.len() ==> (#[trigger] ty[k]).kind != "COMMA"@ && ty[k].kind != "R_CURLY"@,
        at(toks, i + ty.len(), "COMMA"@) || at(toks, i + ty.len(), "R_CURLY"@),
    ensures
        type_end(toks, i + n) == i + ty.len(),
    decreases ty.len() - n,
{
    if n < ty.len() {
        assert(toks[i + n] == ty[n]);
        lemma_type(toks, i, ty, n + 1);
    }
}

proof fn lemma_fields(
    toks: Seq<TokenView>,
    i: int,
    fs: Seq<WrittenField>,
    last: bool,
    done: Seq<(Seq<char>, Seq<char>)>,
)
    requires
        runs_at(toks, i, fields_tokens(fs, last)),
        at(toks, i + fields_tokens(fs, last).len(), "R_CURLY"@),
        forall|k: int| 0 <= k < fs.len() ==> is_field(#[trigger] fs[k]),
    ensures
        read_fields(toks, i, done) == (
            done + fields_of(Some(fs)),
            i + fields_tokens(fs, last).len(),
        ),
    decreases fs.len(),
{
    lemma_token_kinds();
    if fs.len() == 0 {
        assert(done + fields_of(Some(fs)) =~= done);
    } else {
        let f = fs[0];
        let rest = fs.drop_first();
        let with_comma = last || fs.len() > 1;
        assert(is_field(f));
        lemma_runs_split(toks, i, field_tokens(f, with_comma), fields_tokens(rest, last));
        lemma_runs_split(toks, i, seq![f.name, colon()] + f.ty, comma_if(with_comma));
        lemma_runs_split(toks, i, seq![f.name, colon()], f.ty);
        assert(toks[i + 0] == seq![f.name, colon()][0]);
        assert(toks[i + 1] == seq![f.name, colon()][1]);
        let end = i + 2 + f.ty.len();
        if with_comma {
            assert(toks[end + 0] == comma_if(with_comma)[0]);
        }
        lemma_type(toks, i + 2, f.ty, 0);
        lemma_joined(toks, i + 2, f.ty, f.ty.len() as int);
        assert(f.ty.take(f.ty.len() as int) =~= f.ty);
        assert forall|k: int| 0 <= k < rest.len() implies is_field(#[trigger] rest[k]) by {
            assert(rest[k] == fs[k + 1]);
        }
        let more = done.push(field_of(f));
        let next = i + field_tokens(f, with_comma).len();
        assert(past(toks, end, "COMMA"@) == next);
        lemma_fields(toks, next, rest, last, more);
        assert(more + fields_of(Some(rest)) =~= done + fields_of(Some(fs)));
    }
}

proof fn lemma_braces_walk(toks: Seq<TokenView>, i: int, ts: Seq<TokenView>, n: int)
    requires
        runs_at(toks, i, ts),
        0 <= n <= ts.len(),
        is_level(ts),
    ensures
        block_end(toks, i, 1) == block_end(toks, i + n, 1 + braces_open(ts, n)),
    decreases n,
{
    if n > 0 {
        lemma_braces_walk(toks, i, ts, n - 1);
        assert(toks[i + (n - 1)] == ts[n - 1]);
        assert(braces_open(ts, n) >= 0 && braces_open(ts, n - 1) >= 0);
    }
}

proof fn lemma_braces_front(a: Seq<TokenView>, b: Seq<TokenView>, n: int)
    requires
        0 <= n <= a.len(),
    ensures
        braces_open(a + b, n) == braces_open(a, n),
    decreases n,
{
    if n > 0 {
        lemma_braces_front(a, b, n - 1);
    }
}

proof fn lemma_braces_back(a: Seq<TokenView>, b: Seq<TokenView>, n: int)
    requires
        0 <= n <= b.len(),
    ensures
        braces_open(a + b, a.len() + n) == braces_open(a, a.len() as int) + braces_open(b, n),
    decreases n,
{
    if n > 0 {
        lemma_braces_back(a, b, n - 1);
        assert((a + b)[a.len() + n - 1] == b[n - 1]);
    } else {
        lemma_braces_front(a, b, a.len() as int);
    }
}

proof fn lemma_level_join(a: Seq<TokenView>, b: Seq<TokenView>)
    requires
        is_level(a),
        is_level(b),
    ensures
        is_level(a + b),
{
    let all = a + b;
    assert forall|n: int| 0 <= n <= all.len() implies #[trigger] braces_open(all, n) >= 0 by {
        if n <= a.len() {
            lemma_braces_front(a, b, n);
            assert(braces_open(a, n) >= 0);
        } else {
            lemma_braces_back(a, b, n - a.len());
            assert(braces_open(b, n - a.len()) >= 0);
        }
    }
    lemma_braces_back(a, b, b.len() as int);
}

proof fn lemma_clause_level(key: Seq<char>, c: Option<Seq<TokenView>>, comma: bool)
    requires
        is_optional_clause(c),
    ensures
        is_level(optional_tokens(key, c, comma)),
{
    lemma_token_kinds();
    reveal_with_fuel(braces_open, 3);
    match c {
        Some(c) => {
            let head = seq![word(key), colon()];
            let tail = comma_if(comma);
            assert(is_level(head)) by {
                assert forall|n: int| 0 <= n <= head.len() implies #[trigger] braces_open(
                    head,
                    n,
                ) >= 0 by {
                    assert(n == 0 || n == 1 || n == 2);
                }
            }
            assert(is_level(tail)) by {
                assert forall|n: int| 0 <= n <= tail.len() implies #[trigger] braces_open(
                    tail,
                    n,
                ) >= 0 by {
                    assert(n == 0 || n == 1);
                }
            }
            lemma_level_join(head, c);
            lemma_level_join(head + c, tail);
        },
        None => {},
    }
}

/// A word that starts a block stands at `i`, with its colon.
spec fn key_stands(toks: Seq<TokenView>, i: int, end: int) -> bool {
    &&& 0 <= i
    &&& i + 1 < end <= toks.len()
    &&& toks[i].kind == "IDENT"@ && !toks[i].is_punct && is_key(toks[i].text)
    &&& toks[i + 1].kind == "COLON"@
}

/// A block that reaches to `i` stops there: at the end, at a comma, or before the next block.
spec fn clause_stops(toks: Seq<TokenView>, i: int, end: int) -> bool {
    &&& i <= end <= toks.len()
    &&& i < end ==> toks[i] == comma() || key_stands(toks, i, end)
}

proof fn lemma_clause_walk(toks: Seq<TokenView>, i: int, c: Seq<TokenView>, end: int, n: int)
    requires
        runs_at(toks, i, c),
        0 <= n <= c.len(),
        is_clause(c),
        clause_stops(toks, i + c.len(), end),
    ensures
        clause_end(toks, i, end, 0, 0) == clause_end(
            toks,
            i + n,
            end,
            brackets_open(c, n),
            bars(c, n),
        ),
        bars(c, n) >= 0,
    decreases n,
{
    lemma_token_kinds();
    if n > 0 {
        let m = n - 1;
        lemma_clause_walk(toks, i, c, end, m);
        assert(toks[i + m] == c[m]);
        if m + 1 < c.len() {
            assert(toks[i + (m + 1)] == c[m + 1]);
        }
        let depth = brackets_open(c, m);
        let pipes = bars(c, m);
        if stops(toks, i + m, end, depth, pipes) {
            assert(is_outside(c, m));
            assert(is_end_mark(c, m));
        }
    }
}

proof fn lemma_clause_end_found(toks: Seq<TokenView>, i: int, c: Seq<TokenView>, end: int)
    requires
        runs_at(toks, i, c),
        is_clause(c),
        clause_stops(toks, i + c.len(), end),
    ensures
        clause_end(toks, i, end, 0, 0) == i + c.len(),
{
    lemma_token_kinds();
    lemma_clause_walk(toks, i, c, end, c.len() as int);
    assert(is_outside(c, c.len() as int));
}

/// The space behind the first `n` of `c`, where another token follows that is no mark.
spec fn gap_behind(toks: Seq<TokenView>, i: int, c: Seq<TokenView>, end: int, n: int) -> Seq<
    char,
> {
    if 0 < n && i + n < end && !c[n - 1].is_punct && !toks[i + n].is_punct {
        seq![' ']
    } else {
        Seq::empty()
    }
}

proof fn lemma_clause_text(toks: Seq<TokenView>, i: int, c: Seq<TokenView>, end: int, n: int)
    requires
        runs_at(toks, i, c),
        0 <= n <= c.len(),
        clause_stops(toks, i + c.len(), end),
    ensures
        clause_text(toks, i, i + n, end) == sentence(c.take(n)) + gap_behind(toks, i, c, end, n),
    decreases n,
{
    if n > 0 {
        lemma_clause_text(toks, i, c, end, n - 1);
        let part = c.take(n);
        assert(part.drop_last() =~= c.take(n - 1));
        assert(toks[i + (n - 1)] == c[n - 1]);
        assert(gap_before_last(part) =~= gap_behind(toks, i, c, end, n - 1));
        assert(spaced_text(toks, i + n - 1, end) =~= c[n - 1].text + gap_behind(
            toks,
            i,
            c,
            end,
            n,
        ));
        let a = sentence(c.take(n - 1));
        let b = gap_before_last(part);
        let d = c[n - 1].text;
        let e = gap_behind(toks, i, c, end, n);
        assert(a + b + (d + e) =~= (a + b + d) + e);
    } else {
        assert(sentence(c.take(0)) + gap_behind(toks, i, c, end, 0) =~= Seq::<char>::empty());
    }
}

/// A block is read, and reading goes on behind it.
proof fn lemma_read_clause(
    toks: Seq<TokenView>,
    i: int,
    end: int,
    key: Seq<char>,
    c: Option<Seq<TokenView>>,
    comma: bool,
    blocks: Blocks,
)
    requires
        runs_at(toks, i, optional_tokens(key, c, comma)),
        i + optional_tokens(key, c, comma).len() <= end <= toks.len(),
        c is Some && !comma && i + optional_tokens(key, c, comma).len() < end ==> key_stands(
            toks,
            i + optional_tokens(key, c, comma).len(),
            end,
        ),
        is_optional_clause(c),
        is_key(key),
    ensures
        read_blocks(toks, i, end, blocks) == read_blocks(
            toks,
            i + optional_tokens(key, c, comma).len(),
            end,
            match c {
                Some(c) => with_block(
                    blocks,
                    key,
                    block_text(c, !comma && i + clause_tokens(key, c, comma).len() < end),
                ),
                None => blocks,
            },
        ),
{
    lemma_token_kinds();
    match c {
        Some(c) => {
            let head = seq![word(key), colon()];
            lemma_runs_split(toks, i, head + c, comma_if(comma));
            lemma_runs_split(toks, i, head, c);
            assert(toks[i + 0] == head[0]);
            assert(toks[i + 1] == head[1]);
            let to = i + 2 + c.len();
            if comma {
                assert(toks[to + 0] == comma_if(comma)[0]);
            }
            lemma_clause_end_found(toks, i + 2, c, end);
            lemma_clause_text(toks, i + 2, c, end, c.len() as int);
            assert(c.take(c.len() as int) =~= c);
            assert(clause_text(toks, i + 2, to, end) =~= block_text(c, !comma && to < end));
        },
        None => {},
    }
}

proof fn lemma_group(
    toks: Seq<TokenView>,
    i: int,
    fields: Option<Seq<WrittenField>>,
    comma: bool,
)
    requires
        runs_at(toks, i, group_tokens(fields, comma)),
        fields is None ==> !at(toks, i, "L_CURLY"@),
        fields matches Some(fs) ==> forall|k: int|
            0 <= k < fs.len() ==> is_field(#[trigger] fs[k]),
    ensures
        state_fields(toks, i) == (fields_of(fields), i + group_tokens(fields, comma).len()),
{
    match fields {
        Some(fs) => {
            let inner = seq![open_brace()] + fields_tokens(fs, comma);
            lemma_runs_split(toks, i, inner, seq![close_brace()]);
            lemma_runs_split(toks, i, seq![open_brace()], fields_tokens(fs, comma));
            assert(toks[i + 0] == seq![open_brace()][0]);
            let close = i + inner.len();
            assert(toks[close + 0] == seq![close_brace()][0]);
            lemma_fields(toks, i + 1, fs, comma, Seq::empty());
            assert(Seq::empty() + fields_of(fields) =~= fields_of(fields));
        },
        None => {},
    }
}

proof fn lemma_arrow(toks: Seq<TokenView>, i: int, split: bool)
    requires
        runs_at(toks, i, arrow_tokens(split)),
    ensures
        past_arrow(toks, i) == i + arrow_tokens(split).len(),
        !at(toks, i, "L_CURLY"@),
{
    lemma_token_kinds();
    let arrow = arrow_tokens(split);
    assert(toks[i + 0] == arrow[0]);
    if split {
        assert(toks[i + 1] == arrow[1]);
    }
}

/// The blocks that are written down in `w`.
spec fn blocks_of(w: WrittenState) -> Blocks {
    Blocks {
        entry_block: clause_of(w.entry, word_follows_entry(w)),
        process_block: clause_of(w.process, word_follows_process(w)),
        exit_block: clause_of(w.exit, false),
    }
}

proof fn lemma_body_end(toks: Seq<TokenView>, start: int, w: WrittenState)
    requires
        0 <= start,
        at(toks, start, "L_CURLY"@),
        runs_at(toks, start + 1, blocks_tokens(w)),
        at(toks, start + 1 + blocks_tokens(w).len(), "R_CURLY"@),
        is_state(w),
    ensures
        block_end(toks, start, 0) == start + 1 + blocks_tokens(w).len(),
{
    lemma_token_kinds();
    let body = blocks_tokens(w);
    let a = optional_tokens("entry"@, w.entry, w.entry_comma);
    let b = optional_tokens("process"@, w.process, w.process_comma);
    let c = optional_tokens("exit"@, w.exit, w.exit_comma);
    lemma_clause_level("entry"@, w.entry, w.entry_comma);
    lemma_clause_level("process"@, w.process, w.process_comma);
    lemma_clause_level("exit"@, w.exit, w.exit_comma);
    lemma_level_join(a, b);
    lemma_level_join(a + b, c);
    lemma_braces_walk(toks, start + 1, body, body.len() as int);
}

proof fn lemma_body(toks: Seq<TokenView>, i: int, w: WrittenState)
    requires
        runs_at(toks, i, blocks_tokens(w)),
        is_state(w),
    ensures
        read_blocks(
            toks,
            i,
            i + blocks_tokens(w).len(),
            Blocks { entry_block: None, process_block: None, exit_block: None },
        ) == blocks_of(w),
{
    lemma_words();
    let end = i + blocks_tokens(w).len();
    let a = optional_tokens("entry"@, w.entry, w.entry_comma);
    let b = optional_tokens("process"@, w.process, w.process_comma);
    let c = optional_tokens("exit"@, w.exit, w.exit_comma);
    lemma_runs_split(toks, i, a + b, c);
    lemma_runs_split(toks, i, a, b);
    let none = Blocks { entry_block: None, process_block: None, exit_block: None };
    let one = match w.entry {
        Some(t) => with_block(none, "entry"@, block_text(t, word_follows_entry(w))),
        None => none,
    };
    let two = match w.process {
        Some(t) => with_block(one, "process"@, block_text(t, word_follows_process(w))),
        None => one,
    };
    let second = i + a.len();
    let third = i + a.len() + b.len();
    if w.exit is Some {
        lemma_key_stands(toks, third, end, "exit"@, w.exit, w.exit_comma);
    }
    if w.process is Some {
        lemma_key_stands(toks, second, end, "process"@, w.process, w.process_comma);
    }
    lemma_read_clause(toks, i, end, "entry"@, w.entry, w.entry_comma, none);
    lemma_read_clause(toks, second, end, "process"@, w.process, w.process_comma, one);
    lemma_read_clause(toks, third, end, "exit"@, w.exit, w.exit_comma, two);
}

/// A block starts with its word and a colon.
proof fn lemma_key_stands(
    toks: Seq<TokenView>,
    i: int,
    end: int,
    key: Seq<char>,
    c: Option<Seq<TokenView>>,
    comma: bool,
)
    requires
        runs_at(toks, i, optional_tokens(key, c, comma)),
        i + optional_tokens(key, c, comma).len() <= end <= toks.len(),
        c is Some,
        is_key(key),
    ensures
        key_stands(toks, i, end),
{
    let piece = optional_tokens(key, c, comma);
    assert(piece[0] == word(key) && piece[1] == colon());
    assert(toks[i + 0] == piece[0] && toks[i + 1] == piece[1]);
}

proof fn lemma_state(toks: Seq<TokenView>, i: int, w: WrittenState)
    requires
        runs_at(toks, i, state_tokens(w)),
        is_state(w),
        w.comma || !at(toks, i + state_tokens(w).len(), "COMMA"@),
    ensures
        read_state(toks, i).1 == i + state_tokens(w).len(),
        read_state(toks, i).0 == if w.process is Some {
            Some(state_of(w))
        } else {
            None
        },
{
    let group = group_tokens(w.fields, w.field_comma);
    let arrow = arrow_tokens(w.split_arrow);
    let body = blocks_tokens(w);
    let tail = seq![close_brace()] + comma_if(w.comma);
    let p1 = seq![w.name];
    let p2 = p1 + group;
    let p3 = p2 + arrow;
    let p4 = p3 + seq![open_brace()];
    let p5 = p4 + body;
    lemma_runs_split(toks, i, p5, tail);
    lemma_runs_split(toks, i, p4, body);
    lemma_runs_split(toks, i, p3, seq![open_brace()]);
    lemma_runs_split(toks, i, p2, arrow);
    lemma_runs_split(toks, i, p1, group);
    assert(toks[i + 0] == p1[0]);
    let j = i + p2.len();
    let start = i + p3.len();
    let end = i + p5.len();
    assert(toks[start + 0] == seq![open_brace()][0]);
    lemma_runs_split(toks, end, seq![close_brace()], comma_if(w.comma));
    assert(toks[end + 0] == tail[0]);
    if w.comma {
        assert(toks[end + 1] == tail[1]);
    }
    lemma_arrow(toks, j, w.split_arrow);
    lemma_group(toks, i + 1, w.fields, w.field_comma);
    lemma_body_end(toks, start, w);
    lemma_body(toks, start + 1, w);
}

/// However many states are written down one after the other, all those that have a block for
/// events are read, in their order, with their fields and their blocks, behind the states that
/// were there before.
pub proof fn law_states_read_back(
    toks: Seq<TokenView>,
    i: int,
    ws: Seq<WrittenState>,
    done: Seq<StateView>,
)
    requires
        runs_at(toks, i, states_tokens(ws)),
        at(toks, i + states_tokens(ws).len(), "R_CURLY"@),
        forall|k: int| 0 <= k < ws.len() ==> is_state(#[trigger] ws[k]),
    ensures
        read_states(toks, i, done) == (done + states_of(ws), i + states_tokens(ws).len()),
    decreases ws.len(),
{
    if ws.len() == 0 {
        assert(done + states_of(ws) =~= done);
    } else {
        let w = ws[0];
        let rest = ws.drop_first();
        assert(is_state(w));
        lemma_runs_split(toks, i, state_tokens(w), states_tokens(rest));
        assert(state_tokens(w)[0] == w.name);
        assert(toks[i + 0] == state_tokens(w)[0]);
        let next = i + state_tokens(w).len();
        if rest.len() > 0 {
            assert(rest[0] == ws[1]);
            assert(is_state(ws[1]));
            assert(states_tokens(rest)[0] == state_tokens(rest[0])[0]);
            assert(state_tokens(rest[0])[0] == rest[0].name);
            assert(toks[next + 0] == states_tokens(rest)[0]);
        }
        lemma_token_kinds();
        lemma_state(toks, i, w);
        assert forall|k: int| 0 <= k < rest.len() implies is_state(#[trigger] rest[k]) by {
            assert(rest[k] == ws[k + 1]);
        }
        let more = if w.process is Some {
            done.push(state_of(w))
        } else {
            done
        };
        assert(with_state(done, read_state(toks, i).0) == more);
        law_states_read_back(toks, i + state_tokens(w).len(), rest, more);
        assert(more + states_of(rest) =~= done + states_of(ws));
    }
}

/// `ty` can be the type of a context: it holds no comma, and no name of another section.
pub open spec fn is_context_type(ty: Seq<TokenView>) -> bool {
    forall|k: int|
        0 <= k < ty.len() ==> (#[trigger] ty[k]).kind != "COMMA"@ && ty[k].text != "Event"@
            && ty[k].text != "States"@
}

proof fn lemma_context(toks: Seq<TokenView>, i: int, ty: Seq<TokenView>, n: int)
    requires
        runs_at(toks, i, ty),
        0 <= n <= ty.len(),
        is_context_type(ty),
        at(toks, i + ty.len(), "COMMA"@),
    ensures
        context_end(toks, i + n) == i + ty.len(),
    decreases ty.len() - n,
{
    if n < ty.len() {
        assert(toks[i + n] == ty[n]);
        lemma_context(toks, i, ty, n + 1);
    }
}

proof fn lemma_name_section(toks: Seq<TokenView>, i: int, name: TokenView, d: Draft)
    requires
        runs_at(toks, i, seq![word("Name"@), colon(), name]),
    ensures
        read_sections(toks, i, d) == read_sections(
            toks,
            i + 3,
            Draft { name: Some(name.text), ..d },
        ),
{
    lemma_token_kinds();
    let piece = seq![word("Name"@), colon(), name];
    assert(toks[i + 0] == piece[0] && toks[i + 1] == piece[1] && toks[i + 2] == piece[2]);
}

proof fn lemma_context_section(toks: Seq<TokenView>, i: int, ty: Seq<TokenView>, d: Draft)
    requires
        runs_at(toks, i, context_tokens(Some(ty))),
        is_context_type(ty),
    ensures
        read_sections(toks, i, d) == read_sections(
            toks,
            i + 2 + ty.len(),
            Draft { context_type: Some(texts(ty)), ..d },
        ),
        toks[i + 2 + ty.len()] == comma(),
{
    lemma_token_kinds();
    lemma_words();
    let first = seq![word("Context"@), colon()];
    lemma_runs_split(toks, i, first + ty, seq![comma()]);
    lemma_runs_split(toks, i, first, ty);
    assert(toks[i + 0] == first[0] && toks[i + 1] == first[1]);
    let close = i + 2 + ty.len();
    assert(toks[close + 0] == seq![comma()][0]);
    lemma_context(toks, i + 2, ty, 0);
    lemma_joined(toks, i + 2, ty, ty.len() as int);
    assert(ty.take(ty.len() as int) =~= ty);
}

proof fn lemma_states_section(toks: Seq<TokenView>, i: int, ws: Seq<WrittenState>, d: Draft)
    requires
        runs_at(
            toks,
            i,
            seq![word("States"@), colon(), open_brace()] + states_tokens(ws) + seq![close_brace()],
        ),
        forall|k: int| 0 <= k < ws.len() ==> is_state(#[trigger] ws[k]),
    ensures
        read_sections(toks, i, d) == read_sections(
            toks,
            i + 3 + states_tokens(ws).len() + 1,
            Draft { states: d.states + states_of(ws), ..d },
        ),
{
    lemma_token_kinds();
    lemma_words();
    let open = seq![word("States"@), colon(), open_brace()];
    lemma_runs_split(toks, i, open + states_tokens(ws), seq![close_brace()]);
    lemma_runs_split(toks, i, open, states_tokens(ws));
    assert(toks[i + 0] == open[0] && toks[i + 1] == open[1] && toks[i + 2] == open[2]);
    let end = i + 3 + states_tokens(ws).len();
    assert(toks[end + 0] == seq![close_brace()][0]);
    law_states_read_back(toks, i + 3, ws, d.states);
}

/// The tokens of a machine, section by section.
spec fn sections_tokens(m: WrittenMachine) -> Seq<TokenView> {
    seq![open_brace()] + seq![word("Name"@), colon(), m.name] + seq![comma()] + context_tokens(
        m.context,
    ) + event_tokens(m.event) + (seq![word("States"@), colon(), open_brace()] + states_tokens(
        m.states,
    ) + seq![
        close_brace(),
    ]) + seq![close_brace()]
}

proof fn lemma_machine_tokens(m: WrittenMachine)
    ensures
        runs_at(machine_tokens(m), 0, sections_tokens(m)),
        machine_tokens(m).len() == sections_tokens(m).len(),
{
    let head = seq![open_brace(), word("Name"@), colon(), m.name, comma()];
    let parts = seq![open_brace()] + seq![word("Name"@), colon(), m.name] + seq![comma()];
    assert(head =~= parts);
    let a = context_tokens(m.context) + event_tokens(m.event);
    let b = seq![word("States"@), colon(), open_brace()];
    let c = states_tokens(m.states);
    let one = seq![close_brace()];
    assert(seq![close_brace(), close_brace()] =~= one + one);
    assert(head + a + b + c + (one + one) =~= head + a + (b + c + one) + one);
    let x = context_tokens(m.context);
    let y = event_tokens(m.event);
    assert(head + a =~= head + x + y);
}

/// The tokens of the states of a machine, with the word before them.
spec fn states_section(ws: Seq<WrittenState>) -> Seq<TokenView> {
    seq![word("States"@), colon(), open_brace()] + states_tokens(ws) + seq![close_brace()]
}

/// The machine that is written down as `m`.
pub open spec fn machine_of(m: WrittenMachine) -> FsmView {
    FsmView {
        name: m.name.text,
        context_type: match m.context {
            Some(ty) => Some(texts(ty)),
            None => None,
        },
        states: states_of(m.states),
    }
}

/// The sections of `m` stand in `toks`, the states at `s`, up to `end`.
spec fn sections_stand(toks: Seq<TokenView>, m: WrittenMachine, s: int, end: int) -> bool {
    &&& 5 < toks.len()
    &&& toks[0] == open_brace()
    &&& runs_at(toks, 1, seq![word("Name"@), colon(), m.name])
    &&& toks[4] == comma()
    &&& runs_at(toks, 5, context_tokens(m.context))
    &&& runs_at(toks, (5 + context_tokens(m.context).len()) as int, event_tokens(m.event))
    &&& s == 5 + context_tokens(m.context).len() + event_tokens(m.event).len()
    &&& runs_at(toks, s, states_section(m.states))
    &&& end == s + 3 + states_tokens(m.states).len() + 1
    &&& at(toks, end, "R_CURLY"@)
}

proof fn lemma_sections_stand(m: WrittenMachine) -> (r: (int, int))
    ensures
        sections_stand(machine_tokens(m), m, r.0, r.1),
{
    let toks = machine_tokens(m);
    let name = seq![word("Name"@), colon(), m.name];
    let context = context_tokens(m.context);
    let body = states_section(m.states);
    let p1 = seq![open_brace()];
    let p2 = p1 + name;
    let p3 = p2 + seq![comma()];
    let p35 = p3 + context;
    let p4 = p35 + event_tokens(m.event);
    let p5 = p4 + body;
    lemma_machine_tokens(m);
    lemma_runs_split(toks, 0, p5, seq![close_brace()]);
    lemma_runs_split(toks, 0, p4, body);
    lemma_runs_split(toks, 0, p35, event_tokens(m.event));
    lemma_runs_split(toks, 0, p3, context);
    lemma_runs_split(toks, 0, p2, seq![comma()]);
    lemma_runs_split(toks, 0, p1, name);
    assert(toks[0] == p1[0]);
    let s = p4.len() as int;
    let end = p5.len() as int;
    assert(toks[4 + 0int] == seq![comma()][0]);
    assert(toks[end + 0] == seq![close_brace()][0]);
    (s, end)
}

/// `ty` can be the type of events: it closes no brace, and starts no section.
pub open spec fn is_event_type(ty: Seq<TokenView>) -> bool {
    forall|k: int|
        0 <= k < ty.len() ==> (#[trigger] ty[k]).kind != "R_CURLY"@ && ty[k].text != "Name"@
            && ty[k].text != "Context"@ && ty[k].text != "States"@
}

/// A token that is no name of a section is passed over.
proof fn lemma_pass_token(toks: Seq<TokenView>, i: int, d: Draft)
    requires
        0 <= i < toks.len(),
        toks[i].kind != "R_CURLY"@,
        toks[i].text != "Name"@ && toks[i].text != "Context"@ && toks[i].text != "States"@,
    ensures
        read_sections(toks, i, d) == read_sections(toks, i + 1, d),
{
}

proof fn lemma_pass_tokens(toks: Seq<TokenView>, i: int, ty: Seq<TokenView>, n: int, d: Draft)
    requires
        runs_at(toks, i, ty),
        is_event_type(ty),
        0 <= n <= ty.len(),
    ensures
        read_sections(toks, i, d) == read_sections(toks, i + n, d),
    decreases n,
{
    if n > 0 {
        lemma_pass_tokens(toks, i, ty, n - 1, d);
        assert(toks[i + (n - 1)] == ty[n - 1]);
        lemma_pass_token(toks, i + (n - 1), d);
    }
}

proof fn lemma_event_section(toks: Seq<TokenView>, i: int, event: Option<Seq<TokenView>>, d: Draft)
    requires
        runs_at(toks, i, event_tokens(event)),
        event matches Some(ty) ==> is_event_type(ty),
    ensures
        read_sections(toks, i, d) == read_sections(toks, i + event_tokens(event).len(), d),
{
    lemma_token_kinds();
    lemma_words();
    match event {
        Some(ty) => {
            let head = seq![word("Event"@), colon()];
            let all = event_tokens(event);
            assert(is_event_type(head));
            assert(is_event_type(seq![comma()]));
            assert forall|k: int| 0 <= k < all.len() implies (#[trigger] all[k]).kind
                != "R_CURLY"@ && all[k].text != "Name"@ && all[k].text != "Context"@
                && all[k].text != "States"@ by {
                if k < 2 {
                    assert(all[k] == head[k]);
                } else if k < 2 + ty.len() {
                    assert(all[k] == ty[k - 2]);
                } else {
                    assert(all[k] == seq![comma()][0]);
                }
            }
            lemma_pass_tokens(toks, i, all, all.len() as int, d);
        },
        None => {},
    }
}

/// What is read of the context of `m`, and before it.
proof fn lemma_read_front(toks: Seq<TokenView>, m: WrittenMachine, s: int, end: int)
    requires
        sections_stand(toks, m, s, end),
        m.context matches Some(ty) ==> is_context_type(ty),
        m.event matches Some(ty) ==> is_event_type(ty),
    ensures
        read_sections(
            toks,
            1,
            Draft { name: None, context_type: None, states: Seq::empty() },
        ) == read_sections(
            toks,
            s,
            Draft {
                name: Some(m.name.text),
                context_type: machine_of(m).context_type,
                states: Seq::empty(),
            },
        ),
{
    lemma_token_kinds();
    lemma_words();
    let body = states_section(m.states);
    assert(body[0] == word("States"@));
    assert(toks[s + 0] == body[0]);
    let empty = Draft { name: None, context_type: None, states: Seq::empty() };
    let named = Draft { name: Some(m.name.text), ..empty };
    lemma_name_section(toks, 1, m.name, empty);
    lemma_pass_token(toks, 4, named);
    let e = 5 + context_tokens(m.context).len();
    let full = Draft { context_type: machine_of(m).context_type, ..named };
    match m.context {
        Some(ty) => {
            lemma_context_section(toks, 5, ty, named);
            lemma_pass_token(toks, e - 1, full);
        },
        None => {},
    }
    lemma_event_section(toks, e as int, m.event, full);
}

/// A machine that is written down is read back: its name, the type of its context, and all of
/// its states.
pub proof fn law_machine_read_back(m: WrittenMachine)
    requires
        m.context matches Some(ty) ==> is_context_type(ty),
        m.event matches Some(ty) ==> is_event_type(ty),
        forall|k: int| 0 <= k < m.states.len() ==> is_state(#[trigger] m.states[k]),
    ensures
        body_fsm(machine_tokens(m)) == Some(machine_of(m)),
{
    let toks = machine_tokens(m);
    let (s, end) = lemma_sections_stand(m);
    lemma_read_front(toks, m, s, end);
    let full = Draft {
        name: Some(m.name.text),
        context_type: machine_of(m).context_type,
        states: Seq::empty(),
    };
    lemma_states_section(toks, s, m.states, full);
    assert(full.states + states_of(m.states) =~= states_of(m.states));
}

/// The tokens of some trees and of some others are those of the ones and then those of the
/// others. A token stands for itself, but for white space and comments, which stand for
/// nothing; and anything else stands for the tokens below it.
pub proof fn law_tokens_in_order(a: Seq<TreeView>, b: Seq<TreeView>, t: TreeView)
    ensures
        tokens_of_all(a + b) == tokens_of_all(a) + tokens_of_all(b),
        tokens_of_all(seq![t]) == tokens_of(t),
        !t.is_token ==> tokens_of(t) == tokens_of_all(t.children),
        t.is_token && t.kind != "WHITESPACE"@ && t.kind != "COMMENT"@ ==> tokens_of(t) == seq![
            TokenView { kind: t.kind, is_punct: t.is_punct, text: t.text },
        ],
        t.is_token && t.children.len() == 0 && (t.kind == "WHITESPACE"@ || t.kind == "COMMENT"@)
            ==> tokens_of(t) == Seq::<TokenView>::empty(),
    decreases b.len(),
{
    let one = seq![t];
    assert(one.drop_last() =~= Seq::empty());
    assert(tokens_of_all(one.drop_last()) =~= Seq::empty());
    assert(tokens_of_all(one) =~= tokens_of(t));
    if b.len() == 0 {
        assert(a + b =~= a);
        assert(tokens_of_all(a) + tokens_of_all(b) =~= tokens_of_all(a));
    } else {
        assert((a + b).drop_last() =~= a + b.drop_last());
        assert((a + b).last() == b.last());
        law_tokens_in_order(a, b.drop_last(), t);
        let x = tokens_of_all(a);
        let y = tokens_of_all(b.drop_last());
        let z = tokens_of(b.last());
        assert((x + y) + z =~= x + (y + z));
    }
}

/// The body of a macro call is its first token tree, in the order of the text.
pub proof fn law_first_token_tree(a: Seq<TreeView>, b: Seq<TreeView>, t: TreeView)
    ensures
        first_token_tree_of(a + b) == if first_token_tree_of(a) is Some {
            first_token_tree_of(a)
        } else {
            first_token_tree_of(b)
        },
        first_token_tree_of(seq![t]) == first_token_tree(t),
        t.kind == "TOKEN_TREE"@ ==> first_token_tree(t) == Some(t),
        t.kind != "TOKEN_TREE"@ ==> first_token_tree(t) == first_token_tree_of(t.children),
    decreases b.len(),
{
    let one = seq![t];
    assert(one.drop_last() =~= Seq::empty());
    assert(first_token_tree_of(one.drop_last()) is None);
    if b.len() == 0 {
        assert(a + b =~= a);
    } else {
        assert((a + b).drop_last() =~= a + b.drop_last());
        assert((a + b).last() == b.last());
        law_first_token_tree(a, b.drop_last(), t);
    }
}

/// A call of the macro writes down the machine that its first token tree writes down, and none
/// where it has no token tree.
pub proof fn law_call_read_back(call: Seq<char>, t: TreeView, m: WrittenMachine)
    requires
        m.context matches Some(ty) ==> is_context_type(ty),
        m.event matches Some(ty) ==> is_event_type(ty),
        forall|k: int| 0 <= k < m.states.len() ==> is_state(#[trigger] m.states[k]),
    ensures
        first_token_tree(source_tree(call)) is None ==> call_fsm(call) is None,
        first_token_tree(source_tree(call)) == Some(t) && tokens_of(t) == machine_tokens(m)
            ==> call_fsm(call) == Some(machine_of(m)),
{
    law_machine_read_back(m);
}

} // verus!
