//! State machines in the tokens that a procedural macro is given.
use vstd::prelude::*;

use crate::labels::label_view;
use crate::macro_body::is_key;
use crate::model::{field_views, state_views, FsmDefinition, FsmView, StateDefinition, StateView};
use crate::parsed::parse_expr;
use crate::text::{concat2, same};
use crate::visit::{expr_step_views, grow, grown, ExprStep, ExprStepView, ExprTree, ExprView};

verus! {

/// A pair of brackets.
#[derive(Debug, Clone, Copy, PartialEq, Eq, Structural)]
pub enum Delim {
    Paren,
    Brace,
    Bracket,
}

/// A token. A group is an opening bracket, what is inside, and a closing bracket. A mark is
/// joint if it makes one sign with the mark behind it.
#[derive(Debug)]
pub enum InputToken {
    Ident(String),
    Punct(char, bool),
    Literal(String),
    Open(Delim),
    Close(Delim),
}

/// What an [`InputToken`] says.
pub enum InputView {
    Ident(Seq<char>),
    Punct(char, bool),
    Literal(Seq<char>),
    Open(Delim),
    Close(Delim),
}

impl View for InputToken {
    type V = InputView;

    open spec fn view(&self) -> InputView {
        match self {
            InputToken::Ident(t) => InputView::Ident(t@),
            InputToken::Punct(c, joint) => InputView::Punct(*c, *joint),
            InputToken::Literal(t) => InputView::Literal(t@),
            InputToken::Open(d) => InputView::Open(*d),
            InputToken::Close(d) => InputView::Close(*d),
        }
    }
}

/// What several tokens say.
pub open spec fn input_views(tokens: Seq<InputToken>) -> Seq<InputView> {
    tokens.map_values(|t: InputToken| t@)
}

/// The text of the token `t`.
pub open spec fn token_text(t: InputView) -> Seq<char> {
    match t {
        InputView::Ident(text) => text,
        InputView::Punct(c, _) => seq![c],
        InputView::Literal(text) => text,
        InputView::Open(d) => match d {
            Delim::Paren => seq!['('],
            Delim::Brace => seq!['{'],
            Delim::Bracket => seq!['['],
        },
        InputView::Close(d) => match d {
            Delim::Paren => seq![')'],
            Delim::Brace => seq!['}'],
            Delim::Bracket => seq![']'],
        },
    }
}

/// Whether a space stands between the tokens `a` and `b` where both are written down.
pub open spec fn apart(a: InputView, b: InputView) -> bool {
    match (a, b) {
        (InputView::Open(d), _) => d == Delim::Brace,
        (_, InputView::Close(d)) => d == Delim::Brace,
        (InputView::Punct(_, joint), _) => !joint,
        _ => true,
    }
}

/// The tokens `i..j` as text.
pub open spec fn rendered(toks: Seq<InputView>, i: int, j: int) -> Seq<char>
    decreases j - i,
{
    if i >= j {
        Seq::empty()
    } else if i == j - 1 {
        token_text(toks[i])
    } else if apart(toks[j - 2], toks[j - 1]) {
        rendered(toks, i, j - 1) + seq![' '] + token_text(toks[j - 1])
    } else {
        rendered(toks, i, j - 1) + token_text(toks[j - 1])
    }
}

/// The position of the bracket that closes the `depth` groups open at `i`.
pub open spec fn closing(toks: Seq<InputView>, i: int, depth: int) -> int
    decreases toks.len() - i,
{
    if i >= toks.len() {
        toks.len() as int
    } else {
        match toks[i] {
            InputView::Open(_) => closing(toks, i + 1, depth + 1),
            InputView::Close(_) => if depth <= 1 {
                i
            } else {
                closing(toks, i + 1, depth - 1)
            },
            _ => closing(toks, i + 1, depth),
        }
    }
}

/// The position behind the token or the group at `i`, which ends before `end`.
pub open spec fn tree_end(toks: Seq<InputView>, i: int, end: int) -> int {
    match toks[i] {
        InputView::Open(_) => if closing(toks, i + 1, 1) < end {
            closing(toks, i + 1, 1) + 1
        } else {
            end
        },
        _ => i + 1,
    }
}

/// A closing bracket stands behind what it closes.
pub proof fn lemma_closing(toks: Seq<InputView>, i: int, depth: int)
    requires
        0 <= i <= toks.len(),
    ensures
        i <= closing(toks, i, depth) <= toks.len(),
    decreases toks.len() - i,
{
    if i < toks.len() {
        lemma_closing(toks, i + 1, depth + 1);
        lemma_closing(toks, i + 1, depth - 1);
        lemma_closing(toks, i + 1, depth);
    }
}

/// A token or a group takes at least one token, and none behind `end`.
pub proof fn lemma_tree_end(toks: Seq<InputView>, i: int, end: int)
    requires
        0 <= i < end <= toks.len(),
    ensures
        i < tree_end(toks, i, end) <= end,
{
    lemma_closing(toks, i + 1, 1);
}

/// The number of tokens and groups between `i` and `end`.
pub open spec fn tree_count(toks: Seq<InputView>, i: int, end: int) -> nat
    decreases end - i,
{
    if 0 <= i < end <= toks.len() {
        proof {
            lemma_tree_end(toks, i, end);
        }
        tree_count(toks, tree_end(toks, i, end), end) + 1
    } else {
        0
    }
}

/// The position behind the `n` tokens or groups from `i` on.
pub open spec fn past_trees(toks: Seq<InputView>, i: int, end: int, n: nat) -> int
    decreases n,
{
    if n == 0 || !(0 <= i < end <= toks.len()) {
        i
    } else {
        past_trees(toks, tree_end(toks, i, end), end, (n - 1) as nat)
    }
}

/// Moving on by at least one token or group.
pub proof fn lemma_past_trees(toks: Seq<InputView>, i: int, end: int, n: nat)
    requires
        0 <= i <= end <= toks.len(),
    ensures
        i <= past_trees(toks, i, end, n) <= end,
        0 < n && i < end ==> i < past_trees(toks, i, end, n),
    decreases n,
{
    if n > 0 && i < end {
        lemma_tree_end(toks, i, end);
        lemma_past_trees(toks, tree_end(toks, i, end), end, (n - 1) as nat);
    }
}

/// What parsers answer: whether a text is an identifier and no keyword, and how many tokens
/// and groups follow the type, or the expression, that a text begins with, or what is wrong
/// with it. Of an expression they also give the steps of a walk through it.
pub struct Parsers {
    pub ident: spec_fn(Seq<char>) -> bool,
    pub ty: spec_fn(Seq<char>) -> Result<nat, Seq<char>>,
    pub expr: spec_fn(Seq<char>) -> Result<(nat, Seq<ExprStepView>), Seq<char>>,
}

/// What a count or a message says.
pub open spec fn rest_view(r: Result<usize, String>) -> Result<nat, Seq<char>> {
    match r {
        Ok(n) => Ok(n as nat),
        Err(message) => Err(message@),
    }
}

/// What a count with steps or a message says.
pub open spec fn front_view(r: Result<(usize, Vec<ExprStep>), String>) -> Result<
    (nat, Seq<ExprStepView>),
    Seq<char>,
> {
    match r {
        Ok((n, steps)) => Ok((n as nat, expr_step_views(steps@))),
        Err(message) => Err(message@),
    }
}

/// How many tokens and groups the answer `front` leaves.
pub open spec fn left_of(front: Result<(nat, Seq<ExprStepView>), Seq<char>>) -> Result<
    nat,
    Seq<char>,
> {
    match front {
        Ok((n, _)) => Ok(n),
        Err(message) => Err(message),
    }
}

/// Every answer of `f` is the one of `g`.
pub open spec fn says<F: Fn(&str) -> bool>(f: F, g: spec_fn(Seq<char>) -> bool) -> bool {
    forall|x: &str, y: bool| #[trigger] call_ensures(f, (x,), y) ==> y == g(x@)
}

/// Every answer of `f` is the one of `g`.
pub open spec fn leaves<F: Fn(&str) -> Result<usize, String>>(
    f: F,
    g: spec_fn(Seq<char>) -> Result<nat, Seq<char>>,
) -> bool {
    forall|x: &str, y: Result<usize, String>| #[trigger]
        call_ensures(f, (x,), y) ==> rest_view(y) == g(x@)
}

/// Every answer of `f` is the one of `g`.
pub open spec fn walks<F: Fn(&str) -> Result<(usize, Vec<ExprStep>), String>>(
    f: F,
    g: spec_fn(Seq<char>) -> Result<(nat, Seq<ExprStepView>), Seq<char>>,
) -> bool {
    forall|x: &str, y: Result<(usize, Vec<ExprStep>), String>| #[trigger]
        call_ensures(f, (x,), y) ==> front_view(y) == g(x@)
}

/// The three parsers, of identifiers, types and expressions, answer as `p` does.
pub open spec fn answer_as<
    I: Fn(&str) -> bool,
    T: Fn(&str) -> Result<usize, String>,
    E: Fn(&str) -> Result<(usize, Vec<ExprStep>), String>,
>(is_ident: I, type_rest: T, expr_front: E, p: Parsers) -> bool {
    &&& says(is_ident, p.ident)
    &&& leaves(type_rest, p.ty)
    &&& walks(expr_front, p.expr)
}

/// The three parsers can be asked about every text.
pub open spec fn can_be_asked<
    I: Fn(&str) -> bool,
    T: Fn(&str) -> Result<usize, String>,
    E: Fn(&str) -> Result<(usize, Vec<ExprStep>), String>,
>(is_ident: I, type_rest: T, expr_front: E) -> bool {
    &&& forall|x: &str| #[trigger] call_requires(is_ident, (x,))
    &&& forall|x: &str| #[trigger] call_requires(type_rest, (x,))
    &&& forall|x: &str| #[trigger] call_requires(expr_front, (x,))
}

/// The parsers that are asked.
struct Asked<'a, I, T, E> {
    is_ident: &'a I,
    type_rest: &'a T,
    expr_front: &'a E,
}

impl<
    'a,
    I: Fn(&str) -> bool,
    T: Fn(&str) -> Result<usize, String>,
    E: Fn(&str) -> Result<(usize, Vec<ExprStep>), String>,
> Asked<'a, I, T, E> {
    /// The parsers answer as `p` does.
    spec fn are(&self, p: Parsers) -> bool {
        answer_as(*self.is_ident, *self.type_rest, *self.expr_front, p)
    }

    /// The parsers can be asked about every text.
    spec fn ready(&self) -> bool {
        can_be_asked(*self.is_ident, *self.type_rest, *self.expr_front)
    }

    /// Whether `text` is an identifier.
    fn ident(&self, text: &str) -> (r: bool)
        requires
            self.ready(),
        ensures
            forall|p: Parsers| #[trigger] self.are(p) ==> r == (p.ident)(text@),
    {
        assert(call_requires(*self.is_ident, (text,)));
        (self.is_ident)(text)
    }

    /// What follows the type that `text` begins with.
    fn ty(&self, text: &str) -> (r: Result<usize, String>)
        requires
            self.ready(),
        ensures
            forall|p: Parsers| #[trigger] self.are(p) ==> rest_view(r) == (p.ty)(text@),
    {
        assert(call_requires(*self.type_rest, (text,)));
        (self.type_rest)(text)
    }

    /// What follows the expression that `text` begins with, and the steps through it.
    fn expr(&self, text: &str) -> (r: Result<(usize, Vec<ExprStep>), String>)
        requires
            self.ready(),
        ensures
            forall|p: Parsers| #[trigger] self.are(p) ==> front_view(r) == (p.expr)(text@),
    {
        assert(call_requires(*self.expr_front, (text,)));
        (self.expr_front)(text)
    }
}

/// Calls `syn::parse_str::<syn::Ident>`, and returns whether it accepts the text. Nothing is
/// claimed of the answer: it rests on the lexer that `proc_macro2` uses, which inside a
/// procedural macro is the one of the compiler.
#[verifier::external_body]
fn is_identifier(text: &str) -> (r: bool) {
    syn::parse_str::<syn::Ident>(text).is_ok()
}

/// Calls `syn::parse::Parser::parse_str` with the parser of `syn::Type`, and then of the
/// tokens behind the type, and returns how many tokens and groups these are, or the message
/// of the error. Nothing is claimed of the answer: it rests on the lexer that `proc_macro2`
/// uses, which inside a procedural macro is the one of the compiler.
#[verifier::external_body]
pub(crate) fn parse_type(text: &str) -> (r: Result<usize, String>) {
    let parser = |input: syn::parse::ParseStream| -> syn::Result<proc_macro2::TokenStream> {
        input.parse::<syn::Type>()?;
        input.parse::<proc_macro2::TokenStream>()
    };
    match syn::parse::Parser::parse_str(parser, text) {
        Ok(rest) => Ok(rest.into_iter().count()),
        Err(e) => Err(e.to_string()),
    }
}

/// The parsers of `syn` answer as `p` does.
pub closed spec fn syn_answers_as(p: Parsers) -> bool {
    answer_as(is_identifier, parse_type, parse_expr, p)
}

/// Why tokens are no state machine.
#[derive(Debug)]
pub enum ParseError {
    /// There is no identifier, as there is something else or nothing any more.
    NoIdent(bool),
    /// There is a keyword in place of an identifier.
    Keyword(String),
    /// There is no colon.
    NoColon,
    /// There is no arrow.
    NoArrow,
    /// There is no group in curly braces, as there is something else or nothing any more.
    NoBraces(bool),
    /// A type or an expression is wrong.
    Syntax(String),
    /// A type or an expression took no token.
    Stuck,
    /// Something stands behind the states.
    Trailing,
}

/// What a [`ParseError`] says.
pub enum Failure {
    NoIdent(bool),
    Keyword(Seq<char>),
    NoColon,
    NoArrow,
    NoBraces(bool),
    Syntax(Seq<char>),
    Stuck,
    Trailing,
}

impl View for ParseError {
    type V = Failure;

    open spec fn view(&self) -> Failure {
        match self {
            ParseError::NoIdent(at_end) => Failure::NoIdent(*at_end),
            ParseError::Keyword(word) => Failure::Keyword(word@),
            ParseError::NoColon => Failure::NoColon,
            ParseError::NoArrow => Failure::NoArrow,
            ParseError::NoBraces(at_end) => Failure::NoBraces(*at_end),
            ParseError::Syntax(message) => Failure::Syntax(message@),
            ParseError::Stuck => Failure::Stuck,
            ParseError::Trailing => Failure::Trailing,
        }
    }
}

/// The message for a missing `what`.
pub open spec fn expected(what: Seq<char>, at_end: bool) -> Seq<char> {
    if at_end {
        "unexpected end of input, expected "@ + what
    } else {
        "expected "@ + what
    }
}

/// The message for the error `f`.
pub open spec fn failure_message(f: Failure) -> Seq<char> {
    match f {
        Failure::NoIdent(at_end) => expected("identifier"@, at_end),
        Failure::Keyword(word) => "expected identifier, found keyword `"@ + word + "`"@,
        Failure::NoColon => "expected `:`"@,
        Failure::NoArrow => "expected `=>`"@,
        Failure::NoBraces(at_end) => expected("curly braces"@, at_end),
        Failure::Syntax(message) => message,
        Failure::Stuck => "expected one token or more"@,
        Failure::Trailing => "unexpected token"@,
    }
}

/// The message for a missing `what`.
fn expected_message(what: &str, at_end: bool) -> (r: String)
    ensures
        r@ == expected(what@, at_end),
{
    if at_end {
        concat2("unexpected end of input, expected ", what)
    } else {
        concat2("expected ", what)
    }
}

impl ParseError {
    /// The message for the error.
    pub fn message(&self) -> (r: String)
        ensures
            r@ == failure_message(self@),
    {
        match self {
            ParseError::NoIdent(at_end) => expected_message("identifier", *at_end),
            ParseError::Keyword(word) => {
                let mut r: String = concat2("expected identifier, found keyword `", word.as_str());
                r.append("`");
                r
            },
            ParseError::NoColon => "expected `:`".to_string(),
            ParseError::NoArrow => "expected `=>`".to_string(),
            ParseError::NoBraces(at_end) => expected_message("curly braces", *at_end),
            ParseError::Syntax(message) => message.clone(),
            ParseError::Stuck => "expected one token or more".to_string(),
            ParseError::Trailing => "unexpected token".to_string(),
        }
    }
}

/// The identifier at `i`.
pub open spec fn ident_at(p: Parsers, toks: Seq<InputView>, i: int, end: int) -> Result<
    Seq<char>,
    Failure,
> {
    if i < end {
        match toks[i] {
            InputView::Ident(text) => if (p.ident)(text) {
                Ok(text)
            } else {
                Err(Failure::Keyword(text))
            },
            _ => Err(Failure::NoIdent(false)),
        }
    } else {
        Err(Failure::NoIdent(true))
    }
}

/// The mark `c` is at `i`.
pub open spec fn mark_at(toks: Seq<InputView>, i: int, end: int, c: char) -> bool {
    i < end && (toks[i] matches InputView::Punct(d, _) && d == c)
}

/// An arrow is at `i` and behind.
pub open spec fn arrow_at(toks: Seq<InputView>, i: int, end: int) -> bool {
    i < end && toks[i] == InputView::Punct('=', true) && mark_at(toks, i + 1, end, '>')
}

/// A group in curly braces is at `i`.
pub open spec fn braces_at(toks: Seq<InputView>, i: int, end: int) -> bool {
    i < end && toks[i] == InputView::Open(Delim::Brace)
}

/// The position behind a comma at `i`, if there is one.
pub open spec fn past_comma(toks: Seq<InputView>, i: int, end: int) -> int {
    if mark_at(toks, i, end, ',') {
        i + 1
    } else {
        i
    }
}

/// The position of the bracket that closes the group at `i`.
pub open spec fn inner_end(toks: Seq<InputView>, i: int, end: int) -> int {
    if closing(toks, i + 1, 1) < end {
        closing(toks, i + 1, 1)
    } else {
        end
    }
}

/// The position behind what a parser takes from `i` on, where `rest` is its answer.
pub open spec fn piece_end(
    toks: Seq<InputView>,
    i: int,
    end: int,
    rest: Result<nat, Seq<char>>,
) -> Result<int, Failure> {
    match rest {
        Ok(left) => if left < tree_count(toks, i, end) {
            Ok(past_trees(toks, i, end, (tree_count(toks, i, end) - left) as nat))
        } else {
            Err(Failure::Stuck)
        },
        Err(message) => Err(Failure::Syntax(message)),
    }
}

/// What a parser takes ends behind its start.
pub proof fn lemma_piece_end(
    toks: Seq<InputView>,
    i: int,
    end: int,
    rest: Result<nat, Seq<char>>,
)
    requires
        0 <= i <= end <= toks.len(),
    ensures
        match piece_end(toks, i, end, rest) {
            Ok(j) => i < j <= end,
            Err(_) => true,
        },
{
    if let Ok(left) = rest {
        if left < tree_count(toks, i, end) {
            lemma_past_trees(toks, i, end, (tree_count(toks, i, end) - left) as nat);
        }
    }
}

/// The fields at `i` and behind, behind those in `done`.
pub open spec fn read_fields(
    p: Parsers,
    toks: Seq<InputView>,
    i: int,
    end: int,
    done: Seq<(Seq<char>, Seq<char>)>,
) -> Result<Seq<(Seq<char>, Seq<char>)>, Failure>
    decreases end - i,
{
    if !(0 <= i < end <= toks.len()) {
        Ok(done)
    } else {
        match ident_at(p, toks, i, end) {
            Err(e) => Err(e),
            Ok(name) => if !mark_at(toks, i + 1, end, ':') {
                Err(Failure::NoColon)
            } else {
                let rest = (p.ty)(rendered(toks, i + 2, end));
                proof {
                    lemma_piece_end(toks, i + 2, end, rest);
                }
                match piece_end(toks, i + 2, end, rest) {
                    Err(e) => Err(e),
                    Ok(j) => read_fields(
                        p,
                        toks,
                        past_comma(toks, j, end),
                        end,
                        done.push((name, rendered(toks, i + 2, j))),
                    ),
                }
            },
        }
    }
}

/// A word that starts a block of a state is at `i`.
pub open spec fn key_at(p: Parsers, toks: Seq<InputView>, i: int, end: int) -> bool {
    ident_at(p, toks, i, end) matches Ok(word) && is_key(word)
}

/// A block of a state: its text, and its expression.
pub struct BlockView {
    pub text: Seq<char>,
    pub tree: ExprView,
}

/// The blocks of a state, as far as there are any.
pub struct ReadBlocks {
    pub entry: Option<BlockView>,
    pub process: Option<BlockView>,
    pub exit: Option<BlockView>,
}

/// No blocks.
pub open spec fn no_blocks() -> ReadBlocks {
    ReadBlocks { entry: None, process: None, exit: None }
}

/// The blocks `done`, with the block `b` behind the word `word` in place of another one.
pub open spec fn with_read(done: ReadBlocks, word: Seq<char>, b: BlockView) -> ReadBlocks {
    if word == "entry"@ {
        ReadBlocks { entry: Some(b), ..done }
    } else if word == "process"@ {
        ReadBlocks { process: Some(b), ..done }
    } else {
        ReadBlocks { exit: Some(b), ..done }
    }
}

/// The blocks at `i` and behind, in place of those in `done`.
pub open spec fn read_blocks(
    p: Parsers,
    toks: Seq<InputView>,
    i: int,
    end: int,
    done: ReadBlocks,
) -> Result<ReadBlocks, Failure>
    decreases end - i,
{
    if !(0 <= i < end <= toks.len()) {
        Ok(done)
    } else if !key_at(p, toks, i, end) {
        proof {
            lemma_tree_end(toks, i, end);
        }
        read_blocks(p, toks, past_comma(toks, tree_end(toks, i, end), end), end, done)
    } else if !mark_at(toks, i + 1, end, ':') {
        Err(Failure::NoColon)
    } else {
        let front = (p.expr)(rendered(toks, i + 2, end));
        proof {
            lemma_piece_end(toks, i + 2, end, left_of(front));
        }
        match piece_end(toks, i + 2, end, left_of(front)) {
            Err(e) => Err(e),
            Ok(j) => read_blocks(
                p,
                toks,
                past_comma(toks, j, end),
                end,
                with_read(
                    done,
                    ident_at(p, toks, i, end)->Ok_0,
                    BlockView {
                        text: rendered(toks, i + 2, j),
                        tree: grown(front->Ok_0.1),
                    },
                ),
            ),
        }
    }
}

/// The fields of the state whose name is before `i`.
pub open spec fn state_fields(p: Parsers, toks: Seq<InputView>, i: int, end: int) -> Result<
    Seq<(Seq<char>, Seq<char>)>,
    Failure,
> {
    if braces_at(toks, i, end) {
        read_fields(p, toks, i + 1, inner_end(toks, i, end), Seq::empty())
    } else {
        Ok(Seq::empty())
    }
}

/// The position behind the fields at `i`, if there are any.
pub open spec fn past_fields(toks: Seq<InputView>, i: int, end: int) -> int {
    if braces_at(toks, i, end) {
        tree_end(toks, i, end)
    } else {
        i
    }
}

/// The expressions of a state's blocks.
#[derive(Debug)]
pub struct StateBlocks {
    pub entry: Option<ExprTree>,
    pub process: ExprTree,
    pub exit: Option<ExprTree>,
}

/// What [`StateBlocks`] say.
pub struct BlocksView {
    pub entry: Option<ExprView>,
    pub process: ExprView,
    pub exit: Option<ExprView>,
}

/// What an optional expression says.
pub open spec fn optional_view(e: Option<ExprTree>) -> Option<ExprView> {
    match e {
        Some(e) => Some(e@),
        None => None,
    }
}

impl View for StateBlocks {
    type V = BlocksView;

    open spec fn view(&self) -> BlocksView {
        BlocksView {
            entry: optional_view(self.entry),
            process: self.process@,
            exit: optional_view(self.exit),
        }
    }
}

/// What the blocks of several states say.
pub open spec fn blocks_views(blocks: Seq<StateBlocks>) -> Seq<BlocksView> {
    blocks.map_values(|b: StateBlocks| b@)
}

/// A state, and the expressions of its blocks.
pub struct ReadState {
    pub state: StateView,
    pub blocks: BlocksView,
}

/// States, and the expressions of the blocks of each.
pub struct ReadStates {
    pub states: Seq<StateView>,
    pub blocks: Seq<BlocksView>,
}

/// The text of an optional block.
pub open spec fn text_of(b: Option<BlockView>) -> Option<Seq<char>> {
    match b {
        Some(b) => Some(b.text),
        None => None,
    }
}

/// The expression of an optional block.
pub open spec fn tree_of(b: Option<BlockView>) -> Option<ExprView> {
    match b {
        Some(b) => Some(b.tree),
        None => None,
    }
}

/// The state with these parts. Without a block for events it is no state.
pub open spec fn state_of(
    name: Seq<char>,
    fields: Seq<(Seq<char>, Seq<char>)>,
    blocks: ReadBlocks,
) -> Option<ReadState> {
    match blocks.process {
        Some(process) => Some(
            ReadState {
                state: StateView {
                    name,
                    fields,
                    entry_block: text_of(blocks.entry),
                    process_block: process.text,
                    exit_block: text_of(blocks.exit),
                },
                blocks: BlocksView {
                    entry: tree_of(blocks.entry),
                    process: process.tree,
                    exit: tree_of(blocks.exit),
                },
            },
        ),
        None => None,
    }
}

/// The states `done` with the state `r` behind them, if it is one.
pub open spec fn with_read_state(done: ReadStates, r: Option<ReadState>) -> ReadStates {
    match r {
        Some(r) => ReadStates {
            states: done.states.push(r.state),
            blocks: done.blocks.push(r.blocks),
        },
        None => done,
    }
}

/// No states.
pub open spec fn no_states() -> ReadStates {
    ReadStates { states: Seq::empty(), blocks: Seq::empty() }
}

/// The state whose name is at `i`, if it is one.
pub open spec fn read_state(p: Parsers, toks: Seq<InputView>, i: int, end: int) -> Result<
    Option<ReadState>,
    Failure,
> {
    let j = past_fields(toks, i + 1, end);
    match ident_at(p, toks, i, end) {
        Err(e) => Err(e),
        Ok(name) => match state_fields(p, toks, i + 1, end) {
            Err(e) => Err(e),
            Ok(fields) => if !arrow_at(toks, j, end) {
                Err(Failure::NoArrow)
            } else if !braces_at(toks, j + 2, end) {
                Err(Failure::NoBraces(j + 2 >= end))
            } else {
                match read_blocks(p, toks, j + 3, inner_end(toks, j + 2, end), no_blocks()) {
                    Err(e) => Err(e),
                    Ok(blocks) => Ok(state_of(name, fields, blocks)),
                }
            },
        },
    }
}

/// The position behind the state whose name is at `i`.
pub open spec fn past_state(toks: Seq<InputView>, i: int, end: int) -> int {
    let j = past_fields(toks, i + 1, end);
    past_comma(toks, tree_end(toks, j + 2, end), end)
}

/// A state ends behind its start.
pub proof fn lemma_past_state(toks: Seq<InputView>, i: int, end: int)
    requires
        0 <= i < end <= toks.len(),
        braces_at(toks, past_fields(toks, i + 1, end) + 2, end),
    ensures
        i < past_fields(toks, i + 1, end) <= end,
        i < past_state(toks, i, end) <= end,
{
    if braces_at(toks, i + 1, end) {
        lemma_tree_end(toks, i + 1, end);
    }
    lemma_tree_end(toks, past_fields(toks, i + 1, end) + 2, end);
}

/// The states at `i` and behind, behind those in `done`.
pub open spec fn read_states(
    p: Parsers,
    toks: Seq<InputView>,
    i: int,
    end: int,
    done: ReadStates,
) -> Result<ReadStates, Failure>
    decreases end - i,
{
    if !(0 <= i < end <= toks.len()) {
        Ok(done)
    } else {
        match read_state(p, toks, i, end) {
            Err(e) => Err(e),
            Ok(state) => {
                proof {
                    lemma_past_state(toks, i, end);
                }
                read_states(p, toks, past_state(toks, i, end), end, with_read_state(done, state))
            },
        }
    }
}

/// The position of the word `word` at `i` or behind, outside of groups.
pub open spec fn find_word(p: Parsers, toks: Seq<InputView>, i: int, word: Seq<char>) -> int
    decreases toks.len() - i,
{
    if !(0 <= i < toks.len()) || ident_at(p, toks, i, toks.len() as int) == Ok::<_, Failure>(word) {
        i
    } else {
        proof {
            lemma_tree_end(toks, i, toks.len() as int);
        }
        find_word(p, toks, tree_end(toks, i, toks.len() as int), word)
    }
}

/// A machine, and the expressions of the blocks of each of its states.
#[derive(Debug)]
pub struct Definition {
    pub fsm: FsmDefinition,
    pub blocks: Vec<StateBlocks>,
}

/// What a [`Definition`] says.
pub struct DefinitionView {
    pub fsm: FsmView,
    pub blocks: Seq<BlocksView>,
}

impl View for Definition {
    type V = DefinitionView;

    open spec fn view(&self) -> DefinitionView {
        DefinitionView { fsm: self.fsm@, blocks: blocks_views(self.blocks@) }
    }
}

/// The states behind the word `States` at `i`, which nothing may follow.
pub open spec fn read_body(p: Parsers, toks: Seq<InputView>, i: int, name: Seq<char>) -> Result<
    DefinitionView,
    Failure,
> {
    let end = toks.len() as int;
    match ident_at(p, toks, i, end) {
        Err(e) => Err(e),
        Ok(_) => if !mark_at(toks, i + 1, end, ':') {
            Err(Failure::NoColon)
        } else if !braces_at(toks, i + 2, end) {
            Err(Failure::NoBraces(i + 2 >= end))
        } else {
            match read_states(p, toks, i + 3, inner_end(toks, i + 2, end), no_states()) {
                Err(e) => Err(e),
                Ok(read) => if tree_end(toks, i + 2, end) < end {
                    Err(Failure::Trailing)
                } else {
                    Ok(
                        DefinitionView {
                            fsm: FsmView { name, context_type: None, states: read.states },
                            blocks: read.blocks,
                        },
                    )
                },
            }
        },
    }
}

/// The machine that `toks` write down.
pub open spec fn definition(p: Parsers, toks: Seq<InputView>) -> Result<DefinitionView, Failure> {
    let end = toks.len() as int;
    let i = find_word(p, toks, 0, "Name"@);
    match ident_at(p, toks, i, end) {
        Err(e) => Err(e),
        Ok(_) => if !mark_at(toks, i + 1, end, ':') {
            Err(Failure::NoColon)
        } else {
            match ident_at(p, toks, i + 2, end) {
                Err(e) => Err(e),
                Ok(name) => read_body(p, toks, find_word(p, toks, i + 3, "States"@), name),
            }
        },
    }
}

/// Whether a space stands between the tokens `a` and `b` where both are written down.
fn stand_apart(a: &InputToken, b: &InputToken) -> (r: bool)
    ensures
        r == apart(a@, b@),
{
    match a {
        InputToken::Open(d) => *d == Delim::Brace,
        InputToken::Punct(_, joint) => match b {
            InputToken::Close(d) => *d == Delim::Brace,
            _ => !*joint,
        },
        _ => match b {
            InputToken::Close(d) => *d == Delim::Brace,
            _ => true,
        },
    }
}

/// Puts the text of the token `t` behind `text`.
fn push_token(text: &mut String, t: &InputToken)
    ensures
        final(text)@ == old(text)@ + token_text(t@),
{
    match t {
        InputToken::Ident(word) => {
            text.append(word.as_str());
        },
        InputToken::Punct(c, _) => {
            text.push(*c);
        },
        InputToken::Literal(word) => {
            text.append(word.as_str());
        },
        InputToken::Open(d) => {
            text.push(
                match d {
                    Delim::Paren => '(',
                    Delim::Brace => '{',
                    Delim::Bracket => '[',
                },
            );
        },
        InputToken::Close(d) => {
            text.push(
                match d {
                    Delim::Paren => ')',
                    Delim::Brace => '}',
                    Delim::Bracket => ']',
                },
            );
        },
    }
    assert(text@ =~= old(text)@ + token_text(t@));
}

/// The tokens `from..to` as text.
pub fn render(tokens: &Vec<InputToken>, from: usize, to: usize) -> (r: String)
    requires
        from <= to <= tokens.len(),
    ensures
        r@ == rendered(input_views(tokens@), from as int, to as int),
{
    let ghost tv = input_views(tokens@);
    let mut r: String = String::new();
    let mut i: usize = from;
    while i < to
        invariant
            tv == input_views(tokens@),
            from <= i <= to <= tokens.len(),
            r@ == rendered(tv, from as int, i as int),
        decreases to - i,
    {
        assert(tv[i as int] == tokens@[i as int]@);
        if from < i {
            assert(tv[i - 1] == tokens@[i - 1]@);
            if stand_apart(&tokens[i - 1], &tokens[i]) {
                r.push(' ');
            }
        }
        push_token(&mut r, &tokens[i]);
        assert(r@ =~= rendered(tv, from as int, i + 1));
        i = i + 1;
    }
    r
}

/// The position of the bracket that closes the group open at `from`.
fn find_closing(tokens: &Vec<InputToken>, from: usize) -> (r: usize)
    requires
        0 < from <= tokens.len(),
    ensures
        r == closing(input_views(tokens@), from as int, 1),
        from <= r <= tokens.len(),
{
    let ghost tv = input_views(tokens@);
    let mut depth: usize = 1;
    let mut i: usize = from;
    while i < tokens.len()
        invariant
            tv == input_views(tokens@),
            0 < from <= i <= tokens.len(),
            1 <= depth <= 1 + (i - from),
            closing(tv, i as int, depth as int) == closing(tv, from as int, 1),
        decreases tokens.len() - i,
    {
        assert(tv[i as int] == tokens@[i as int]@);
        match &tokens[i] {
            InputToken::Open(_) => {
                depth = depth + 1;
            },
            InputToken::Close(_) => {
                if depth == 1 {
                    return i;
                }
                depth = depth - 1;
            },
            _ => {},
        }
        i = i + 1;
    }
    i
}

/// The position behind the token or the group at `i`.
fn skip_tree(tokens: &Vec<InputToken>, i: usize, end: usize) -> (r: usize)
    requires
        i < end <= tokens.len(),
    ensures
        r == tree_end(input_views(tokens@), i as int, end as int),
        i < r <= end,
{
    proof {
        lemma_tree_end(input_views(tokens@), i as int, end as int);
    }
    assert(input_views(tokens@)[i as int] == tokens@[i as int]@);
    match &tokens[i] {
        InputToken::Open(_) => {
            let close: usize = find_closing(tokens, i + 1);
            if close < end {
                close + 1
            } else {
                end
            }
        },
        _ => i + 1,
    }
}

/// The position of the bracket that closes the group at `i`.
fn find_inner_end(tokens: &Vec<InputToken>, i: usize, end: usize) -> (r: usize)
    requires
        i < end <= tokens.len(),
    ensures
        r == inner_end(input_views(tokens@), i as int, end as int),
        i < r <= end,
{
    let close: usize = find_closing(tokens, i + 1);
    if close < end {
        close
    } else {
        end
    }
}

/// The number of tokens and groups between `from` and `end`.
fn count_trees(tokens: &Vec<InputToken>, from: usize, end: usize) -> (r: usize)
    requires
        from <= end <= tokens.len(),
    ensures
        r == tree_count(input_views(tokens@), from as int, end as int),
{
    let ghost tv = input_views(tokens@);
    let mut n: usize = 0;
    let mut i: usize = from;
    while i < end
        invariant
            tv == input_views(tokens@),
            from <= i <= end <= tokens.len(),
            n <= i - from,
            n + tree_count(tv, i as int, end as int) == tree_count(tv, from as int, end as int),
        decreases end - i,
    {
        i = skip_tree(tokens, i, end);
        n = n + 1;
    }
    n
}

/// The position behind the `n` tokens or groups from `from` on.
fn skip_trees(tokens: &Vec<InputToken>, from: usize, end: usize, n: usize) -> (r: usize)
    requires
        from <= end <= tokens.len(),
    ensures
        r == past_trees(input_views(tokens@), from as int, end as int, n as nat),
        from <= r <= end,
{
    let ghost tv = input_views(tokens@);
    let mut left: usize = n;
    let mut i: usize = from;
    while left > 0 && i < end
        invariant
            tv == input_views(tokens@),
            from <= i <= end <= tokens.len(),
            past_trees(tv, i as int, end as int, left as nat) == past_trees(
                tv,
                from as int,
                end as int,
                n as nat,
            ),
        decreases left,
    {
        i = skip_tree(tokens, i, end);
        left = left - 1;
    }
    i
}

/// Whether the mark `c` is at `i`.
fn is_mark(tokens: &Vec<InputToken>, i: usize, end: usize, c: char) -> (r: bool)
    requires
        end <= tokens.len(),
    ensures
        r == mark_at(input_views(tokens@), i as int, end as int, c),
{
    if i < end {
        assert(input_views(tokens@)[i as int] == tokens@[i as int]@);
        match &tokens[i] {
            InputToken::Punct(d, _) => *d == c,
            _ => false,
        }
    } else {
        false
    }
}

/// Whether an arrow is at `i` and behind.
fn is_arrow(tokens: &Vec<InputToken>, i: usize, end: usize) -> (r: bool)
    requires
        end <= tokens.len(),
    ensures
        r == arrow_at(input_views(tokens@), i as int, end as int),
{
    if i < end {
        assert(input_views(tokens@)[i as int] == tokens@[i as int]@);
        match &tokens[i] {
            InputToken::Punct(d, joint) => *d == '=' && *joint && is_mark(tokens, i + 1, end, '>'),
            _ => false,
        }
    } else {
        false
    }
}

/// Whether a group in curly braces is at `i`.
fn is_braces(tokens: &Vec<InputToken>, i: usize, end: usize) -> (r: bool)
    requires
        end <= tokens.len(),
    ensures
        r == braces_at(input_views(tokens@), i as int, end as int),
{
    if i < end {
        assert(input_views(tokens@)[i as int] == tokens@[i as int]@);
        match &tokens[i] {
            InputToken::Open(d) => *d == Delim::Brace,
            _ => false,
        }
    } else {
        false
    }
}

/// The position behind a comma at `i`, if there is one.
fn skip_comma(tokens: &Vec<InputToken>, i: usize, end: usize) -> (r: usize)
    requires
        i <= end <= tokens.len(),
    ensures
        r == past_comma(input_views(tokens@), i as int, end as int),
        i <= r <= end,
{
    if is_mark(tokens, i, end, ',') {
        i + 1
    } else {
        i
    }
}

/// What a text or an error says.
pub open spec fn text_view(r: Result<String, ParseError>) -> Result<Seq<char>, Failure> {
    match r {
        Ok(text) => Ok(text@),
        Err(e) => Err(e@),
    }
}

/// What a position or an error says.
pub open spec fn place_result(r: Result<usize, ParseError>) -> Result<int, Failure> {
    match r {
        Ok(i) => Ok(i as int),
        Err(e) => Err(e@),
    }
}

/// The identifier at `i`.
fn take_ident<
    I: Fn(&str) -> bool,
    T: Fn(&str) -> Result<usize, String>,
    E: Fn(&str) -> Result<(usize, Vec<ExprStep>), String>,
>(
    asked: &Asked<I, T, E>,
    tokens: &Vec<InputToken>,
    i: usize,
    end: usize,
) -> (r: Result<String, ParseError>)
    requires
        asked.ready(),
        end <= tokens.len(),
    ensures
        forall|p: Parsers| #[trigger]
            asked.are(p) ==> text_view(r) == ident_at(
                p,
                input_views(tokens@),
                i as int,
                end as int,
            ),
        i >= end ==> text_view(r) == Err::<Seq<char>, Failure>(Failure::NoIdent(true)),
        i < end && !(input_views(tokens@)[i as int] is Ident) ==> r is Err,
{
    if i < end {
        assert(input_views(tokens@)[i as int] == tokens@[i as int]@);
        match &tokens[i] {
            InputToken::Ident(text) => if asked.ident(text.as_str()) {
                Ok(text.clone())
            } else {
                Err(ParseError::Keyword(text.clone()))
            },
            _ => Err(ParseError::NoIdent(false)),
        }
    } else {
        Err(ParseError::NoIdent(true))
    }
}

/// The position behind what a parser takes from `i` on, where `rest` is its answer.
pub fn find_piece_end(
    tokens: &Vec<InputToken>,
    i: usize,
    end: usize,
    rest: Result<usize, String>,
) -> (r: Result<usize, ParseError>)
    requires
        i <= end <= tokens.len(),
    ensures
        place_result(r) == piece_end(
            input_views(tokens@),
            i as int,
            end as int,
            rest_view(rest),
        ),
        r matches Ok(j) ==> i < j <= end,
{
    proof {
        lemma_piece_end(input_views(tokens@), i as int, end as int, rest_view(rest));
    }
    match rest {
        Ok(left) => {
            let all: usize = count_trees(tokens, i, end);
            if left < all {
                Ok(skip_trees(tokens, i, end, all - left))
            } else {
                Err(ParseError::Stuck)
            }
        },
        Err(message) => Err(ParseError::Syntax(message)),
    }
}

/// What fields or an error say.
pub open spec fn fields_result(r: Result<Vec<(String, String)>, ParseError>) -> Result<
    Seq<(Seq<char>, Seq<char>)>,
    Failure,
> {
    match r {
        Ok(fields) => Ok(field_views(fields@)),
        Err(e) => Err(e@),
    }
}

/// Reads the fields between `from` and `end`.
fn parse_fields<
    I: Fn(&str) -> bool,
    T: Fn(&str) -> Result<usize, String>,
    E: Fn(&str) -> Result<(usize, Vec<ExprStep>), String>,
>(
    asked: &Asked<I, T, E>,
    tokens: &Vec<InputToken>,
    from: usize,
    end: usize,
) -> (r: Result<
    Vec<(String, String)>,
    ParseError,
>)
    requires
        asked.ready(),
        from <= end <= tokens.len(),
    ensures
        forall|p: Parsers| #[trigger]
            asked.are(p) ==> fields_result(r) == read_fields(
                p,
                input_views(tokens@),
                from as int,
                end as int,
                Seq::empty(),
            ),
{
    let ghost tv = input_views(tokens@);
    let mut fields: Vec<(String, String)> = Vec::new();
    let mut i: usize = from;
    assert(field_views(fields@) =~= Seq::empty());
    while i < end
        invariant
            tv == input_views(tokens@),
            asked.ready(),
            from <= i <= end <= tokens.len(),
            forall|p: Parsers| #[trigger]
                asked.are(p) ==> read_fields(
                    p,
                    tv,
                    i as int,
                    end as int,
                    field_views(fields@),
                ) == read_fields(p, tv, from as int, end as int, Seq::empty()),
        decreases end - i,
    {
        let name: String = match take_ident(asked, tokens, i, end) {
            Ok(name) => name,
            Err(e) => {
                return Err(e);
            },
        };
        if !is_mark(tokens, i + 1, end, ':') {
            return Err(ParseError::NoColon);
        }
        let rest: Result<usize, String> = asked.ty(render(tokens, i + 2, end).as_str());
        let j: usize = match find_piece_end(tokens, i + 2, end, rest) {
            Ok(j) => j,
            Err(e) => {
                return Err(e);
            },
        };
        let ty: String = render(tokens, i + 2, j);
        let ghost before = fields@;
        fields.push((name, ty));
        assert(field_views(fields@) =~= field_views(before).push((name@, ty@)));
        i = skip_comma(tokens, j, end);
    }
    Ok(fields)
}

/// A block of a state: its text, and its expression.
struct FoundBlock {
    text: String,
    tree: ExprTree,
}

/// What an optional block says.
spec fn block_view(b: Option<FoundBlock>) -> Option<BlockView> {
    match b {
        Some(b) => Some(BlockView { text: b.text@, tree: b.tree@ }),
        None => None,
    }
}

/// The text and the expression of an optional block.
fn split(b: Option<FoundBlock>) -> (r: (Option<String>, Option<ExprTree>))
    ensures
        label_view(r.0) == text_of(block_view(b)),
        optional_view(r.1) == tree_of(block_view(b)),
{
    match b {
        Some(b) => (Some(b.text), Some(b.tree)),
        None => (None, None),
    }
}

/// The blocks of a state.
struct FoundBlocks {
    entry: Option<FoundBlock>,
    process: Option<FoundBlock>,
    exit: Option<FoundBlock>,
}

/// What blocks say.
spec fn found_view(b: FoundBlocks) -> ReadBlocks {
    ReadBlocks {
        entry: block_view(b.entry),
        process: block_view(b.process),
        exit: block_view(b.exit),
    }
}

/// What blocks or an error say.
spec fn blocks_result(r: Result<FoundBlocks, ParseError>) -> Result<ReadBlocks, Failure> {
    match r {
        Ok(b) => Ok(found_view(b)),
        Err(e) => Err(e@),
    }
}

/// Reads the blocks between `from` and `end`.
fn parse_blocks<
    I: Fn(&str) -> bool,
    T: Fn(&str) -> Result<usize, String>,
    E: Fn(&str) -> Result<(usize, Vec<ExprStep>), String>,
>(
    asked: &Asked<I, T, E>,
    tokens: &Vec<InputToken>,
    from: usize,
    end: usize,
) -> (r: Result<
    FoundBlocks,
    ParseError,
>)
    requires
        asked.ready(),
        from <= end <= tokens.len(),
    ensures
        forall|p: Parsers| #[trigger]
            asked.are(p) ==> blocks_result(r) == read_blocks(
                p,
                input_views(tokens@),
                from as int,
                end as int,
                no_blocks(),
            ),
{
    let ghost tv = input_views(tokens@);
    let mut b = FoundBlocks { entry: None, process: None, exit: None };
    let mut i: usize = from;
    while i < end
        invariant
            tv == input_views(tokens@),
            asked.ready(),
            from <= i <= end <= tokens.len(),
            forall|p: Parsers| #[trigger]
                asked.are(p) ==> read_blocks(
                    p,
                    tv,
                    i as int,
                    end as int,
                    found_view(b),
                ) == read_blocks(p, tv, from as int, end as int, no_blocks()),
        decreases end - i,
    {
        let key: Option<String> = match take_ident(asked, tokens, i, end) {
            Ok(word) => if same(word.as_str(), "entry") || same(word.as_str(), "process") || same(
                word.as_str(),
                "exit",
            ) {
                Some(word)
            } else {
                None
            },
            Err(_) => None,
        };
        match key {
            Some(word) => {
                if !is_mark(tokens, i + 1, end, ':') {
                    return Err(ParseError::NoColon);
                }
                let (left, steps): (usize, Vec<ExprStep>) = match asked.expr(
                    render(tokens, i + 2, end).as_str(),
                ) {
                    Ok(front) => front,
                    Err(message) => {
                        return Err(ParseError::Syntax(message));
                    },
                };
                let j: usize = match find_piece_end(tokens, i + 2, end, Ok(left)) {
                    Ok(j) => j,
                    Err(e) => {
                        return Err(e);
                    },
                };
                let block = FoundBlock { text: render(tokens, i + 2, j), tree: grow(&steps) };
                if same(word.as_str(), "entry") {
                    b.entry = Some(block);
                } else if same(word.as_str(), "process") {
                    b.process = Some(block);
                } else {
                    b.exit = Some(block);
                }
                i = skip_comma(tokens, j, end);
            },
            None => {
                let j: usize = skip_tree(tokens, i, end);
                i = skip_comma(tokens, j, end);
            },
        }
    }
    Ok(b)
}

/// What a state or an error says.
pub open spec fn state_result(
    r: Result<Option<(StateDefinition, StateBlocks)>, ParseError>,
) -> Result<Option<ReadState>, Failure> {
    match r {
        Ok(Some((s, b))) => Ok(Some(ReadState { state: s@, blocks: b@ })),
        Ok(None) => Ok(None),
        Err(e) => Err(e@),
    }
}

/// Reads the state whose name is at `i`.
fn parse_state<
    I: Fn(&str) -> bool,
    T: Fn(&str) -> Result<usize, String>,
    E: Fn(&str) -> Result<(usize, Vec<ExprStep>), String>,
>(
    asked: &Asked<I, T, E>,
    tokens: &Vec<InputToken>,
    i: usize,
    end: usize,
) -> (r: (
    Result<Option<(StateDefinition, StateBlocks)>, ParseError>,
    usize,
))
    requires
        asked.ready(),
        i < end <= tokens.len(),
    ensures
        forall|p: Parsers| #[trigger]
            asked.are(p) ==> state_result(r.0) == read_state(
                p,
                input_views(tokens@),
                i as int,
                end as int,
            ),
        r.0 is Ok ==> r.1 == past_state(input_views(tokens@), i as int, end as int) && i < r.1
            <= end,
{
    let ghost tv = input_views(tokens@);
    let name: String = match take_ident(asked, tokens, i, end) {
        Ok(name) => name,
        Err(e) => {
            return (Err(e), i);
        },
    };
    let (fields, j): (Vec<(String, String)>, usize) = if is_braces(tokens, i + 1, end) {
        let inner: usize = find_inner_end(tokens, i + 1, end);
        match parse_fields(asked, tokens, i + 2, inner) {
            Ok(fields) => (fields, skip_tree(tokens, i + 1, end)),
            Err(e) => {
                return (Err(e), i);
            },
        }
    } else {
        (Vec::new(), i + 1)
    };
    assert(forall|p: Parsers| #[trigger]
        asked.are(p) ==> state_fields(p, tv, i + 1, end as int) == Ok::<
            Seq<(Seq<char>, Seq<char>)>,
            Failure,
        >(field_views(fields@))) by {
        if !braces_at(tv, i + 1, end as int) {
            assert(field_views(fields@) =~= Seq::empty());
        }
    }
    if !is_arrow(tokens, j, end) {
        return (Err(ParseError::NoArrow), i);
    }
    if !is_braces(tokens, j + 2, end) {
        return (Err(ParseError::NoBraces(j + 2 >= end)), i);
    }
    let inner: usize = find_inner_end(tokens, j + 2, end);
    let blocks: FoundBlocks = match parse_blocks(asked, tokens, j + 3, inner) {
        Ok(blocks) => blocks,
        Err(e) => {
            return (Err(e), i);
        },
    };
    proof {
        lemma_past_state(tv, i as int, end as int);
    }
    let behind: usize = skip_tree(tokens, j + 2, end);
    let next: usize = skip_comma(tokens, behind, end);
    let (entry_block, entry): (Option<String>, Option<ExprTree>) = split(blocks.entry);
    let (exit_block, exit): (Option<String>, Option<ExprTree>) = split(blocks.exit);
    match blocks.process {
        Some(b) => {
            let state = StateDefinition {
                name,
                fields,
                entry_block,
                process_block: b.text,
                exit_block,
            };
            (Ok(Some((state, StateBlocks { entry, process: b.tree, exit }))), next)
        },
        None => (Ok(None), next),
    }
}

/// What states and their blocks say.
pub open spec fn read_view(
    states: Seq<StateDefinition>,
    blocks: Seq<StateBlocks>,
) -> ReadStates {
    ReadStates { states: state_views(states), blocks: blocks_views(blocks) }
}

/// What states with their blocks or an error say.
pub open spec fn states_result(
    r: Result<(Vec<StateDefinition>, Vec<StateBlocks>), ParseError>,
) -> Result<ReadStates, Failure> {
    match r {
        Ok((states, blocks)) => Ok(read_view(states@, blocks@)),
        Err(e) => Err(e@),
    }
}

/// Reads the states between `from` and `end`.
fn parse_states<
    I: Fn(&str) -> bool,
    T: Fn(&str) -> Result<usize, String>,
    E: Fn(&str) -> Result<(usize, Vec<ExprStep>), String>,
>(
    asked: &Asked<I, T, E>,
    tokens: &Vec<InputToken>,
    from: usize,
    end: usize,
) -> (r: Result<
    (Vec<StateDefinition>, Vec<StateBlocks>),
    ParseError,
>)
    requires
        asked.ready(),
        from <= end <= tokens.len(),
    ensures
        forall|p: Parsers| #[trigger]
            asked.are(p) ==> states_result(r) == read_states(
                p,
                input_views(tokens@),
                from as int,
                end as int,
                no_states(),
            ),
        r matches Ok((states, blocks)) ==> blocks@.len() == states@.len(),
{
    let ghost tv = input_views(tokens@);
    let mut states: Vec<StateDefinition> = Vec::new();
    let mut blocks: Vec<StateBlocks> = Vec::new();
    let mut i: usize = from;
    assert(state_views(states@) =~= Seq::empty());
    assert(blocks_views(blocks@) =~= Seq::empty());
    while i < end
        invariant
            tv == input_views(tokens@),
            asked.ready(),
            from <= i <= end <= tokens.len(),
            blocks@.len() == states@.len(),
            forall|p: Parsers| #[trigger]
                asked.are(p) ==> read_states(
                    p,
                    tv,
                    i as int,
                    end as int,
                    read_view(states@, blocks@),
                ) == read_states(p, tv, from as int, end as int, no_states()),
        decreases end - i,
    {
        let (state, next): (
            Result<Option<(StateDefinition, StateBlocks)>, ParseError>,
            usize,
        ) = parse_state(asked, tokens, i, end);
        let ghost states_before = states@;
        let ghost blocks_before = blocks@;
        match state {
            Ok(Some((s, b))) => {
                states.push(s);
                blocks.push(b);
                assert(state_views(states@) =~= state_views(states_before).push(s@));
                assert(blocks_views(blocks@) =~= blocks_views(blocks_before).push(b@));
            },
            Ok(None) => {},
            Err(e) => {
                return Err(e);
            },
        }
        i = next;
    }
    Ok((states, blocks))
}

/// The position of the word `word` at `from` or behind, outside of groups.
fn search_word<
    I: Fn(&str) -> bool,
    T: Fn(&str) -> Result<usize, String>,
    E: Fn(&str) -> Result<(usize, Vec<ExprStep>), String>,
>(
    asked: &Asked<I, T, E>,
    tokens: &Vec<InputToken>,
    from: usize,
    word: &str,
) -> (r: usize)
    requires
        asked.ready(),
        from <= tokens.len(),
    ensures
        forall|p: Parsers| #[trigger]
            asked.are(p) ==> r == find_word(p, input_views(tokens@), from as int, word@),
        from <= r <= tokens.len(),
        no_ident(input_views(tokens@)) ==> r == tokens.len(),
{
    let ghost tv = input_views(tokens@);
    let mut i: usize = from;
    while i < tokens.len()
        invariant
            tv == input_views(tokens@),
            asked.ready(),
            from <= i <= tokens.len(),
            forall|p: Parsers| #[trigger]
                asked.are(p) ==> find_word(p, tv, i as int, word@) == find_word(
                    p,
                    tv,
                    from as int,
                    word@,
                ),
        decreases tokens.len() - i,
    {
        match take_ident(asked, tokens, i, tokens.len()) {
            Ok(text) => {
                if same(text.as_str(), word) {
                    return i;
                }
            },
            Err(_) => {},
        }
        i = skip_tree(tokens, i, tokens.len());
    }
    i
}

/// What a machine or an error says.
pub open spec fn definition_result(r: Result<Definition, ParseError>) -> Result<
    DefinitionView,
    Failure,
> {
    match r {
        Ok(m) => Ok(m@),
        Err(e) => Err(e@),
    }
}

/// Reads the states behind the word `States` at `i`.
fn parse_body<
    I: Fn(&str) -> bool,
    T: Fn(&str) -> Result<usize, String>,
    E: Fn(&str) -> Result<(usize, Vec<ExprStep>), String>,
>(
    asked: &Asked<I, T, E>,
    tokens: &Vec<InputToken>,
    i: usize,
    name: String,
) -> (r: Result<
    Definition,
    ParseError,
>)
    requires
        asked.ready(),
        i <= tokens.len(),
    ensures
        forall|p: Parsers| #[trigger]
            asked.are(p) ==> definition_result(r) == read_body(
                p,
                input_views(tokens@),
                i as int,
                name@,
            ),
        r matches Ok(m) ==> m.blocks@.len() == m.fsm.states@.len(),
{
    let end: usize = tokens.len();
    match take_ident(asked, tokens, i, end) {
        Ok(_) => {},
        Err(e) => {
            return Err(e);
        },
    }
    if !is_mark(tokens, i + 1, end, ':') {
        return Err(ParseError::NoColon);
    }
    if !is_braces(tokens, i + 2, end) {
        return Err(ParseError::NoBraces(i + 2 >= end));
    }
    let inner: usize = find_inner_end(tokens, i + 2, end);
    match parse_states(asked, tokens, i + 3, inner) {
        Ok((states, blocks)) => if skip_tree(tokens, i + 2, end) < end {
            Err(ParseError::Trailing)
        } else {
            Ok(Definition { fsm: FsmDefinition { name, context_type: None, states }, blocks })
        },
        Err(e) => Err(e),
    }
}

/// There is no identifier in `toks`.
pub open spec fn no_ident(toks: Seq<InputView>) -> bool {
    forall|k: int| 0 <= k < toks.len() ==> !(#[trigger] toks[k] is Ident)
}

/// Reads the state machine that `tokens` write down: its name, and its states. What stands
/// before either of them is passed over. The three parsers say which texts are identifiers,
/// and how many tokens and groups follow the type or the expression that a text begins with,
/// and give the steps of a walk through the expression.
pub fn parse_definition_with<
    I: Fn(&str) -> bool,
    T: Fn(&str) -> Result<usize, String>,
    E: Fn(&str) -> Result<(usize, Vec<ExprStep>), String>,
>(tokens: &Vec<InputToken>, is_ident: &I, type_rest: &T, expr_front: &E) -> (r: Result<
    Definition,
    ParseError,
>)
    requires
        can_be_asked(*is_ident, *type_rest, *expr_front),
    ensures
        forall|p: Parsers| #[trigger]
            answer_as(*is_ident, *type_rest, *expr_front, p) ==> definition_result(r) == definition(
                p,
                input_views(tokens@),
            ),
        no_ident(input_views(tokens@)) ==> definition_result(r) == Err::<DefinitionView, Failure>(
            Failure::NoIdent(true),
        ),
        r matches Ok(m) ==> m.blocks@.len() == m.fsm.states@.len(),
{
    let asked = Asked { is_ident, type_rest, expr_front };
    let ghost tv = input_views(tokens@);
    let end: usize = tokens.len();
    let i: usize = search_word(&asked, tokens, 0, "Name");
    assert(forall|p: Parsers| #[trigger]
        answer_as(*is_ident, *type_rest, *expr_front, p) ==> asked.are(p));
    match take_ident(&asked, tokens, i, end) {
        Ok(_) => {},
        Err(e) => {
            return Err(e);
        },
    }
    if !is_mark(tokens, i + 1, end, ':') {
        return Err(ParseError::NoColon);
    }
    match take_ident(&asked, tokens, i + 2, end) {
        Ok(name) => {
            let j: usize = search_word(&asked, tokens, i + 3, "States");
            parse_body(&asked, tokens, j, name)
        },
        Err(e) => Err(e),
    }
}

/// What the parsers of `syn` answer, the one of types answers.
pub(crate) proof fn lemma_syn_types()
    ensures
        forall|p: Parsers| #[trigger] syn_answers_as(p) ==> leaves(parse_type, p.ty),
{
}

/// Reads the state machine that `tokens` write down, with the parsers of `syn`.
pub fn parse_definition(tokens: &Vec<InputToken>) -> (r: Result<Definition, ParseError>)
    ensures
        forall|p: Parsers| #[trigger]
            syn_answers_as(p) ==> definition_result(r) == definition(p, input_views(tokens@)),
        no_ident(input_views(tokens@)) ==> definition_result(r) == Err::<DefinitionView, Failure>(
            Failure::NoIdent(true),
        ),
        r matches Ok(m) ==> m.blocks@.len() == m.fsm.states@.len(),
{
    parse_definition_with(tokens, &is_identifier, &parse_type, &parse_expr)
}

/// Whether `type_rest` takes the whole of `text`.
pub fn takes_all<T: Fn(&str) -> Result<usize, String>>(text: &str, type_rest: &T) -> (r: bool)
    requires
        forall|x: &str| #[trigger] call_requires(*type_rest, (x,)),
    ensures
        forall|g: spec_fn(Seq<char>) -> Result<nat, Seq<char>>| #[trigger]
            leaves(*type_rest, g) ==> r == (g(text@) == Ok::<nat, Seq<char>>(0)),
{
    assert(call_requires(*type_rest, (text,)));
    match type_rest(text) {
        Ok(left) => left == 0,
        Err(_) => false,
    }
}

} // verus!
