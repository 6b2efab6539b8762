//! The parser: from the tokens of an expression to its syntax tree.
use crate::ast::node::{
    current_state, eqfilter, identity, nodes_view, number, path, positions_below, replace, string,
    Ast, Node, NodeKind,
};
use crate::error::{validation_error, ErrorKind, ErrorModel, NmpolicyError};
use crate::lex::tokens::{
    lemma_lex_all_positions, lex_all, results_view, tokenize, Token, TokenModel,
};
use crate::text::byte_len;
use vstd::prelude::*;
use vstd::string::*;

verus! {

/// What can be wrong with the tokens of an expression.
pub enum ParseFault {
    UnexpectedToken(Seq<char>),
    PathUnexpectedTokenAfterDot,
    PathMissingDot,
    TernaryMissingLeftHand(Seq<char>),
    TernaryUnexpectedLeftHand(Seq<char>),
    TernaryMissingRightHand(Seq<char>),
    TernaryUnexpectedRightHand(Seq<char>),
    PipeMissingLeftExpression,
    PipeMissingRightExpression,
    PipeMissingLeftPath,
}

impl ParseFault {
    pub open spec fn message(self) -> Seq<char> {
        match self {
            ParseFault::UnexpectedToken(literal) => "invalid expression: unexpected token `"@
                + literal + "`"@,
            ParseFault::PathUnexpectedTokenAfterDot =>
                "invalid path: missing identity or number after dot"@,
            ParseFault::PathMissingDot => "invalid path: missing dot"@,
            ParseFault::TernaryMissingLeftHand(operator) => "invalid "@ + operator
                + ": missing left hand argument"@,
            ParseFault::TernaryUnexpectedLeftHand(operator) => "invalid "@ + operator
                + ": left hand argument is not a path"@,
            ParseFault::TernaryMissingRightHand(operator) => "invalid "@ + operator
                + ": missing right hand argument"@,
            ParseFault::TernaryUnexpectedRightHand(operator) => "invalid "@ + operator
                + ": right hand argument is not a string or identity"@,
            ParseFault::PipeMissingLeftExpression => "invalid pipe: missing pipe in expression"@,
            ParseFault::PipeMissingRightExpression =>
                "invalid pipe: missing pipe out expression"@,
            ParseFault::PipeMissingLeftPath => "invalid pipe: only paths can be piped in"@,
        }
    }

    /// The error for a fault: a validation error with the fault's message.
    pub open spec fn error(self) -> ErrorModel {
        ErrorModel::plain(ErrorKind::ValidationError, self.message())
    }
}

/// The input of the parser: what the lexer yields.
pub type Input = Seq<Result<TokenModel, ErrorModel>>;

pub open spec fn token_at(tokens: Input, i: int) -> Option<Result<TokenModel, ErrorModel>> {
    if 0 <= i < tokens.len() {
        Some(tokens[i])
    } else {
        None
    }
}

/// The number that a number token gives in the syntax tree, where numbers
/// are 32 bits wide with a sign: the value itself, and for a value above the
/// largest of these the value that the same 32 bits give with a sign.
pub open spec fn number_literal(n: int) -> int {
    if n > i32::MAX {
        n - 0x1_0000_0000
    } else {
        n
    }
}

/// How the steps of a path end: with the steps and the index of the first
/// token that is not part of the path, or with an error and the index of the
/// token that was read last.
pub enum StepsOutcome {
    Done(Seq<Ast>, int),
    Failed(ErrorModel, int),
}

/// The steps of a path from token `i` on, after the steps already read. Each
/// further step is a dot and an identifier or a number. The path ends at the
/// end of the input or before an operator.
pub open spec fn parse_steps(tokens: Input, i: int, steps: Seq<Ast>) -> StepsOutcome
    decreases tokens.len() - i,
{
    match token_at(tokens, i) {
        None => StepsOutcome::Done(steps, i),
        Some(Err(e)) => StepsOutcome::Failed(e, i - 1),
        Some(Ok(TokenModel::Dot(_))) => match token_at(tokens, i + 1) {
            Some(Ok(TokenModel::Identity(pos, name))) => parse_steps(
                tokens,
                i + 2,
                steps.push(Ast::Identity(pos, name)),
            ),
            Some(Ok(TokenModel::Number(pos, n))) => parse_steps(
                tokens,
                i + 2,
                steps.push(Ast::Number(pos, number_literal(n))),
            ),
            Some(Ok(_)) => StepsOutcome::Failed(
                ParseFault::PathUnexpectedTokenAfterDot.error(),
                i + 1,
            ),
            Some(Err(e)) => StepsOutcome::Failed(e, i),
            None => StepsOutcome::Failed(ParseFault::PathUnexpectedTokenAfterDot.error(), i),
        },
        Some(Ok(TokenModel::EqFilter(_))) => StepsOutcome::Done(steps, i),
        Some(Ok(TokenModel::Replace(_))) => StepsOutcome::Done(steps, i),
        Some(Ok(TokenModel::Merge(_))) => StepsOutcome::Done(steps, i),
        Some(Ok(TokenModel::Pipe(_))) => StepsOutcome::Done(steps, i),
        Some(Ok(_)) => StepsOutcome::Failed(ParseFault::PathMissingDot.error(), i),
    }
}

/// How the arguments of an operator end: with the input source, the target
/// path, the value and the index of the token after them, or with an error
/// and the index of the token that was read last.
pub enum TernaryOutcome {
    Done(Ast, Ast, Ast, int),
    Failed(ErrorModel, int),
}

/// The three arguments of the operator at token `i`. The tree built so far
/// has to be a path: it is the target. The input source is the path that was
/// piped in, or else the current state. The value is the string or the path
/// that follows the operator.
pub open spec fn parse_ternary(
    tokens: Input,
    i: int,
    root: Option<Ast>,
    piped: Option<Ast>,
    operator: Seq<char>,
) -> TernaryOutcome {
    match root {
        None => TernaryOutcome::Failed(ParseFault::TernaryMissingLeftHand(operator).error(), i),
        Some(target) => if target is Path {
            let source = match piped {
                Some(p) => p,
                None => Ast::current_state(0),
            };
            match token_at(tokens, i + 1) {
                Some(Ok(TokenModel::Str(pos, text))) => TernaryOutcome::Done(
                    source,
                    target,
                    Ast::Str(pos, text),
                    i + 2,
                ),
                Some(Ok(TokenModel::Identity(pos, name))) => match parse_steps(
                    tokens,
                    i + 2,
                    seq![Ast::Identity(pos, name)],
                ) {
                    StepsOutcome::Done(steps, next) => TernaryOutcome::Done(
                        source,
                        target,
                        Ast::Path(pos, steps),
                        next,
                    ),
                    StepsOutcome::Failed(e, cur) => TernaryOutcome::Failed(e, cur),
                },
                Some(Ok(_)) => TernaryOutcome::Failed(
                    ParseFault::TernaryUnexpectedRightHand(operator).error(),
                    i + 1,
                ),
                Some(Err(e)) => TernaryOutcome::Failed(e, i),
                None => TernaryOutcome::Failed(
                    ParseFault::TernaryMissingRightHand(operator).error(),
                    i,
                ),
            }
        } else {
            TernaryOutcome::Failed(ParseFault::TernaryUnexpectedLeftHand(operator).error(), i)
        },
    }
}

/// What one item of an expression leaves: the index of the token after it,
/// the tree built so far and the path that waits to be piped in; or an error
/// and the index of the token that was read last.
pub enum ItemOutcome {
    Continue(int, Option<Ast>, Option<Ast>),
    Failed(ErrorModel, int),
}

/// The item that starts with `token`, which is token `i`.
pub open spec fn parse_item(
    tokens: Input,
    i: int,
    token: TokenModel,
    root: Option<Ast>,
    piped: Option<Ast>,
) -> ItemOutcome {
    match token {
        TokenModel::Identity(pos, name) => match parse_steps(
            tokens,
            i + 1,
            seq![Ast::Identity(pos, name)],
        ) {
            StepsOutcome::Done(steps, next) => ItemOutcome::Continue(
                next,
                Some(Ast::Path(pos, steps)),
                piped,
            ),
            StepsOutcome::Failed(e, cur) => ItemOutcome::Failed(e, cur),
        },
        TokenModel::Str(pos, text) => ItemOutcome::Continue(i + 1, Some(Ast::Str(pos, text)), piped),
        TokenModel::EqFilter(pos) => match parse_ternary(
            tokens,
            i,
            root,
            piped,
            "equality filter"@,
        ) {
            TernaryOutcome::Done(source, target, value, next) => ItemOutcome::Continue(
                next,
                Some(Ast::EqFilter(pos, Box::new(source), Box::new(target), Box::new(value))),
                None,
            ),
            TernaryOutcome::Failed(e, cur) => ItemOutcome::Failed(e, cur),
        },
        TokenModel::Replace(pos) => match parse_ternary(tokens, i, root, piped, "replace"@) {
            TernaryOutcome::Done(source, target, value, next) => ItemOutcome::Continue(
                next,
                Some(Ast::Replace(pos, Box::new(source), Box::new(target), Box::new(value))),
                None,
            ),
            TernaryOutcome::Failed(e, cur) => ItemOutcome::Failed(e, cur),
        },
        TokenModel::Pipe(_) => match root {
            Some(left) => if left is Path {
                ItemOutcome::Continue(i + 1, root, root)
            } else {
                ItemOutcome::Failed(ParseFault::PipeMissingLeftPath.error(), i)
            },
            None => ItemOutcome::Failed(ParseFault::PipeMissingLeftExpression.error(), i),
        },
        other => ItemOutcome::Failed(ParseFault::UnexpectedToken(other.literal()).error(), i),
    }
}

/// How the parse ends: with the tree, if the expression has one, or with an
/// error and the index of the token that was read last.
pub enum Outcome {
    Parsed(Option<Ast>),
    Failed(ErrorModel, int),
}

/// The items from token `i` on, one after the other. At the end of the input
/// no path may still wait to be piped in.
pub open spec fn parse_items(tokens: Input, i: int, root: Option<Ast>, piped: Option<Ast>)
    -> Outcome
    decreases tokens.len() - i,
{
    match token_at(tokens, i) {
        None => match piped {
            None => Outcome::Parsed(root),
            Some(_) => Outcome::Failed(ParseFault::PipeMissingRightExpression.error(), i - 1),
        },
        Some(Err(e)) => Outcome::Failed(e, i - 1),
        Some(Ok(token)) => match parse_item(tokens, i, token, root, piped) {
            ItemOutcome::Continue(next, new_root, new_piped) => if i < next <= tokens.len() {
                parse_items(tokens, next, new_root, new_piped)
            } else {
                Outcome::Parsed(None)
            },
            ItemOutcome::Failed(e, cur) => Outcome::Failed(e, cur),
        },
    }
}

/// An error of the parse gets the expression and the position of the token
/// that was read last, if one was read.
pub open spec fn located(expression: Seq<char>, tokens: Input, e: ErrorModel, cur: int)
    -> ErrorModel {
    match token_at(tokens, cur) {
        Some(Ok(token)) => e.decorate(expression, token.pos()),
        _ => e,
    }
}

/// The syntax tree of the tokens of an expression: `None` for no tokens at
/// all.
pub open spec fn parse(expression: Seq<char>, tokens: Input) -> Result<Option<Ast>, ErrorModel> {
    match parse_items(tokens, 0, None, None) {
        Outcome::Parsed(root) => Ok(root),
        Outcome::Failed(e, cur) => Err(located(expression, tokens, e, cur)),
    }
}

/// The steps of a path end after the place where they began to be read.
pub proof fn lemma_parse_steps_bounds(tokens: Input, i: int, steps: Seq<Ast>)
    requires
        0 <= i,
    ensures
        match parse_steps(tokens, i, steps) {
            StepsOutcome::Done(found, next) => i <= next <= tokens.len() || (next == i && i
                > tokens.len()),
            StepsOutcome::Failed(_, cur) => i - 1 <= cur < tokens.len(),
        },
    decreases tokens.len() - i,
{
    match token_at(tokens, i) {
        Some(Ok(TokenModel::Dot(_))) => match token_at(tokens, i + 1) {
            Some(Ok(TokenModel::Identity(pos, name))) => {
                lemma_parse_steps_bounds(tokens, i + 2, steps.push(Ast::Identity(pos, name)));
            },
            Some(Ok(TokenModel::Number(pos, n))) => {
                lemma_parse_steps_bounds(
                    tokens,
                    i + 2,
                    steps.push(Ast::Number(pos, number_literal(n))),
                );
            },
            _ => {},
        },
        _ => {},
    }
}

/// An item ends after the token it starts with.
pub proof fn lemma_parse_item_bounds(
    tokens: Input,
    i: int,
    token: TokenModel,
    root: Option<Ast>,
    piped: Option<Ast>,
)
    requires
        0 <= i < tokens.len(),
    ensures
        match parse_item(tokens, i, token, root, piped) {
            ItemOutcome::Continue(next, _, _) => i < next <= tokens.len(),
            ItemOutcome::Failed(_, cur) => i <= cur < tokens.len(),
        },
{
    match token {
        TokenModel::Identity(pos, name) => {
            lemma_parse_steps_bounds(tokens, i + 1, seq![Ast::Identity(pos, name)]);
        },
        TokenModel::EqFilter(_) | TokenModel::Replace(_) => {
            match token_at(tokens, i + 1) {
                Some(Ok(TokenModel::Identity(pos, name))) => {
                    lemma_parse_steps_bounds(tokens, i + 2, seq![Ast::Identity(pos, name)]);
                },
                _ => {},
            }
        },
        _ => {},
    }
}


/// The input belongs to the expression: every token starts below `limit`,
/// and an error in it records the expression and a position below `limit`.
pub open spec fn input_within(tokens: Input, expression: Seq<char>, limit: nat) -> bool {
    forall|k: int|
        0 <= k < tokens.len() ==> match #[trigger] tokens[k] {
            Ok(token) => token.pos() < limit,
            Err(e) => e.expression == Some(expression) && e.pos < limit,
        }
}

/// Every token before index `i` is a token, not an error.
pub open spec fn tokens_before(tokens: Input, i: int) -> bool {
    forall|k: int| 0 <= k < i && k < tokens.len() ==> (#[trigger] tokens[k]) is Ok
}

/// The error, once it is located, records the expression and a position
/// below `limit`.
pub open spec fn well_located(
    expression: Seq<char>,
    tokens: Input,
    e: ErrorModel,
    cur: int,
    limit: nat,
) -> bool {
    located(expression, tokens, e, cur).expression == Some(expression) && located(
        expression,
        tokens,
        e,
        cur,
    ).pos < limit
}

proof fn lemma_parse_steps_sound(
    expression: Seq<char>,
    tokens: Input,
    i: int,
    steps: Seq<Ast>,
    limit: nat,
)
    requires
        input_within(tokens, expression, limit),
        1 <= i,
        tokens_before(tokens, i),
        forall|j: int| 0 <= j < steps.len() ==> positions_below(#[trigger] steps[j], limit),
    ensures
        match parse_steps(tokens, i, steps) {
            StepsOutcome::Done(found, next) => i <= next && tokens_before(tokens, next) && forall|
                j: int,
            | 0 <= j < found.len() ==> positions_below(#[trigger] found[j], limit),
            StepsOutcome::Failed(e, cur) => well_located(expression, tokens, e, cur, limit),
        },
    decreases tokens.len() - i,
{
    match token_at(tokens, i) {
        Some(Ok(TokenModel::Dot(_))) => match token_at(tokens, i + 1) {
            Some(Ok(TokenModel::Identity(pos, name))) => {
                let more = steps.push(Ast::Identity(pos, name));
                assert(tokens[i + 1] is Ok);
                assert(tokens[i] is Ok);
                lemma_parse_steps_sound(expression, tokens, i + 2, more, limit);
            },
            Some(Ok(TokenModel::Number(pos, n))) => {
                let more = steps.push(Ast::Number(pos, number_literal(n)));
                assert(tokens[i + 1] is Ok);
                assert(tokens[i] is Ok);
                lemma_parse_steps_sound(expression, tokens, i + 2, more, limit);
            },
            Some(Ok(_)) => {
                assert(tokens[i + 1] is Ok);
            },
            Some(Err(e)) => {
                assert(tokens[i + 1] is Err);
                assert(tokens[i] is Ok);
            },
            None => {
                assert(tokens[i] is Ok);
            },
        },
        Some(Err(e)) => {
            assert(tokens[i] is Err);
            if i - 1 < tokens.len() {
                assert(tokens[i - 1] is Ok);
            }
        },
        Some(Ok(_)) => {
            assert(tokens[i] is Ok);
        },
        None => {},
    }
}

proof fn lemma_parse_ternary_sound(
    expression: Seq<char>,
    tokens: Input,
    i: int,
    root: Option<Ast>,
    piped: Option<Ast>,
    operator: Seq<char>,
    limit: nat,
)
    requires
        input_within(tokens, expression, limit),
        0 <= i < tokens.len(),
        tokens_before(tokens, i + 1),
        root matches Some(a) ==> positions_below(a, limit),
        piped matches Some(a) ==> positions_below(a, limit),
    ensures
        match parse_ternary(tokens, i, root, piped, operator) {
            TernaryOutcome::Done(source, target, value, next) => i < next && tokens_before(
                tokens,
                next,
            ) && positions_below(source, limit) && positions_below(target, limit)
                && positions_below(value, limit),
            TernaryOutcome::Failed(e, cur) => well_located(expression, tokens, e, cur, limit),
        },
{
    assert(tokens[i] is Ok);
    match token_at(tokens, i + 1) {
        Some(Ok(TokenModel::Identity(pos, name))) => {
            assert(tokens[i + 1] is Ok);
            lemma_parse_steps_sound(
                expression,
                tokens,
                i + 2,
                seq![Ast::Identity(pos, name)],
                limit,
            );
        },
        Some(Ok(_)) => {
            assert(tokens[i + 1] is Ok);
        },
        Some(Err(e)) => {
            assert(tokens[i + 1] is Err);
        },
        None => {},
    }
}

proof fn lemma_parse_item_sound(
    expression: Seq<char>,
    tokens: Input,
    i: int,
    token: TokenModel,
    root: Option<Ast>,
    piped: Option<Ast>,
    limit: nat,
)
    requires
        input_within(tokens, expression, limit),
        0 <= i < tokens.len(),
        tokens[i] == Ok::<TokenModel, ErrorModel>(token),
        tokens_before(tokens, i),
        root matches Some(a) ==> positions_below(a, limit),
        piped matches Some(a) ==> positions_below(a, limit),
    ensures
        match parse_item(tokens, i, token, root, piped) {
            ItemOutcome::Continue(next, new_root, new_piped) => i < next && tokens_before(
                tokens,
                next,
            ) && (new_root matches Some(a) ==> positions_below(a, limit)) && (
            new_piped matches Some(a) ==> positions_below(a, limit)),
            ItemOutcome::Failed(e, cur) => well_located(expression, tokens, e, cur, limit),
        },
{
    assert(tokens[i] is Ok);
    assert(tokens_before(tokens, i + 1));
    match token {
        TokenModel::Identity(pos, name) => {
            lemma_parse_steps_sound(
                expression,
                tokens,
                i + 1,
                seq![Ast::Identity(pos, name)],
                limit,
            );
        },
        TokenModel::EqFilter(_) => {
            lemma_parse_ternary_sound(
                expression,
                tokens,
                i,
                root,
                piped,
                "equality filter"@,
                limit,
            );
        },
        TokenModel::Replace(_) => {
            lemma_parse_ternary_sound(expression, tokens, i, root, piped, "replace"@, limit);
        },
        _ => {},
    }
}

proof fn lemma_parse_items_sound(
    expression: Seq<char>,
    tokens: Input,
    i: int,
    root: Option<Ast>,
    piped: Option<Ast>,
    limit: nat,
)
    requires
        input_within(tokens, expression, limit),
        0 <= i,
        tokens_before(tokens, i),
        root matches Some(a) ==> positions_below(a, limit),
        piped matches Some(a) ==> positions_below(a, limit),
        piped is Some ==> 1 <= i <= tokens.len(),
    ensures
        match parse_items(tokens, i, root, piped) {
            Outcome::Parsed(found) => found matches Some(a) ==> positions_below(a, limit),
            Outcome::Failed(e, cur) => well_located(expression, tokens, e, cur, limit),
        },
    decreases tokens.len() - i,
{
    match token_at(tokens, i) {
        None => {
            if piped is Some {
                assert(tokens[i - 1] is Ok);
            }
        },
        Some(Err(e)) => {
            assert(tokens[i] is Err);
            if i >= 1 {
                assert(tokens[i - 1] is Ok);
            }
        },
        Some(Ok(token)) => {
            lemma_parse_item_sound(expression, tokens, i, token, root, piped, limit);
            lemma_parse_item_bounds(tokens, i, token, root, piped);
            match parse_item(tokens, i, token, root, piped) {
                ItemOutcome::Continue(next, new_root, new_piped) => {
                    lemma_parse_items_sound(expression, tokens, next, new_root, new_piped, limit);
                },
                _ => {},
            }
        },
    }
}

/// Of the parse of an input that belongs to an expression: every node of
/// the tree has a position below the limit of the input, and an error
/// records the expression and a position below that limit.
pub proof fn lemma_parse_sound(expression: Seq<char>, tokens: Input, limit: nat)
    requires
        input_within(tokens, expression, limit),
    ensures
        match parse(expression, tokens) {
            Ok(Some(a)) => positions_below(a, limit),
            Ok(None) => true,
            Err(e) => e.expression == Some(expression) && e.pos < limit,
        },
{
    lemma_parse_items_sound(expression, tokens, 0, None, None, limit);
}

/// For every expression, the parse of its tokens gives a tree in which
/// every position lies inside the expression, or an error that records the
/// expression and points inside it.
pub proof fn lemma_parse_positions(expression: Seq<char>)
    ensures
        match parse(expression, lex_all(expression, 0)) {
            Ok(Some(a)) => positions_below(a, byte_len(expression)),
            Ok(None) => true,
            Err(e) => e.expression == Some(expression) && e.pos < byte_len(expression),
        },
{
    lemma_lex_all_positions(expression, 0);
    let tokens = lex_all(expression, 0);
    assert(input_within(tokens, expression, byte_len(expression))) by {
        assert forall|k: int| 0 <= k < tokens.len() implies match #[trigger] tokens[k] {
            Ok(token) => token.pos() < byte_len(expression),
            Err(e) => e.expression == Some(expression) && e.pos < byte_len(expression),
        } by {}
    }
    lemma_parse_sound(expression, tokens, byte_len(expression));
}

/// The tree that an optional node stands for.
pub open spec fn tree_of(node: Option<Box<Node>>) -> Option<Ast> {
    match node {
        Some(n) => Some(n@),
        None => None,
    }
}

/// What the result of a parse stands for.
pub open spec fn parsed_view(r: Result<Option<Box<Node>>, NmpolicyError>) -> Result<
    Option<Ast>,
    ErrorModel,
> {
    match r {
        Ok(node) => Ok(tree_of(node)),
        Err(e) => Err(e@),
    }
}

/// The index before `i` as the index of the token read last: none before the
/// first token.
pub open spec fn index_of_current(current: Option<usize>) -> int {
    match current {
        Some(i) => i as int,
        None => -1,
    }
}

fn before(i: usize) -> (r: Option<usize>)
    ensures
        index_of_current(r) == i - 1,
{
    if i == 0 {
        None
    } else {
        Some(i - 1)
    }
}

/// The number that a number token gives in the syntax tree.
fn literal_of(n: u32) -> (r: i32)
    ensures
        r == number_literal(n as int),
{
    if n <= 2147483647 {
        n as i32
    } else {
        let wide: i64 = n as i64 - 4294967296;
        wide as i32
    }
}

fn clone_tree(node: &Option<Box<Node>>) -> (r: Option<Box<Node>>)
    ensures
        tree_of(r) == tree_of(*node),
{
    match node {
        Some(n) => Some(Box::new((**n).clone())),
        None => None,
    }
}

fn fault_with_operator(head: &str, operator_name: &str, tail: &str) -> (r: NmpolicyError)
    ensures
        r@ == ErrorModel::plain(ErrorKind::ValidationError, head@ + operator_name@ + tail@),
{
    let mut msg = String::from_str(head);
    msg.append(operator_name);
    msg.append(tail);
    validation_error(msg)
}

/// The parser over the tokens of one expression.
pub struct Parser {
    expression: String,
    tokens: Vec<Result<Token, NmpolicyError>>,
    next: usize,
    current: Option<usize>,
    root_node: Option<Box<Node>>,
    piped_in_node: Option<Box<Node>>,
}

impl Parser {
    /// The expression that errors are located in.
    pub closed spec fn source(&self) -> Seq<char> {
        self.expression@
    }

    /// The tokens to parse.
    pub closed spec fn input(&self) -> Input {
        results_view(self.tokens@)
    }

    /// Nothing has been parsed yet.
    pub closed spec fn is_fresh(&self) -> bool {
        &&& self.next == 0
        &&& self.current is None
        &&& self.root_node is None
        &&& self.piped_in_node is None
    }

    closed spec fn cur(&self) -> int {
        index_of_current(self.current)
    }

    closed spec fn root(&self) -> Option<Ast> {
        tree_of(self.root_node)
    }

    closed spec fn piped(&self) -> Option<Ast> {
        tree_of(self.piped_in_node)
    }

    /// The parser reads the same input as `before`.
    closed spec fn same_input(&self, before: &Parser) -> bool {
        &&& self.tokens == before.tokens
        &&& self.expression == before.expression
        &&& self.next <= self.tokens.len()
    }

    /// A parser for the tokens of an expression; the expression itself is
    /// kept to locate errors in it.
    pub fn new(expression: String, tokens: Vec<Result<Token, NmpolicyError>>) -> (r: Self)
        ensures
            r.is_fresh(),
            r.source() == expression@,
            r.input() == results_view(tokens@),
    {
        Self {
            expression,
            tokens,
            next: 0,
            current: None,
            root_node: None,
            piped_in_node: None,
        }
    }

    /// Parses the tokens. An error is located at the token that was read
    /// last.
    pub fn parse(&mut self) -> (r: Result<Option<Box<Node>>, NmpolicyError>)
        requires
            old(self).is_fresh(),
        ensures
            parsed_view(r) == parse(old(self).source(), old(self).input()),
    {
        match self.parse_tokens() {
            Ok(root_node) => Ok(root_node),
            Err(e) => {
                match self.current {
                    Some(i) => {
                        if i < self.tokens.len() {
                            match &self.tokens[i] {
                                Ok(token) => Err(e.decorate(self.expression.clone(), token.pos())),
                                Err(_) => Err(e),
                            }
                        } else {
                            Err(e)
                        }
                    },
                    None => Err(e),
                }
            },
        }
    }

    #[verifier::loop_isolation(false)]
    fn parse_tokens(&mut self) -> (r: Result<Option<Box<Node>>, NmpolicyError>)
        requires
            old(self).next <= old(self).tokens.len(),
        ensures
            final(self).same_input(old(self)),
            match parse_items(
                old(self).input(),
                old(self).next as int,
                old(self).root(),
                old(self).piped(),
            ) {
                Outcome::Parsed(root) => r matches Ok(node) && tree_of(node) == root,
                Outcome::Failed(e, cur) => r matches Err(err) && err@ == e && final(self).cur()
                    == cur,
            },
    {
        let ghost goal = parse_items(
            self.input(),
            self.next as int,
            self.root(),
            self.piped(),
        );
        loop
            invariant
                self.same_input(old(self)),
                parse_items(self.input(), self.next as int, self.root(), self.piped()) == goal,
            decreases self.tokens.len() - self.next,
        {
            if self.next >= self.tokens.len() {
                break ;
            }
            let i = self.next;
            let token = match &self.tokens[i] {
                Err(e) => {
                    let err = e.clone();
                    self.current = before(i);
                    return Err(err);
                },
                Ok(token) => token.clone(),
            };
            proof {
                lemma_parse_item_bounds(self.input(), i as int, token@, self.root(), self.piped());
            }
            self.current = Some(i);
            self.next = i + 1;
            match self.parse_token(token) {
                Ok(()) => {},
                Err(e) => {
                    return Err(e);
                },
            }
        }
        match &self.piped_in_node {
            None => Ok(clone_tree(&self.root_node)),
            Some(_) => {
                self.current = before(self.next);
                Err(validation_error(String::from_str("invalid pipe: missing pipe out expression")))
            },
        }
    }

    fn parse_token(&mut self, token: Token) -> (r: Result<(), NmpolicyError>)
        requires
            1 <= old(self).next <= old(self).tokens.len(),
            old(self).current == Some((old(self).next - 1) as usize),
            old(self).input()[old(self).next - 1] == Ok::<TokenModel, ErrorModel>(token@),
        ensures
            final(self).same_input(old(self)),
            match parse_item(
                old(self).input(),
                old(self).next - 1,
                token@,
                old(self).root(),
                old(self).piped(),
            ) {
                ItemOutcome::Continue(next, root, piped) => r is Ok && final(self).next == next
                    && final(self).root() == root && final(self).piped() == piped,
                ItemOutcome::Failed(e, cur) => r matches Err(err) && err@ == e && final(self).cur()
                    == cur,
            },
    {
        match token {
            Token::Identity(pos, literal) => self.parse_path(pos, literal),
            Token::EqFilter(pos) => self.parse_eqfilter(pos),
            Token::Replace(pos) => self.parse_replace(pos),
            Token::Pipe(pos) => self.parse_pipe(pos),
            Token::Str(pos, literal) => self.parse_string(pos, literal),
            other => {
                proof {
                    lemma_parse_item_bounds(
                        self.input(),
                        self.next - 1,
                        other@,
                        self.root(),
                        self.piped(),
                    );
                }
                Err(
                    fault_with_operator(
                        "invalid expression: unexpected token `",
                        other.literal().as_str(),
                        "`",
                    ),
                )
            },
        }
    }

    #[verifier::loop_isolation(false)]
    fn parse_path(&mut self, pos: usize, literal: String) -> (r: Result<(), NmpolicyError>)
        requires
            old(self).next <= old(self).tokens.len(),
        ensures
            final(self).same_input(old(self)),
            final(self).piped() == old(self).piped(),
            match parse_steps(
                old(self).input(),
                old(self).next as int,
                seq![Ast::Identity(pos as nat, literal@)],
            ) {
                StepsOutcome::Done(steps, next) => r is Ok && final(self).next == next
                    && final(self).root() == Some(Ast::Path(pos as nat, steps)),
                StepsOutcome::Failed(e, cur) => r matches Err(err) && err@ == e && final(self).cur() == cur,
            },
    {
        let ghost goal = parse_steps(
            self.input(),
            self.next as int,
            seq![Ast::Identity(pos as nat, literal@)],
        );
        let ghost first = literal@;
        let mut steps: Vec<Node> = Vec::new();
        steps.push(Node { pos, kind: NodeKind::Identity(literal) });
        proof {
            assert(nodes_view(steps@) =~= seq![Ast::Identity(pos as nat, first)]);
        }
        loop
            invariant
                self.same_input(old(self)),
                self.piped() == old(self).piped(),
                parse_steps(self.input(), self.next as int, nodes_view(steps@)) == goal,
            decreases self.tokens.len() - self.next,
        {
            if self.next >= self.tokens.len() {
                break ;
            }
            let i = self.next;
            let ghost so_far = nodes_view(steps@);
            match &self.tokens[i] {
                Err(e) => {
                    let err = e.clone();
                    self.current = before(i);
                    return Err(err);
                },
                Ok(Token::Dot(_)) => {
                    if i + 1 >= self.tokens.len() {
                        self.current = Some(i);
                        return Err(
                            validation_error(
                                String::from_str(
                                    "invalid path: missing identity or number after dot",
                                ),
                            ),
                        );
                    }
                    match &self.tokens[i + 1] {
                        Ok(Token::Identity(npos, nliteral)) => {
                            steps.push(
                                Node { pos: *npos, kind: NodeKind::Identity(nliteral.clone()) },
                            );
                            proof {
                                assert(nodes_view(steps@) =~= so_far.push(
                                    Ast::Identity(*npos as nat, nliteral@),
                                ));
                            }
                            self.next = i + 2;
                        },
                        Ok(Token::Number(npos, nliteral)) => {
                            steps.push(
                                Node { pos: *npos, kind: NodeKind::Number(literal_of(*nliteral)) },
                            );
                            proof {
                                assert(nodes_view(steps@) =~= so_far.push(
                                    Ast::Number(*npos as nat, number_literal(*nliteral as int)),
                                ));
                            }
                            self.next = i + 2;
                        },
                        Ok(_) => {
                            self.current = Some(i + 1);
                            return Err(
                                validation_error(
                                    String::from_str(
                                        "invalid path: missing identity or number after dot",
                                    ),
                                ),
                            );
                        },
                        Err(e) => {
                            let err = e.clone();
                            self.current = Some(i);
                            return Err(err);
                        },
                    }
                },
                Ok(Token::EqFilter(_)) | Ok(Token::Replace(_)) | Ok(Token::Merge(_)) | Ok(
                    Token::Pipe(_),
                ) => {
                    break ;
                },
                Ok(_) => {
                    self.current = Some(i);
                    return Err(validation_error(String::from_str("invalid path: missing dot")));
                },
            }
        }
        self.root_node = Some(path(pos, steps));
        Ok(())
    }

    fn parse_string(&mut self, pos: usize, literal: String) -> (r: Result<(), NmpolicyError>)
        requires
            old(self).next <= old(self).tokens.len(),
        ensures
            final(self).same_input(old(self)),
            final(self).next == old(self).next,
            final(self).piped() == old(self).piped(),
            final(self).root() == Some(Ast::Str(pos as nat, literal@)),
            r is Ok,
    {
        self.root_node = Some(string(pos, literal));
        Ok(())
    }

    fn parse_eqfilter(&mut self, pos: usize) -> (r: Result<(), NmpolicyError>)
        requires
            1 <= old(self).next <= old(self).tokens.len(),
            old(self).current == Some((old(self).next - 1) as usize),
        ensures
            final(self).same_input(old(self)),
            match parse_ternary(
                old(self).input(),
                old(self).next - 1,
                old(self).root(),
                old(self).piped(),
                "equality filter"@,
            ) {
                TernaryOutcome::Done(source, target, value, next) => r is Ok && final(self).next
                    == next && final(self).piped() is None && final(self).root() == Some(
                    Ast::EqFilter(pos as nat, Box::new(source), Box::new(target), Box::new(value)),
                ),
                TernaryOutcome::Failed(e, cur) => r matches Err(err) && err@ == e && final(self).cur() == cur,
            },
    {
        match self.fill_in_ternary_operator("equality filter") {
            Ok((value1, value2, value3)) => {
                self.root_node = Some(eqfilter(pos, value1, value2, value3));
                Ok(())
            },
            Err(e) => Err(e),
        }
    }

    fn parse_replace(&mut self, pos: usize) -> (r: Result<(), NmpolicyError>)
        requires
            1 <= old(self).next <= old(self).tokens.len(),
            old(self).current == Some((old(self).next - 1) as usize),
        ensures
            final(self).same_input(old(self)),
            match parse_ternary(
                old(self).input(),
                old(self).next - 1,
                old(self).root(),
                old(self).piped(),
                "replace"@,
            ) {
                TernaryOutcome::Done(source, target, value, next) => r is Ok && final(self).next
                    == next && final(self).piped() is None && final(self).root() == Some(
                    Ast::Replace(pos as nat, Box::new(source), Box::new(target), Box::new(value)),
                ),
                TernaryOutcome::Failed(e, cur) => r matches Err(err) && err@ == e && final(self).cur() == cur,
            },
    {
        match self.fill_in_ternary_operator("replace") {
            Ok((value1, value2, value3)) => {
                self.root_node = Some(replace(pos, value1, value2, value3));
                Ok(())
            },
            Err(e) => Err(e),
        }
    }

    fn parse_pipe(&mut self, pos: usize) -> (r: Result<(), NmpolicyError>)
        requires
            1 <= old(self).next <= old(self).tokens.len(),
            old(self).current == Some((old(self).next - 1) as usize),
        ensures
            final(self).same_input(old(self)),
            final(self).next == old(self).next,
            final(self).root() == old(self).root(),
            match old(self).root() {
                Some(left) => if left is Path {
                    r is Ok && final(self).piped() == old(self).root()
                } else {
                    r matches Err(err) && err@ == ParseFault::PipeMissingLeftPath.error() && final(self).cur() == old(self).next - 1
                },
                None => r matches Err(err) && err@ == ParseFault::PipeMissingLeftExpression.error()
                    && final(self).cur() == old(self).next - 1,
            },
    {
        match &self.root_node {
            Some(root_node) => match &root_node.kind {
                NodeKind::Path(_) => {
                    self.piped_in_node = clone_tree(&self.root_node);
                    Ok(())
                },
                _ => Err(
                    validation_error(String::from_str("invalid pipe: only paths can be piped in")),
                ),
            },
            None => Err(
                validation_error(String::from_str("invalid pipe: missing pipe in expression")),
            ),
        }
    }

    fn fill_in_ternary_operator(&mut self, operator_name: &str) -> (r: Result<
        (Box<Node>, Box<Node>, Box<Node>),
        NmpolicyError,
    >)
        requires
            1 <= old(self).next <= old(self).tokens.len(),
            old(self).current == Some((old(self).next - 1) as usize),
        ensures
            final(self).same_input(old(self)),
            match parse_ternary(
                old(self).input(),
                old(self).next - 1,
                old(self).root(),
                old(self).piped(),
                operator_name@,
            ) {
                TernaryOutcome::Done(source, target, value, next) => r matches Ok(values)
                    && values.0@ == source && values.1@ == target && values.2@ == value && final(self).next == next && final(self).piped() is None,
                TernaryOutcome::Failed(e, cur) => r matches Err(err) && err@ == e && final(self).cur() == cur,
            },
    {
        let target: Box<Node> = match &self.root_node {
            None => {
                return Err(
                    fault_with_operator("invalid ", operator_name, ": missing left hand argument"),
                );
            },
            Some(root_node) => match &root_node.kind {
                NodeKind::Path(_) => Box::new((**root_node).clone()),
                _ => {
                    return Err(
                        fault_with_operator(
                            "invalid ",
                            operator_name,
                            ": left hand argument is not a path",
                        ),
                    );
                },
            },
        };
        let source: Box<Node> = match self.piped_in_node.take() {
            Some(piped_in_node) => piped_in_node,
            None => current_state(0),
        };
        let i = self.next;
        if i >= self.tokens.len() {
            return Err(
                fault_with_operator("invalid ", operator_name, ": missing right hand argument"),
            );
        }
        match &self.tokens[i] {
            Ok(Token::Str(pos, literal)) => {
                let value = string(*pos, literal.clone());
                self.current = Some(i);
                self.next = i + 1;
                Ok((source, target, value))
            },
            Ok(Token::Identity(pos, literal)) => {
                let first_pos = *pos;
                let first = literal.clone();
                self.current = Some(i);
                self.next = i + 1;
                match self.parse_path(first_pos, first) {
                    Ok(()) => match self.root_node.take() {
                        Some(value) => Ok((source, target, value)),
                        None => Err(NmpolicyError::new(ErrorKind::Bug)),
                    },
                    Err(e) => Err(e),
                }
            },
            Ok(_) => {
                self.current = Some(i);
                Err(
                    fault_with_operator(
                        "invalid ",
                        operator_name,
                        ": right hand argument is not a string or identity",
                    ),
                )
            },
            Err(e) => Err(e.clone()),
        }
    }
}

/// The syntax tree of an expression: what the parser gives for the tokens
/// that the lexer yields for it.
pub fn parse_expression(expression: &str) -> (r: Result<Option<Box<Node>>, NmpolicyError>)
    ensures
        parsed_view(r) == parse(expression@, lex_all(expression@, 0)),
{
    let tokens = tokenize(expression);
    let mut parser = Parser::new(expression.to_owned(), tokens);
    parser.parse()
}

} // verus!
