//! The error type of the crate: a kind, a message, and optionally the
//! expression and the byte position that the message is about.
use crate::snippet::{snippet, snippet_text};
use crate::text::{byte_len, is_substring, str_contains};
use vstd::prelude::*;
use vstd::string::*;

verus! {

#[derive(Debug, Clone, Copy, PartialEq, Eq, Structural)]
#[non_exhaustive]
pub enum ErrorKind {
    ValidationError,
    EvaluationError,
    Bug,
    NotImplementedError,
    NotSupportedError,
}

/// What an error holds, as plain mathematical values.
pub struct ErrorModel {
    pub kind: ErrorKind,
    pub expression: Option<Seq<char>>,
    pub pos: nat,
    pub msg: Seq<char>,
}

impl ErrorModel {
    /// An error of the given kind with a message and nothing else.
    pub open spec fn plain(kind: ErrorKind, msg: Seq<char>) -> ErrorModel {
        ErrorModel { kind, expression: None, pos: 0, msg }
    }

    /// The position is written once: a position other than zero stays.
    pub open spec fn pos(self, pos: nat) -> ErrorModel {
        if self.pos == 0 {
            ErrorModel { pos, ..self }
        } else {
            self
        }
    }

    pub open spec fn expression(self, expression: Option<Seq<char>>) -> ErrorModel {
        ErrorModel { expression, ..self }
    }

    pub open spec fn decorate(self, expression: Seq<char>, pos: nat) -> ErrorModel {
        self.expression(Some(expression)).pos(pos)
    }

    /// A context is put in front of the message unless the message holds it
    /// already.
    pub open spec fn ctx(self, ctx: Seq<char>) -> ErrorModel {
        if is_substring(ctx, self.msg) {
            self
        } else {
            ErrorModel { msg: ctx + ": "@ + self.msg, ..self }
        }
    }

    pub open spec fn resolver(self) -> ErrorModel {
        self.ctx("resolve error"@)
    }

    pub open spec fn eqfilter(self) -> ErrorModel {
        self.ctx("eqfilter error"@)
    }

    pub open spec fn replace(self) -> ErrorModel {
        self.ctx("replace error"@)
    }

    pub open spec fn path(self, pos: nat) -> ErrorModel {
        self.pos(pos).ctx("invalid path"@)
    }

    /// The position for an error that is not yet tied to an expression; one
    /// that is tied to an expression keeps its position.
    pub open spec fn locate(self, pos: nat) -> ErrorModel {
        if self.expression is None {
            self.pos(pos)
        } else {
            self
        }
    }

    /// The expression for an error that is not yet tied to one.
    pub open spec fn within(self, expression: Seq<char>) -> ErrorModel {
        if self.expression is None {
            self.expression(Some(expression))
        } else {
            self
        }
    }

    /// The text shown to a user: the message, and under it the source
    /// pointer when an expression is recorded.
    pub open spec fn rendered(self) -> Seq<char> {
        match self.expression {
            Some(expression) => self.msg + "\n"@ + snippet_text(expression, self.pos),
            None => self.msg,
        }
    }
}

/// The error points inside the expression it is tied to; an error that is
/// tied to no expression points nowhere.
pub open spec fn placed(e: ErrorModel) -> bool {
    match e.expression {
        Some(expression) => e.pos < byte_len(expression),
        None => e.pos == 0,
    }
}

/// The error points inside the expression it is tied to; an error that is
/// not tied to an expression yet points below `limit`.
pub open spec fn placed_below(e: ErrorModel, limit: nat) -> bool {
    match e.expression {
        Some(expression) => e.pos < byte_len(expression),
        None => e.pos < limit,
    }
}

/// A context is never put in front twice.
pub proof fn lemma_ctx_once(e: ErrorModel, ctx: Seq<char>)
    ensures
        e.ctx(ctx).ctx(ctx) == e.ctx(ctx),
{
    if !is_substring(ctx, e.msg) {
        let msg = ctx + ": "@ + e.msg;
        assert(msg.subrange(0int, 0int + ctx.len()) =~= ctx);
    }
}

/// A position other than zero that is written stays, whatever is written
/// after it.
pub proof fn lemma_pos_once(e: ErrorModel, first: nat, second: nat)
    requires
        first != 0,
    ensures
        e.pos(first).pos(second) == e.pos(first),
{
}

#[derive(Debug, PartialEq, Eq)]
pub struct NmpolicyError {
    kind: ErrorKind,
    expression: Option<String>,
    pos: usize,
    msg: String,
}

impl View for NmpolicyError {
    type V = ErrorModel;

    closed spec fn view(&self) -> ErrorModel {
        ErrorModel {
            kind: self.kind,
            expression: match self.expression {
                Some(e) => Some(e@),
                None => None,
            },
            pos: self.pos as nat,
            msg: self.msg@,
        }
    }
}

impl Clone for NmpolicyError {
    fn clone(&self) -> (r: Self)
        ensures
            r@ == self@,
    {
        NmpolicyError {
            kind: self.kind,
            expression: match &self.expression {
                Some(e) => Some(e.clone()),
                None => None,
            },
            pos: self.pos,
            msg: self.msg.clone(),
        }
    }
}

impl NmpolicyError {
    pub fn new(kind: ErrorKind) -> (r: Self)
        ensures
            r@ == ErrorModel::plain(kind, Seq::empty()),
    {
        Self { kind, expression: None, pos: 0, msg: String::new() }
    }

    pub fn kind(&self) -> (r: ErrorKind)
        ensures
            r == self@.kind,
    {
        self.kind
    }

    /// The message without the source pointer.
    pub fn message(&self) -> (r: String)
        ensures
            r@ == self@.msg,
    {
        self.msg.clone()
    }

    /// The recorded byte position, zero when none was written.
    pub fn position(&self) -> (r: usize)
        ensures
            r == self@.pos,
    {
        self.pos
    }

    /// The recorded expression.
    pub fn source(&self) -> (r: Option<String>)
        ensures
            r is Some == self@.expression is Some,
            r matches Some(e) ==> e@ == self@.expression->0,
    {
        match &self.expression {
            Some(e) => Some(e.clone()),
            None => None,
        }
    }

    pub fn decorate(self, expression: String, pos: usize) -> (r: Self)
        ensures
            r@ == self@.decorate(expression@, pos as nat),
    {
        self.expression(Some(expression)).pos(pos)
    }

    pub fn ctx(self, ctx: String) -> (r: Self)
        ensures
            r@ == self@.ctx(ctx@),
    {
        if str_contains(self.msg.as_str(), ctx.as_str()) {
            self
        } else {
            let mut msg = ctx;
            msg.append(": ");
            msg.append(self.msg.as_str());
            Self { kind: self.kind, expression: self.expression, pos: self.pos, msg }
        }
    }

    pub fn pos(self, pos: usize) -> (r: Self)
        ensures
            r@ == self@.pos(pos as nat),
    {
        if self.pos == 0 {
            Self { kind: self.kind, expression: self.expression, pos, msg: self.msg }
        } else {
            self
        }
    }

    pub fn expression(self, expression: Option<String>) -> (r: Self)
        ensures
            r@ == self@.expression(
                match expression {
                    Some(e) => Some(e@),
                    None => None,
                },
            ),
    {
        Self { kind: self.kind, expression, pos: self.pos, msg: self.msg }
    }

    /// Writes the position unless the error is tied to an expression already.
    pub fn locate(self, pos: usize) -> (r: Self)
        ensures
            r@ == self@.locate(pos as nat),
    {
        if self.expression.is_none() {
            self.pos(pos)
        } else {
            self
        }
    }

    /// Ties the error to an expression unless it is tied to one already.
    pub fn within(self, expression: String) -> (r: Self)
        ensures
            r@ == self@.within(expression@),
    {
        if self.expression.is_none() {
            self.expression(Some(expression))
        } else {
            self
        }
    }

    pub fn resolver(self) -> (r: Self)
        ensures
            r@ == self@.resolver(),
    {
        self.ctx(String::from_str("resolve error"))
    }

    pub fn eqfilter(self) -> (r: Self)
        ensures
            r@ == self@.eqfilter(),
    {
        self.ctx(String::from_str("eqfilter error"))
    }

    pub fn replace(self) -> (r: Self)
        ensures
            r@ == self@.replace(),
    {
        self.ctx(String::from_str("replace error"))
    }

    pub fn path(self, pos: usize) -> (r: Self)
        ensures
            r@ == self@.path(pos as nat),
    {
        self.pos(pos).ctx(String::from_str("invalid path"))
    }

    /// The text shown to a user: the message, then the source pointer on the
    /// lines below it when an expression is recorded.
    pub fn to_string(&self) -> (r: String)
        ensures
            r@ == self@.rendered(),
    {
        match &self.expression {
            Some(expression) => {
                let mut out = self.msg.clone();
                out.append("\n");
                let pointer = snippet(expression.clone(), self.pos);
                out.append(pointer.as_str());
                out
            },
            None => self.msg.clone(),
        }
    }
}

/// A message alone becomes an evaluation error.
impl From<String> for NmpolicyError {
    fn from(msg: String) -> (r: NmpolicyError)
        ensures
            r@ == ErrorModel::plain(ErrorKind::EvaluationError, msg@),
    {
        NmpolicyError { kind: ErrorKind::EvaluationError, expression: None, pos: 0, msg }
    }
}

impl vstd::std_specs::convert::FromSpecImpl<String> for NmpolicyError {
    open spec fn obeys_from_spec() -> bool {
        true
    }

    closed spec fn from_spec(msg: String) -> NmpolicyError {
        NmpolicyError { kind: ErrorKind::EvaluationError, expression: None, pos: 0, msg }
    }
}

pub fn error(kind: ErrorKind, msg: String) -> (r: NmpolicyError)
    ensures
        r@ == ErrorModel::plain(kind, msg@),
{
    NmpolicyError { kind, msg, expression: None, pos: 0 }
}

pub fn validation_error(msg: String) -> (r: NmpolicyError)
    ensures
        r@ == ErrorModel::plain(ErrorKind::ValidationError, msg@),
{
    error(ErrorKind::ValidationError, msg)
}

pub fn evaluation_error(msg: String) -> (r: NmpolicyError)
    ensures
        r@ == ErrorModel::plain(ErrorKind::EvaluationError, msg@),
{
    error(ErrorKind::EvaluationError, msg)
}

} // verus!
