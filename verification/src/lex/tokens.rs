//! The lexer: from the characters of an expression to its tokens.
use crate::error::{validation_error, ErrorKind, ErrorModel, NmpolicyError};
use crate::text::{
    byte_len, byte_offset, int_text, lemma_byte_offset_monotonic, lemma_byte_offset_step,
    push_nat, str_byte_len, to_chars,
};
use vstd::prelude::*;
use vstd::string::*;

verus! {

/// A token as a mathematical value: its kind, what it holds, and the byte
/// position of its first character.
pub enum TokenModel {
    Identity(nat, Seq<char>),
    Number(nat, int),
    Str(nat, Seq<char>),
    Dot(nat),
    Pipe(nat),
    Replace(nat),
    EqFilter(nat),
    Merge(nat),
    True(nat),
    False(nat),
}

impl TokenModel {
    pub open spec fn pos(self) -> nat {
        match self {
            TokenModel::Identity(pos, _) => pos,
            TokenModel::Number(pos, _) => pos,
            TokenModel::Str(pos, _) => pos,
            TokenModel::Dot(pos) => pos,
            TokenModel::Pipe(pos) => pos,
            TokenModel::Replace(pos) => pos,
            TokenModel::EqFilter(pos) => pos,
            TokenModel::Merge(pos) => pos,
            TokenModel::True(pos) => pos,
            TokenModel::False(pos) => pos,
        }
    }

    /// The token as it is written in an expression (a string without its
    /// delimiters).
    pub open spec fn literal(self) -> Seq<char> {
        match self {
            TokenModel::Identity(_, name) => name,
            TokenModel::Number(_, n) => int_text(n),
            TokenModel::Str(_, text) => text,
            TokenModel::Dot(_) => "."@,
            TokenModel::Pipe(_) => "|"@,
            TokenModel::Replace(_) => ":="@,
            TokenModel::EqFilter(_) => "=="@,
            TokenModel::Merge(_) => "+"@,
            TokenModel::True(_) => "true"@,
            TokenModel::False(_) => "false"@,
        }
    }
}

#[derive(Debug, PartialEq, Eq)]
pub enum Token {
    Identity(usize, String),
    Number(usize, u32),
    Str(usize, String),
    Dot(usize),
    Pipe(usize),
    Replace(usize),
    EqFilter(usize),
    Merge(usize),
    True(usize),
    False(usize),
}

impl View for Token {
    type V = TokenModel;

    open spec fn view(&self) -> TokenModel {
        match self {
            Token::Identity(pos, name) => TokenModel::Identity(*pos as nat, name@),
            Token::Number(pos, n) => TokenModel::Number(*pos as nat, *n as int),
            Token::Str(pos, text) => TokenModel::Str(*pos as nat, text@),
            Token::Dot(pos) => TokenModel::Dot(*pos as nat),
            Token::Pipe(pos) => TokenModel::Pipe(*pos as nat),
            Token::Replace(pos) => TokenModel::Replace(*pos as nat),
            Token::EqFilter(pos) => TokenModel::EqFilter(*pos as nat),
            Token::Merge(pos) => TokenModel::Merge(*pos as nat),
            Token::True(pos) => TokenModel::True(*pos as nat),
            Token::False(pos) => TokenModel::False(*pos as nat),
        }
    }
}

impl Clone for Token {
    fn clone(&self) -> (r: Self)
        ensures
            r@ == self@,
    {
        match self {
            Token::Identity(pos, name) => Token::Identity(*pos, name.clone()),
            Token::Number(pos, n) => Token::Number(*pos, *n),
            Token::Str(pos, text) => Token::Str(*pos, text.clone()),
            Token::Dot(pos) => Token::Dot(*pos),
            Token::Pipe(pos) => Token::Pipe(*pos),
            Token::Replace(pos) => Token::Replace(*pos),
            Token::EqFilter(pos) => Token::EqFilter(*pos),
            Token::Merge(pos) => Token::Merge(*pos),
            Token::True(pos) => Token::True(*pos),
            Token::False(pos) => Token::False(*pos),
        }
    }
}

impl Token {
    pub fn pos(&self) -> (r: usize)
        ensures
            r == self@.pos(),
    {
        match self {
            Token::Identity(pos, _) => *pos,
            Token::Number(pos, _) => *pos,
            Token::Str(pos, _) => *pos,
            Token::Dot(pos) => *pos,
            Token::Pipe(pos) => *pos,
            Token::Replace(pos) => *pos,
            Token::EqFilter(pos) => *pos,
            Token::Merge(pos) => *pos,
            Token::True(pos) => *pos,
            Token::False(pos) => *pos,
        }
    }

    pub fn literal(&self) -> (r: String)
        ensures
            r@ == self@.literal(),
    {
        match self {
            Token::Identity(_, name) => name.clone(),
            Token::Number(_, n) => {
                let mut out = String::new();
                push_nat(&mut out, *n as u64);
                out
            },
            Token::Str(_, text) => text.clone(),
            Token::Dot(_) => String::from_str("."),
            Token::Pipe(_) => String::from_str("|"),
            Token::Replace(_) => String::from_str(":="),
            Token::EqFilter(_) => String::from_str("=="),
            Token::Merge(_) => String::from_str("+"),
            Token::True(_) => String::from_str("true"),
            Token::False(_) => String::from_str("false"),
        }
    }
}

pub open spec fn is_digit(c: char) -> bool {
    '0' <= c <= '9'
}

pub open spec fn is_letter(c: char) -> bool {
    ('a' <= c <= 'z') || ('A' <= c <= 'Z')
}

/// The characters that may follow a number or an identifier.
pub open spec fn is_terminator(c: char) -> bool {
    c == ' ' || c == '.' || c == ':' || c == '+' || c == '|' || c == '='
}

/// The characters of an identifier after its first letter.
pub open spec fn is_identity_char(c: char) -> bool {
    is_letter(c) || is_digit(c) || c == '-'
}

/// The first index from `i` on whose character does not satisfy `p`; the
/// length of `s` when every character from `i` on satisfies it.
pub open spec fn run_end(s: Seq<char>, i: int, p: spec_fn(char) -> bool) -> int
    decreases s.len() - i,
{
    if 0 <= i < s.len() && p(s[i]) {
        run_end(s, i + 1, p)
    } else {
        i
    }
}

pub proof fn lemma_run_end(s: Seq<char>, i: int, j: int, p: spec_fn(char) -> bool)
    requires
        0 <= i <= j <= s.len(),
        forall|k: int| i <= k < j ==> p(#[trigger] s[k]),
        j == s.len() || !p(s[j]),
    ensures
        run_end(s, i, p) == j,
    decreases j - i,
{
    if i < j {
        lemma_run_end(s, i + 1, j, p);
    }
}

pub proof fn lemma_run_end_bounds(s: Seq<char>, i: int, p: spec_fn(char) -> bool)
    requires
        0 <= i <= s.len(),
    ensures
        i <= run_end(s, i, p) <= s.len(),
        forall|k: int| i <= k < run_end(s, i, p) ==> p(#[trigger] s[k]),
        run_end(s, i, p) < s.len() ==> !p(s[run_end(s, i, p)]),
    decreases s.len() - i,
{
    if i < s.len() && p(s[i]) {
        lemma_run_end_bounds(s, i + 1, p);
    }
}

pub open spec fn digit_value(c: char) -> nat {
    (c as int - '0' as int) as nat
}

/// The number that a run of decimal digits writes.
pub open spec fn digits_value(d: Seq<char>) -> nat
    decreases d.len(),
{
    if d.len() == 0 {
        0
    } else {
        digits_value(d.drop_last()) * 10 + digit_value(d.last())
    }
}

/// What can be wrong with the characters of an expression.
pub enum LexFault {
    IllegalChar(char),
    EqFilterMissingEqual(char),
    EqFilterEof,
    ReplaceMissingEqual(char),
    ReplaceEof,
    StringMissingDelimiter(char),
    NumberFormat(char),
    NumberOutOfRange,
    IdentityFormat(char),
}

impl LexFault {
    pub open spec fn message(self) -> Seq<char> {
        match self {
            LexFault::IllegalChar(c) => "illegal char "@.push(c),
            LexFault::EqFilterMissingEqual(c) => "invalid EQFILTER operation format ("@.push(c)
                + " is not equal char)"@,
            LexFault::EqFilterEof => "invalid EQFILTER operation format (EOF)"@,
            LexFault::ReplaceMissingEqual(c) => "invalid REPLACE operation format ("@.push(c)
                + " is not equal char)"@,
            LexFault::ReplaceEof => "invalid REPLACE operation format (EOF)"@,
            LexFault::StringMissingDelimiter(c) => "invalid string format (missing "@.push(c)
                + " terminator)"@,
            LexFault::NumberFormat(c) => "invalid number format ("@.push(c) + " is not a digit)"@,
            LexFault::NumberOutOfRange => "invalid number format (number is out of range)"@,
            LexFault::IdentityFormat(c) => "invalid identity format ("@.push(c)
                + " is not a digit, letter or -)"@,
        }
    }

    /// The error for a fault: a validation error with the fault's message.
    pub open spec fn error(self) -> ErrorModel {
        ErrorModel::plain(ErrorKind::ValidationError, self.message())
    }
}

/// What the lexer finds from one place of the source on.
pub enum Scan {
    /// Nothing but spaces is left.
    End,
    /// A token, and the index of the character after it.
    Token(TokenModel, int),
    /// A fault, and the index of the character it is reported at.
    Fail(LexFault, int),
}

/// `=` at index `i` has to be followed by `=`.
pub open spec fn scan_equal(s: Seq<char>, i: int) -> Scan {
    if i + 1 < s.len() {
        if s[i + 1] == '=' {
            Scan::Token(TokenModel::EqFilter(byte_offset(s, i)), i + 2)
        } else {
            Scan::Fail(LexFault::EqFilterMissingEqual(s[i + 1]), i + 1)
        }
    } else {
        Scan::Fail(LexFault::EqFilterEof, i)
    }
}

/// `:` at index `i` has to be followed by `=`.
pub open spec fn scan_colon(s: Seq<char>, i: int) -> Scan {
    if i + 1 < s.len() {
        if s[i + 1] == '=' {
            Scan::Token(TokenModel::Replace(byte_offset(s, i)), i + 2)
        } else {
            Scan::Fail(LexFault::ReplaceMissingEqual(s[i + 1]), i + 1)
        }
    } else {
        Scan::Fail(LexFault::ReplaceEof, i)
    }
}

/// A string opens with a quote at index `i` and runs to the next occurrence
/// of the same quote. Without one, the fault is reported at the last
/// character of the source.
pub open spec fn scan_string(s: Seq<char>, i: int) -> Scan {
    let close = run_end(s, i + 1, |c: char| c != s[i]);
    if close < s.len() {
        Scan::Token(TokenModel::Str(byte_offset(s, i), s.subrange(i + 1, close)), close + 1)
    } else {
        Scan::Fail(LexFault::StringMissingDelimiter(s[i]), s.len() - 1)
    }
}

/// A number is the longest run of digits from index `i` on. A terminator or
/// the end of the source has to follow it. Its value has to fit in 32 bits
/// without a sign.
pub open spec fn scan_number(s: Seq<char>, i: int) -> Scan {
    let end = run_end(s, i, |c: char| is_digit(c));
    if end < s.len() && !is_terminator(s[end]) {
        Scan::Fail(LexFault::NumberFormat(s[end]), end)
    } else if digits_value(s.subrange(i, end)) > u32::MAX {
        Scan::Fail(LexFault::NumberOutOfRange, i)
    } else {
        Scan::Token(
            TokenModel::Number(byte_offset(s, i), digits_value(s.subrange(i, end)) as int),
            end,
        )
    }
}

/// An identifier is a letter at index `i` and the longest run of letters,
/// digits and `-` after it. A terminator or the end of the source has to
/// follow it.
pub open spec fn scan_identity(s: Seq<char>, i: int) -> Scan {
    let end = run_end(s, i + 1, |c: char| is_identity_char(c));
    if end < s.len() && !is_terminator(s[end]) {
        Scan::Fail(LexFault::IdentityFormat(s[end]), end)
    } else {
        Scan::Token(TokenModel::Identity(byte_offset(s, i), s.subrange(i, end)), end)
    }
}

/// The token that starts at index `i`, which holds no space.
pub open spec fn scan_at(s: Seq<char>, i: int) -> Scan {
    let c = s[i];
    if c == '|' {
        Scan::Token(TokenModel::Pipe(byte_offset(s, i)), i + 1)
    } else if c == '.' {
        Scan::Token(TokenModel::Dot(byte_offset(s, i)), i + 1)
    } else if c == '+' {
        Scan::Token(TokenModel::Merge(byte_offset(s, i)), i + 1)
    } else if c == '=' {
        scan_equal(s, i)
    } else if c == ':' {
        scan_colon(s, i)
    } else if c == '"' || c == '\'' {
        scan_string(s, i)
    } else if is_digit(c) {
        scan_number(s, i)
    } else if is_letter(c) {
        scan_identity(s, i)
    } else {
        Scan::Fail(LexFault::IllegalChar(c), i)
    }
}

/// The next token from index `from` on, after the spaces there.
pub open spec fn scan(s: Seq<char>, from: int) -> Scan {
    let start = run_end(s, from, |c: char| c == ' ');
    if start >= s.len() {
        Scan::End
    } else {
        scan_at(s, start)
    }
}

/// The error that the lexer gives for a fault at character `at`: the fault's
/// error with the whole source and the byte position of that character.
pub open spec fn fault_error(s: Seq<char>, fault: LexFault, at: int) -> ErrorModel {
    fault.error().decorate(s, byte_offset(s, at))
}

/// The state of a lexer: the source, the index of the next character to
/// read, and whether a fault was met.
pub struct LexerModel {
    pub source: Seq<char>,
    pub cursor: int,
    pub failed: bool,
}

/// One step of the lexer: the state after it and what it yields. After a
/// fault nothing more is yielded.
pub open spec fn lex_next(m: LexerModel) -> (LexerModel, Option<Result<TokenModel, ErrorModel>>) {
    if m.failed {
        (m, None)
    } else {
        match scan(m.source, m.cursor) {
            Scan::End => (LexerModel { cursor: m.source.len() as int, ..m }, None),
            Scan::Token(token, next) => (LexerModel { cursor: next, ..m }, Some(Ok(token))),
            Scan::Fail(fault, at) => (
                LexerModel { cursor: m.source.len() as int, failed: true, ..m },
                Some(Err(fault_error(m.source, fault, at))),
            ),
        }
    }
}

/// Everything the lexer yields from index `from` on: the tokens in order,
/// and after them the error when a fault is met.
pub open spec fn lex_all(s: Seq<char>, from: int) -> Seq<Result<TokenModel, ErrorModel>>
    decreases s.len() - from,
{
    match scan(s, from) {
        Scan::End => Seq::empty(),
        Scan::Fail(fault, at) => seq![Err(fault_error(s, fault, at))],
        Scan::Token(token, next) => if from < next <= s.len() {
            seq![Ok(token)] + lex_all(s, next)
        } else {
            seq![Ok(token)]
        },
    }
}

/// A token ends after the place where the scan began, inside the source, and
/// it starts at or after that place. A fault is reported inside the source.
pub proof fn lemma_scan_bounds(s: Seq<char>, from: int)
    requires
        0 <= from <= s.len(),
    ensures
        match scan(s, from) {
            Scan::End => true,
            Scan::Token(token, next) => from < next <= s.len() && byte_offset(s, from)
                <= token.pos() < byte_offset(s, next),
            Scan::Fail(_, at) => 0 <= at < s.len(),
        },
{
    let start = run_end(s, from, |c: char| c == ' ');
    lemma_run_end_bounds(s, from, |c: char| c == ' ');
    if start < s.len() {
        lemma_run_end_bounds(s, start + 1, |c: char| c != s[start]);
        lemma_run_end_bounds(s, start, |c: char| is_digit(c));
        lemma_run_end_bounds(s, start + 1, |c: char| is_identity_char(c));
        let end = run_end(s, start, |c: char| is_digit(c));
        if is_digit(s[start]) {
            assert(end > start);
        }
        lemma_byte_offset_monotonic(s, from, start);
        lemma_byte_offset_monotonic(s, start, start + 1);
        match scan(s, from) {
            Scan::Token(token, next) => {
                lemma_byte_offset_monotonic(s, start + 1, next);
            },
            _ => {},
        }
    }
}


/// The lexer over one expression. It yields the tokens one by one; after a
/// fault it yields nothing more.
pub struct Tokens {
    source: String,
    chars: Vec<char>,
    cursor: usize,
    offset: usize,
    total: usize,
    pos: usize,
    has_error: bool,
}

impl View for Tokens {
    type V = LexerModel;

    closed spec fn view(&self) -> LexerModel {
        LexerModel { source: self.chars@, cursor: self.cursor as int, failed: self.has_error }
    }
}

fn is_digit_char(c: char) -> (r: bool)
    ensures
        r == is_digit(c),
{
    c >= '0' && c <= '9'
}

fn is_letter_char(c: char) -> (r: bool)
    ensures
        r == is_letter(c),
{
    (c >= 'a' && c <= 'z') || (c >= 'A' && c <= 'Z')
}

fn is_terminator_char(c: char) -> (r: bool)
    ensures
        r == is_terminator(c),
{
    c == ' ' || c == '.' || c == ':' || c == '+' || c == '|' || c == '='
}

fn digit_of_char(c: char) -> (r: u64)
    requires
        is_digit(c),
    ensures
        r == digit_value(c),
        r <= 9,
{
    (c as u32 - '0' as u32) as u64
}

/// The message between its fixed beginning and end, with one character in
/// the middle.
fn message_about(head: &str, c: char, tail: &str) -> (r: String)
    ensures
        r@ == head@.push(c) + tail@,
{
    let mut out = String::from_str(head);
    out.push(c);
    out.append(tail);
    out
}

impl Tokens {
    /// The lexer holds the source consistently: the cursor is inside it and
    /// the byte offset kept for the cursor is the true one.
    pub closed spec fn wf(&self) -> bool {
        &&& self.source@ == self.chars@
        &&& self.cursor <= self.chars.len()
        &&& self.offset == byte_offset(self.chars@, self.cursor as int)
        &&& self.total == byte_len(self.chars@)
    }

    /// How a scanning step relates the lexer before and after it to what the
    /// scan of the source prescribes.
    closed spec fn follows(&self, before: &Tokens, r: Result<Token, NmpolicyError>, expected: Scan)
        -> bool {
        &&& self.wf()
        &&& self.chars == before.chars
        &&& self.source == before.source
        &&& self.has_error == before.has_error
        &&& self.total == before.total
        &&& match expected {
            Scan::End => false,
            Scan::Token(token, next) => r matches Ok(found) && found@ == token && self.cursor
                == next,
            Scan::Fail(fault, at) => r matches Err(e) && e@ == fault.error() && self.pos
                == byte_offset(self.chars@, at),
        }
    }

    /// A lexer at the beginning of an expression.
    pub fn new(input: &str) -> (r: Self)
        ensures
            r.wf(),
            r@ == (LexerModel { source: input@, cursor: 0, failed: false }),
    {
        let chars = to_chars(input);
        let len = str_byte_len(input);
        proof {
            lemma_byte_offset_monotonic(chars@, 0, 0);
        }
        Self {
            source: input.to_owned(),
            chars,
            cursor: 0,
            offset: 0,
            total: len,
            pos: 0,
            has_error: false,
        }
    }

    /// Moves the cursor over one character.
    fn bump(&mut self)
        requires
            old(self).wf(),
            old(self).cursor < old(self).chars.len(),
        ensures
            final(self).wf(),
            final(self).cursor == old(self).cursor + 1,
            final(self).chars == old(self).chars,
            final(self).source == old(self).source,
            final(self).has_error == old(self).has_error,
            final(self).pos == old(self).pos,
            final(self).total == old(self).total,
    {
        let c = self.chars[self.cursor];
        proof {
            lemma_byte_offset_step(self.chars@, self.cursor as int);
            lemma_byte_offset_monotonic(
                self.chars@,
                self.cursor as int + 1,
                self.chars@.len() as int,
            );
        }
        self.offset = self.offset + c.len_utf8();
        self.cursor = self.cursor + 1;
    }

    /// The next token, or the error for a fault; `None` at the end of the
    /// expression and after a fault.
    pub fn next_token(&mut self) -> (r: Option<Result<Token, NmpolicyError>>)
        requires
            old(self).wf(),
        ensures
            final(self).wf(),
            final(self)@ == lex_next(old(self)@).0,
            match r {
                None => lex_next(old(self)@).1 is None,
                Some(Ok(token)) => lex_next(old(self)@).1 == Some(
                    Ok::<TokenModel, ErrorModel>(token@),
                ),
                Some(Err(e)) => lex_next(old(self)@).1 == Some(
                    Err::<TokenModel, ErrorModel>(e@),
                ),
            },
    {
        if self.has_error {
            return None;
        }
        let ghost s = self.chars@;
        let ghost from = self.cursor as int;
        while self.cursor < self.chars.len() && self.chars[self.cursor] == ' '
            invariant
                self.wf(),
                self.chars@ == s,
                self.chars == old(self).chars,
                self.source == old(self).source,
                !self.has_error,
                0 <= from <= self.cursor,
                forall|k: int| from <= k < self.cursor ==> s[k] == ' ',
            decreases self.chars.len() - self.cursor,
        {
            self.bump();
        }
        proof {
            lemma_run_end(s, from, self.cursor as int, |c: char| c == ' ');
        }
        if self.cursor >= self.chars.len() {
            return None;
        }
        let ghost start = self.cursor as int;
        let ch = self.chars[self.cursor];
        self.pos = self.offset;
        self.bump();
        let ghost before = *self;
        let result = if ch == '|' {
            self.tokenize_pipe(ch)
        } else if ch == '.' {
            self.tokenize_dot(ch)
        } else if ch == '+' {
            self.tokenize_plus(ch)
        } else if ch == '=' {
            self.tokenize_equal(ch)
        } else if ch == ':' {
            self.tokenize_colon(ch)
        } else if ch == '"' || ch == '\'' {
            self.tokenize_string(ch)
        } else if is_digit_char(ch) {
            self.tokenize_number(ch)
        } else if is_letter_char(ch) {
            self.tokenize_identity(ch)
        } else {
            Err(validation_error(message_about("illegal char ", ch, "")))
        };
        proof {
            assert(scan(s, from) == scan_at(s, start));
            assert("illegal char "@.push(ch) + ""@ =~= "illegal char "@.push(ch)) by {
                reveal_strlit("");
            }
            assert(self.follows(&before, result, scan_at(s, start)));
        }
        match result {
            Ok(token) => Some(Ok(token)),
            Err(e) => {
                self.has_error = true;
                self.cursor = self.chars.len();
                self.offset = self.total;
                proof {
                    lemma_byte_offset_monotonic(s, 0, s.len() as int);
                }
                Some(Err(e.decorate(self.source.clone(), self.pos)))
            },
        }
    }

    fn tokenize_plus(&self, ch: char) -> (r: Result<Token, NmpolicyError>)
        requires
            self.wf(),
            self.cursor >= 1,
            self.pos == byte_offset(self.chars@, self.cursor - 1),
        ensures
            self.follows(
                self,
                r,
                Scan::Token(
                    TokenModel::Merge(byte_offset(self.chars@, self.cursor - 1)),
                    self.cursor as int,
                ),
            ),
    {
        Ok(Token::Merge(self.pos))
    }

    fn tokenize_dot(&self, ch: char) -> (r: Result<Token, NmpolicyError>)
        requires
            self.wf(),
            self.cursor >= 1,
            self.pos == byte_offset(self.chars@, self.cursor - 1),
        ensures
            self.follows(
                self,
                r,
                Scan::Token(
                    TokenModel::Dot(byte_offset(self.chars@, self.cursor - 1)),
                    self.cursor as int,
                ),
            ),
    {
        Ok(Token::Dot(self.pos))
    }

    fn tokenize_pipe(&self, ch: char) -> (r: Result<Token, NmpolicyError>)
        requires
            self.wf(),
            self.cursor >= 1,
            self.pos == byte_offset(self.chars@, self.cursor - 1),
        ensures
            self.follows(
                self,
                r,
                Scan::Token(
                    TokenModel::Pipe(byte_offset(self.chars@, self.cursor - 1)),
                    self.cursor as int,
                ),
            ),
    {
        Ok(Token::Pipe(self.pos))
    }

    fn tokenize_equal(&mut self, ch: char) -> (r: Result<Token, NmpolicyError>)
        requires
            old(self).wf(),
            old(self).cursor >= 1,
            old(self).pos == byte_offset(old(self).chars@, old(self).cursor - 1),
        ensures
            final(self).follows(old(self), r, scan_equal(old(self).chars@, old(self).cursor - 1)),
    {
        if self.cursor < self.chars.len() {
            let next = self.chars[self.cursor];
            if next == '=' {
                self.bump();
                Ok(Token::EqFilter(self.pos))
            } else {
                self.pos = self.offset;
                Err(
                    validation_error(
                        message_about(
                            "invalid EQFILTER operation format (",
                            next,
                            " is not equal char)",
                        ),
                    ),
                )
            }
        } else {
            Err(validation_error(String::from_str("invalid EQFILTER operation format (EOF)")))
        }
    }

    fn tokenize_colon(&mut self, ch: char) -> (r: Result<Token, NmpolicyError>)
        requires
            old(self).wf(),
            old(self).cursor >= 1,
            old(self).pos == byte_offset(old(self).chars@, old(self).cursor - 1),
        ensures
            final(self).follows(old(self), r, scan_colon(old(self).chars@, old(self).cursor - 1)),
    {
        if self.cursor < self.chars.len() {
            let next = self.chars[self.cursor];
            if next == '=' {
                self.bump();
                Ok(Token::Replace(self.pos))
            } else {
                self.pos = self.offset;
                Err(
                    validation_error(
                        message_about(
                            "invalid REPLACE operation format (",
                            next,
                            " is not equal char)",
                        ),
                    ),
                )
            }
        } else {
            Err(validation_error(String::from_str("invalid REPLACE operation format (EOF)")))
        }
    }

    fn tokenize_string(&mut self, delimiter: char) -> (r: Result<Token, NmpolicyError>)
        requires
            old(self).wf(),
            old(self).cursor >= 1,
            old(self).pos == byte_offset(old(self).chars@, old(self).cursor - 1),
            old(self).chars@[old(self).cursor - 1] == delimiter,
        ensures
            final(self).follows(old(self), r, scan_string(old(self).chars@, old(self).cursor - 1)),
    {
        let ghost s = self.chars@;
        let ghost open = self.cursor as int - 1;
        let begin_pos = self.pos;
        let mut last_pos = self.pos;
        let mut text = String::new();
        while self.cursor < self.chars.len() && self.chars[self.cursor] != delimiter
            invariant
                self.wf(),
                self.chars == old(self).chars,
                self.source == old(self).source,
                self.has_error == old(self).has_error,
                s == self.chars@,
                open + 1 <= self.cursor,
                open == old(self).cursor - 1,
                0 <= open,
                s[open] == delimiter,
                begin_pos == byte_offset(s, open),
                last_pos == byte_offset(s, self.cursor - 1),
                text@ == s.subrange(open + 1, self.cursor as int),
                forall|k: int| open + 1 <= k < self.cursor ==> s[k] != delimiter,
            decreases self.chars.len() - self.cursor,
        {
            text.push(self.chars[self.cursor]);
            proof {
                assert(s.subrange(open + 1, self.cursor as int).push(s[self.cursor as int])
                    =~= s.subrange(open + 1, self.cursor + 1));
            }
            last_pos = self.offset;
            self.bump();
        }
        proof {
            lemma_run_end(s, open + 1, self.cursor as int, |c: char| c != s[open]);
        }
        if self.cursor < self.chars.len() {
            self.bump();
            Ok(Token::Str(begin_pos, text))
        } else {
            self.pos = last_pos;
            Err(
                validation_error(
                    message_about("invalid string format (missing ", delimiter, " terminator)"),
                ),
            )
        }
    }

    fn tokenize_number(&mut self, ch: char) -> (r: Result<Token, NmpolicyError>)
        requires
            old(self).wf(),
            old(self).cursor >= 1,
            old(self).pos == byte_offset(old(self).chars@, old(self).cursor - 1),
            old(self).chars@[old(self).cursor - 1] == ch,
            is_digit(ch),
        ensures
            final(self).follows(old(self), r, scan_number(old(self).chars@, old(self).cursor - 1)),
    {
        let ghost s = self.chars@;
        let ghost begin = self.cursor as int - 1;
        let begin_pos = self.pos;
        let mut value: u64 = digit_of_char(ch);
        let mut too_large = false;
        proof {
            assert(s.subrange(begin, begin + 1).drop_last() =~= Seq::<char>::empty());
            assert(digits_value(s.subrange(begin, begin + 1)) == digit_value(ch)) by {
                reveal_with_fuel(digits_value, 2);
            }
        }
        while self.cursor < self.chars.len() && is_digit_char(self.chars[self.cursor])
            invariant
                self.wf(),
                self.chars == old(self).chars,
                self.source == old(self).source,
                self.has_error == old(self).has_error,
                self.pos == old(self).pos,
                s == self.chars@,
                0 <= begin < self.cursor,
                begin == old(self).cursor - 1,
                begin_pos == byte_offset(s, begin),
                forall|k: int| begin <= k < self.cursor ==> is_digit(s[k]),
                !too_large ==> value == digits_value(s.subrange(begin, self.cursor as int))
                    && value <= u32::MAX,
                too_large ==> digits_value(s.subrange(begin, self.cursor as int)) > u32::MAX,
            decreases self.chars.len() - self.cursor,
        {
            let digit = digit_of_char(self.chars[self.cursor]);
            proof {
                assert(s.subrange(begin, self.cursor + 1).drop_last() =~= s.subrange(
                    begin,
                    self.cursor as int,
                ));
            }
            if !too_large {
                value = value * 10 + digit;
                if value > 4294967295 {
                    too_large = true;
                }
            }
            self.bump();
        }
        proof {
            lemma_run_end(s, begin, self.cursor as int, |c: char| is_digit(c));
        }
        if self.cursor < self.chars.len() && !is_terminator_char(self.chars[self.cursor]) {
            let found = self.chars[self.cursor];
            self.pos = self.offset;
            Err(
                validation_error(
                    message_about("invalid number format (", found, " is not a digit)"),
                ),
            )
        } else if too_large {
            Err(
                validation_error(
                    String::from_str("invalid number format (number is out of range)"),
                ),
            )
        } else {
            Ok(Token::Number(begin_pos, value as u32))
        }
    }

    fn tokenize_identity(&mut self, ch: char) -> (r: Result<Token, NmpolicyError>)
        requires
            old(self).wf(),
            old(self).cursor >= 1,
            old(self).pos == byte_offset(old(self).chars@, old(self).cursor - 1),
            old(self).chars@[old(self).cursor - 1] == ch,
        ensures
            final(self).follows(
                old(self),
                r,
                scan_identity(old(self).chars@, old(self).cursor - 1),
            ),
    {
        let ghost s = self.chars@;
        let ghost begin = self.cursor as int - 1;
        let begin_pos = self.pos;
        let mut identity = String::new();
        identity.push(ch);
        proof {
            assert(Seq::<char>::empty().push(ch) =~= s.subrange(begin, begin + 1));
        }
        while self.cursor < self.chars.len() && (is_letter_char(self.chars[self.cursor])
            || is_digit_char(self.chars[self.cursor]) || self.chars[self.cursor] == '-')
            invariant
                self.wf(),
                self.chars == old(self).chars,
                self.source == old(self).source,
                self.has_error == old(self).has_error,
                self.pos == old(self).pos,
                s == self.chars@,
                0 <= begin < self.cursor,
                begin == old(self).cursor - 1,
                identity@ == s.subrange(begin, self.cursor as int),
                forall|k: int| begin + 1 <= k < self.cursor ==> is_identity_char(s[k]),
            decreases self.chars.len() - self.cursor,
        {
            identity.push(self.chars[self.cursor]);
            proof {
                assert(s.subrange(begin, self.cursor as int).push(s[self.cursor as int])
                    =~= s.subrange(begin, self.cursor + 1));
            }
            self.bump();
        }
        proof {
            lemma_run_end(s, begin + 1, self.cursor as int, |c: char| is_identity_char(c));
        }
        if self.cursor < self.chars.len() && !is_terminator_char(self.chars[self.cursor]) {
            let found = self.chars[self.cursor];
            self.pos = self.offset;
            Err(
                validation_error(
                    message_about(
                        "invalid identity format (",
                        found,
                        " is not a digit, letter or -)",
                    ),
                ),
            )
        } else {
            Ok(Token::Identity(begin_pos, identity))
        }
    }
}


/// What a vector of lexer results stands for.
pub open spec fn results_view(v: Seq<Result<Token, NmpolicyError>>) -> Seq<
    Result<TokenModel, ErrorModel>,
> {
    Seq::new(
        v.len(),
        |i: int|
            match v[i] {
                Ok(token) => Ok(token@),
                Err(e) => Err(e@),
            },
    )
}

/// Everything the lexer yields for an expression: its tokens in order, and
/// after them the error if the expression has a fault.
pub fn tokenize(expression: &str) -> (r: Vec<Result<Token, NmpolicyError>>)
    ensures
        results_view(r@) == lex_all(expression@, 0),
{
    let mut tokens = Tokens::new(expression);
    let mut out: Vec<Result<Token, NmpolicyError>> = Vec::new();
    let ghost s = expression@;
    loop
        invariant
            tokens.wf(),
            s == expression@,
            tokens@.source == s,
            0 <= tokens@.cursor <= s.len(),
            !tokens@.failed ==> results_view(out@) + lex_all(s, tokens@.cursor) == lex_all(s, 0),
            tokens@.failed ==> results_view(out@) == lex_all(s, 0),
        decreases
                (if tokens@.failed {
                    0
                } else {
                    s.len() - tokens@.cursor + 1
                }),
    {
        let ghost before = tokens@;
        let ghost head = results_view(out@);
        proof {
            lemma_scan_bounds(s, before.cursor);
        }
        match tokens.next_token() {
            None => {
                proof {
                    if !before.failed {
                        assert(scan(s, before.cursor) is End);
                        assert(lex_all(s, before.cursor) =~= Seq::empty());
                        assert(head + lex_all(s, before.cursor) =~= head);
                    }
                    assert(results_view(out@) == head);
                }
                return out;
            },
            Some(item) => {
                out.push(item);
                proof {
                    let model = lex_next(before).1->0;
                    assert(results_view(out@) =~= head.push(model));
                    if model is Ok {
                        assert(head + (seq![model] + lex_all(s, tokens@.cursor)) =~= head.push(
                            model,
                        ) + lex_all(s, tokens@.cursor));
                    } else {
                        assert(head + seq![model] =~= head.push(model));
                    }
                }
            },
        }
    }
}

/// In what the lexer yields, the positions of the tokens grow strictly.
pub open spec fn positions_ascend(items: Seq<Result<TokenModel, ErrorModel>>) -> bool {
    forall|i: int, j: int|
        0 <= i < j < items.len() && items[i] is Ok && items[j] is Ok ==> (#[trigger] items[i])->Ok_0.pos()
            < (#[trigger] items[j])->Ok_0.pos()
}

/// Of everything the lexer yields from index `from` on: every token starts
/// inside the source, at or after `from`, and the positions of the tokens
/// grow strictly; an error comes last, is a validation error, records the
/// whole source, and points inside it.
pub proof fn lemma_lex_all_positions(s: Seq<char>, from: int)
    requires
        0 <= from <= s.len(),
    ensures
        positions_ascend(lex_all(s, from)),
        forall|i: int|
            0 <= i < lex_all(s, from).len() ==> match #[trigger] lex_all(s, from)[i] {
                Ok(token) => byte_offset(s, from) <= token.pos() < byte_len(s),
                Err(e) => i == lex_all(s, from).len() - 1 && e.kind == ErrorKind::ValidationError
                    && e.expression == Some(s) && e.pos < byte_len(s),
            },
    decreases s.len() - from,
{
    lemma_scan_bounds(s, from);
    let out = lex_all(s, from);
    match scan(s, from) {
        Scan::End => {},
        Scan::Fail(fault, at) => {
            lemma_byte_offset_monotonic(s, at, at + 1);
            lemma_byte_offset_monotonic(s, at + 1, s.len() as int);
        },
        Scan::Token(token, next) => {
            lemma_lex_all_positions(s, next);
            lemma_byte_offset_monotonic(s, next, s.len() as int);
            lemma_byte_offset_monotonic(s, from, next);
            let rest = lex_all(s, next);
            assert(out == seq![Ok::<TokenModel, ErrorModel>(token)] + rest);
            assert(forall|i: int| 1 <= i < out.len() ==> out[i] == rest[i - 1]);
            assert forall|i: int| 0 <= i < out.len() implies match #[trigger] out[i] {
                Ok(token) => byte_offset(s, from) <= token.pos() < byte_len(s),
                Err(e) => i == out.len() - 1 && e.kind == ErrorKind::ValidationError
                    && e.expression == Some(s) && e.pos < byte_len(s),
            } by {
                if i >= 1 {
                    assert(out[i] == rest[i - 1]);
                }
            }
            assert forall|i: int, j: int|
                0 <= i < j < out.len() && out[i] is Ok && out[j] is Ok implies (#[trigger] out[i])->Ok_0.pos()
                < (#[trigger] out[j])->Ok_0.pos() by {
                assert(out[j] == rest[j - 1]);
                if i >= 1 {
                    assert(out[i] == rest[i - 1]);
                }
            }
        },
    }
}

} // verus!
