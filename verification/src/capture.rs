//! Capture entries: the named expressions of a policy.
use crate::ast::node::{Ast, Node};
use crate::error::{placed, ErrorKind, ErrorModel, NmpolicyError};
use crate::expand::expander::CapturePathResolver;
use crate::lex::tokens::lex_all;
use crate::parse::parser::{lemma_parse_positions, parse as parse_tokens, parse_expression};
use crate::resolve::located::{
    capture_within_expressions, lemma_entry_path_errors, lemma_resolve_errors_placed,
};
use crate::resolve::resolver::{
    cache_result, resolve, resolve_capture_entry_path, Resolver, Scope,
};
use crate::resolve::visitor::value_result;
use crate::state::{
    find_key, first_index, keys_of, lemma_first_index, lemma_unique_kept, only_at, unique_keys,
    Fields, NMState, Tree, Value,
};
use crate::text::byte_len;
use crate::types::{cache_keys, CacheModel, CapturedStates};
use vstd::prelude::*;
use vstd::string::*;

verus! {

/// A capture expression and its syntax tree.
#[derive(Debug, PartialEq, Eq)]
pub struct CaptureEntry {
    pub expression: String,
    pub ast: Box<Node>,
}

pub struct EntryModel {
    pub expression: Seq<char>,
    pub ast: Ast,
}

impl View for CaptureEntry {
    type V = EntryModel;

    open spec fn view(&self) -> EntryModel {
        EntryModel { expression: self.expression@, ast: self.ast@ }
    }
}

impl Clone for CaptureEntry {
    fn clone(&self) -> (r: Self)
        ensures
            r@ == self@,
    {
        CaptureEntry { expression: self.expression.clone(), ast: Box::new((*self.ast).clone()) }
    }
}

impl CaptureEntry {
    /// An entry for an expression that is not parsed yet: its tree is the
    /// identifier `nil`.
    pub fn new(expression: String) -> (r: Self)
        ensures
            r@ == (EntryModel { expression: expression@, ast: Ast::Identity(0, "nil"@) }),
    {
        CaptureEntry { expression, ast: Box::new(Node::default()) }
    }
}

/// The capture entries by name, as mathematical values: the entries in
/// order; the entry of a name is the first one with the name.
pub type CaptureModel = Seq<(Seq<char>, EntryModel)>;

/// The names of the capture entries, in order.
pub open spec fn capture_keys(capture: CaptureModel) -> Seq<Seq<char>> {
    Seq::new(capture.len(), |i: int| capture[i].0)
}

/// The index of the capture entry of a name.
pub open spec fn find_entry(capture: CaptureModel, name: Seq<char>) -> Option<int> {
    first_index(capture_keys(capture), name)
}

/// The capture entries with the entry of `name` set: in the place of the
/// entry of that name, or as a new entry at the end.
pub open spec fn put_entry(capture: CaptureModel, name: Seq<char>, entry: EntryModel)
    -> CaptureModel {
    match find_entry(capture, name) {
        Some(i) => capture.update(i, (name, entry)),
        None => capture.push((name, entry)),
    }
}

/// The capture entries by name.
#[derive(Debug, PartialEq, Eq)]
pub struct Capture {
    pub entries: Vec<(String, CaptureEntry)>,
}

impl View for Capture {
    type V = CaptureModel;

    open spec fn view(&self) -> CaptureModel {
        Seq::new(self.entries@.len(), |i: int| (self.entries@[i].0@, self.entries@[i].1@))
    }
}

impl Clone for Capture {
    fn clone(&self) -> (r: Self)
        ensures
            r@ == self@,
    {
        let mut out: Vec<(String, CaptureEntry)> = Vec::new();
        let mut i: usize = 0;
        while i < self.entries.len()
            invariant
                i <= self.entries.len(),
                out.len() == i,
                forall|j: int|
                    0 <= j < i ==> out@[j].0@ == self.entries@[j].0@ && out@[j].1@
                        == self.entries@[j].1@,
            decreases self.entries.len() - i,
        {
            out.push((self.entries[i].0.clone(), self.entries[i].1.clone()));
            i += 1;
        }
        let r = Capture { entries: out };
        proof {
            assert(r@ =~= self@);
        }
        r
    }
}

impl Default for Capture {
    fn default() -> (r: Self)
        ensures
            r@ == Seq::<(Seq<char>, EntryModel)>::empty(),
    {
        Capture::new()
    }
}

impl Capture {
    /// No name occurs twice among the entries.
    pub open spec fn has_unique_names(&self) -> bool {
        unique_keys(capture_keys(self@))
    }

    pub fn new() -> (r: Self)
        ensures
            r@ == Seq::<(Seq<char>, EntryModel)>::empty(),
            r.has_unique_names(),
    {
        let r = Capture { entries: Vec::new() };
        proof {
            assert(r@ =~= Seq::<(Seq<char>, EntryModel)>::empty());
        }
        r
    }

    pub fn len(&self) -> (r: usize)
        ensures
            r == self@.len(),
    {
        self.entries.len()
    }

    pub fn is_empty(&self) -> (r: bool)
        ensures
            r == (self@.len() == 0),
    {
        self.entries.len() == 0
    }

    /// The index of the capture entry of a name.
    pub fn find(&self, name: &str) -> (r: Option<usize>)
        ensures
            match r {
                Some(i) => find_entry(self@, name@) == Some(i as int) && i < self.entries.len()
                    && (self.has_unique_names() ==> only_at(capture_keys(self@), name@, i as int)),
                None => find_entry(self@, name@) is None,
            },
    {
        proof {
            assert(keys_of(self.entries@) =~= capture_keys(self@));
        }
        find_key(&self.entries, name)
    }

    /// The capture entry of a name.
    pub fn get(&self, name: &str) -> (r: Option<&CaptureEntry>)
        ensures
            match r {
                Some(entry) => find_entry(self@, name@) matches Some(i) && self@[i].1 == entry@
                    && (self.has_unique_names() ==> only_at(capture_keys(self@), name@, i)),
                None => find_entry(self@, name@) is None,
            },
    {
        match self.find(name) {
            Some(i) => Some(&self.entries[i].1),
            None => None,
        }
    }

    /// Sets the capture entry of a name. Where no name occurred twice, none
    /// does after.
    pub fn insert(&mut self, name: String, entry: CaptureEntry)
        ensures
            final(self)@ == put_entry(old(self)@, name@, entry@),
            old(self).has_unique_names() ==> final(self).has_unique_names(),
    {
        let ghost before = self@;
        proof {
            if self.has_unique_names() {
                lemma_unique_kept(capture_keys(before), name@);
                assert(capture_keys(before.push((name@, entry@))) =~= capture_keys(before).push(
                    name@,
                ));
                if find_entry(before, name@) is Some {
                    let at = find_entry(before, name@)->0;
                    lemma_first_index(capture_keys(before), name@);
                    assert(capture_keys(before.update(at, (name@, entry@))) =~= capture_keys(
                        before,
                    ).update(at, name@));
                }
            }
        }
        match self.find(name.as_str()) {
            Some(i) => {
                self.entries[i] = (name, entry);
                proof {
                    assert(self@ =~= before.update(i as int, (name@, entry@)));
                }
            },
            None => {
                self.entries.push((name, entry));
                proof {
                    assert(self@ =~= before.push((name@, entry@)));
                }
            },
        }
    }
}


/// The marker for what cannot happen.
pub open spec fn bug() -> ErrorModel {
    ErrorModel::plain(ErrorKind::Bug, Seq::empty())
}

/// The capture entry of an expression: the expression and its syntax tree.
/// An expression without tokens has no tree and gives no entry.
pub open spec fn parse_entry(expression: Seq<char>) -> Result<EntryModel, ErrorModel> {
    match parse_tokens(expression, lex_all(expression, 0)) {
        Ok(Some(ast)) => Ok(EntryModel { expression, ast }),
        Ok(None) => Err(bug()),
        Err(e) => Err(e),
    }
}

/// The first `n` capture entries, each parsed from its expression. The
/// first expression that does not parse ends the work with its error.
pub open spec fn parse_entries(capture: CaptureModel, n: nat) -> Result<CaptureModel, ErrorModel>
    decreases n,
{
    if n == 0 || n > capture.len() {
        Ok(Seq::empty())
    } else {
        match parse_entries(capture, (n - 1) as nat) {
            Err(e) => Err(e),
            Ok(done) => match parse_entry(capture[n - 1].1.expression) {
                Err(e) => Err(e),
                Ok(entry) => Ok(done.push((capture[n - 1].0, entry))),
            },
        }
    }
}

/// Of the first `n` captured states, those whose name is the name of a
/// capture entry.
pub open spec fn kept_cache(cache: CacheModel, capture: CaptureModel, n: nat) -> CacheModel
    decreases n,
{
    if n == 0 || n > cache.len() {
        Seq::empty()
    } else if find_entry(capture, cache[n - 1].0) is Some {
        kept_cache(cache, capture, (n - 1) as nat).push(cache[n - 1])
    } else {
        kept_cache(cache, capture, (n - 1) as nat)
    }
}

/// The captured states of a policy. Without capture entries, or with an
/// empty current state and no captured states given, there are none. Else
/// every expression is parsed and every entry is resolved; of the captured
/// states given, those of the policy's own names are taken over as they are.
pub open spec fn captured(capture: CaptureModel, current: Fields, cache: Option<CacheModel>)
    -> Result<CacheModel, ErrorModel> {
    if capture.len() == 0 || (current.len() == 0 && cache is None) {
        Ok(Seq::empty())
    } else {
        match parse_entries(capture, capture.len()) {
            Err(e) => Err(e),
            Ok(parsed) => resolve(
                parsed,
                current,
                match cache {
                    Some(given) => kept_cache(given, capture, given.len()),
                    None => Seq::empty(),
                },
            ),
        }
    }
}

/// The value that the path inside a placeholder leads to in the captured
/// states. An error is tied to the path's expression.
pub open spec fn entry_path_value(expression: Seq<char>, cache: CacheModel) -> Result<
    Tree,
    ErrorModel,
> {
    match parse_entry(expression) {
        Err(e) => Err(e),
        Ok(entry) => match resolve_capture_entry_path(
            Scope { capture: Seq::empty(), current: Seq::empty() },
            cache,
            Seq::empty(),
            entry.ast,
        ).1 {
            Ok(value) => Ok(value),
            Err(e) => Err(e.locate(entry.ast.pos()).within(expression)),
        },
    }
}

/// Of captured states in which no name occurs twice, those that are kept
/// hold no name twice either.
pub proof fn lemma_kept_cache_unique(cache: CacheModel, capture: CaptureModel, n: nat)
    requires
        unique_keys(cache_keys(cache)),
        n <= cache.len(),
    ensures
        unique_keys(cache_keys(kept_cache(cache, capture, n))),
        forall|j: int, i: int|
            0 <= j < kept_cache(cache, capture, n).len() && n <= i < cache.len() ==> (
            #[trigger] kept_cache(cache, capture, n)[j]).0 != (#[trigger] cache[i]).0,
    decreases n,
{
    if n > 0 {
        lemma_kept_cache_unique(cache, capture, (n - 1) as nat);
        let before = kept_cache(cache, capture, (n - 1) as nat);
        let kept = kept_cache(cache, capture, n);
        let keys = cache_keys(cache);
        assert forall|i: int| n <= i < cache.len() implies cache[n - 1].0 != (
        #[trigger] cache[i]).0 by {
            assert(keys[n - 1] != keys[i]);
        }
        if find_entry(capture, cache[n - 1].0) is Some {
            assert forall|i: int, j: int| 0 <= i < j < kept.len() implies cache_keys(kept)[i]
                != cache_keys(kept)[j] by {
                if j < before.len() {
                    assert(cache_keys(before)[i] != cache_keys(before)[j]);
                } else {
                    assert(before[i].0 != cache[n - 1].0);
                }
            }
        }
    }
}

proof fn lemma_parse_entries_fails(capture: CaptureModel, n: nat, m: nat)
    requires
        n <= m <= capture.len(),
        parse_entries(capture, n) is Err,
    ensures
        parse_entries(capture, m) == parse_entries(capture, n),
    decreases m - n,
{
    if n < m {
        lemma_parse_entries_fails(capture, n, (m - 1) as nat);
    }
}

/// The entries that are parsed from their expressions hold positions inside
/// these expressions, and so does an error of parsing.
pub proof fn lemma_parsed_entries_placed(capture: CaptureModel, n: nat)
    ensures
        match parse_entries(capture, n) {
            Ok(parsed) => capture_within_expressions(parsed),
            Err(e) => placed(e),
        },
    decreases n,
{
    if n > 0 && n <= capture.len() {
        lemma_parsed_entries_placed(capture, (n - 1) as nat);
        lemma_parse_positions(capture[n - 1].1.expression);
    }
}

/// An error of capturing points inside the expression it is tied to.
pub proof fn lemma_captured_errors_placed(
    capture: CaptureModel,
    current: Fields,
    cache: Option<CacheModel>,
)
    ensures
        captured(capture, current, cache) matches Err(e) ==> placed(e),
{
    lemma_parsed_entries_placed(capture, capture.len());
    match parse_entries(capture, capture.len()) {
        Ok(parsed) => {
            lemma_resolve_errors_placed(
                parsed,
                current,
                match cache {
                    Some(given) => kept_cache(given, capture, given.len()),
                    None => Seq::empty(),
                },
            );
        },
        Err(_) => {},
    }
}

/// An error of evaluating the path inside a placeholder points inside the
/// path's expression.
pub proof fn lemma_entry_path_value_placed(expression: Seq<char>, cache: CacheModel)
    ensures
        entry_path_value(expression, cache) matches Err(e) ==> placed(e),
{
    lemma_parse_positions(expression);
    match parse_entry(expression) {
        Ok(entry) => {
            let scope = Scope { capture: Seq::empty(), current: Seq::empty() };
            lemma_entry_path_errors(
                scope,
                cache,
                Seq::empty(),
                entry.ast,
                byte_len(expression),
            );
        },
        Err(_) => {},
    }
}

/// Parses an expression into a capture entry.
pub fn parse(expression: String) -> (r: Result<CaptureEntry, NmpolicyError>)
    ensures
        match r {
            Ok(entry) => parse_entry(expression@) == Ok::<EntryModel, ErrorModel>(entry@),
            Err(e) => parse_entry(expression@) == Err::<EntryModel, ErrorModel>(e@),
        },
{
    match parse_expression(expression.as_str()) {
        Ok(Some(ast_root)) => Ok(CaptureEntry { expression, ast: ast_root }),
        Ok(None) => Err(NmpolicyError::new(ErrorKind::Bug)),
        Err(e) => Err(e),
    }
}

/// Of the captured states given, those whose name is the name of a capture
/// entry, in their order.
pub fn filter_cache_by_capture(cache_op: Option<CapturedStates>, capture: &Capture) -> (r: Option<
    CapturedStates,
>)
    ensures
        match cache_op {
            Some(cache) => r matches Some(kept) && kept@ == kept_cache(
                cache@,
                capture@,
                cache@.len(),
            ) && (cache.has_unique_names() ==> kept.has_unique_names()),
            None => r is None,
        },
{
    match cache_op {
        None => None,
        Some(cache) => {
            let mut kept = CapturedStates::new();
            let mut i: usize = 0;
            while i < cache.entries.len()
                invariant
                    i <= cache.entries.len(),
                    kept@ == kept_cache(cache@, capture@, i as nat),
                decreases cache.entries.len() - i,
            {
                if capture.find(cache.entries[i].0.as_str()).is_some() {
                    let ghost before = kept@;
                    kept.entries.push((cache.entries[i].0.clone(), cache.entries[i].1.clone()));
                    proof {
                        assert(kept@ =~= before.push(cache@[i as int]));
                    }
                }
                i += 1;
            }
            proof {
                if cache.has_unique_names() {
                    lemma_kept_cache_unique(cache@, capture@, cache@.len());
                }
            }
            Some(kept)
        },
    }
}

/// Parses the expression of every capture entry.
pub fn parse_capture(capture: &Capture) -> (r: Result<Capture, NmpolicyError>)
    ensures
        match r {
            Ok(parsed) => parse_entries(capture@, capture@.len()) == Ok::<
                CaptureModel,
                ErrorModel,
            >(parsed@),
            Err(e) => parse_entries(capture@, capture@.len()) == Err::<CaptureModel, ErrorModel>(
                e@,
            ),
        },
{
    let mut parsed_capture = Capture::new();
    let mut i: usize = 0;
    while i < capture.entries.len()
        invariant
            i <= capture.entries.len(),
            parse_entries(capture@, i as nat) == Ok::<CaptureModel, ErrorModel>(parsed_capture@),
        decreases capture.entries.len() - i,
    {
        match parse(capture.entries[i].1.expression.clone()) {
            Err(e) => {
                proof {
                    lemma_parse_entries_fails(capture@, (i + 1) as nat, capture@.len());
                }
                return Err(e);
            },
            Ok(entry) => {
                let ghost before = parsed_capture@;
                let ghost found = entry@;
                parsed_capture.entries.push((capture.entries[i].0.clone(), entry));
                proof {
                    assert(parsed_capture@ =~= before.push((capture@[i as int].0, found)));
                }
            },
        }
        i += 1;
    }
    Ok(parsed_capture)
}

/// Resolves the capture entries of a policy against the current state.
pub fn resolve_entries(capture: Capture, current_state: NMState, cache: Option<CapturedStates>)
    -> (r: Result<CapturedStates, NmpolicyError>)
    ensures
        cache_result(r) == captured(
            capture@,
            current_state@,
            match cache {
                Some(given) => Some(given@),
                None => None,
            },
        ),
        r matches Ok(states) ==> (cache matches Some(given) ==> given.has_unique_names())
            ==> states.has_unique_names(),
{
    if capture.is_empty() || (current_state.is_empty() && cache.is_none()) {
        return Ok(CapturedStates::new());
    }
    let filtered_cache = filter_cache_by_capture(cache, &capture);
    let parsed_capture = match parse_capture(&capture) {
        Ok(parsed) => parsed,
        Err(e) => {
            return Err(e);
        },
    };
    let mut resolver = Resolver::new(parsed_capture);
    let given = match filtered_cache {
        Some(kept) => kept,
        None => CapturedStates::new(),
    };
    resolver.resolve(current_state, Some(given))
}

/// The value that the path inside a placeholder leads to in the captured
/// states.
pub fn resolve_entry_path(expression: String, captured_states: CapturedStates) -> (r: Result<
    Value,
    NmpolicyError,
>)
    ensures
        value_result(r) == entry_path_value(expression@, captured_states@),
{
    let capture_entry = match parse(expression) {
        Ok(entry) => entry,
        Err(e) => {
            return Err(e);
        },
    };
    let mut resolver = Resolver {
        capture: Capture::new(),
        current_state: NMState::new(),
        captured_states,
        visiting: Vec::new(),
    };
    proof {
        assert(crate::resolve::resolver::names_view(resolver.visiting@) =~= Seq::<
            Seq<char>,
        >::empty());
    }
    match resolver.resolve_capture_entry_path(&capture_entry.ast) {
        Ok(value) => Ok(value),
        Err(e) => Err(e.locate(capture_entry.ast.pos).within(capture_entry.expression)),
    }
}

/// Gives the value for the path inside a placeholder from captured states.
pub struct CaptureEntryResolver {
    pub captured_states: CapturedStates,
}

impl CaptureEntryResolver {
    pub fn new(captured_states: CapturedStates) -> (r: Self)
        ensures
            r.captured_states == captured_states,
    {
        Self { captured_states }
    }
}

impl CapturePathResolver for CaptureEntryResolver {
    open spec fn resolved(&self, capture_path: Seq<char>) -> Result<Tree, ErrorModel> {
        entry_path_value(capture_path, self.captured_states@)
    }

    fn resolve_capture_entry_path(&self, capture_path: String) -> (r: Result<
        Value,
        NmpolicyError,
    >) {
        resolve_entry_path(capture_path, self.captured_states.clone())
    }
}

} // verus!
