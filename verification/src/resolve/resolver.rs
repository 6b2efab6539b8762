//! The resolver: evaluates the capture entries of a policy against the
//! current state, each entry once, following the references between them.
use crate::ast::node::{ast_text, Ast, Node, NodeKind};
use crate::capture::{find_entry, Capture, CaptureModel};
use crate::error::{evaluation_error, ErrorKind, ErrorModel, NmpolicyError};
use crate::resolve::filter;
use crate::resolve::filter::state_result;
use crate::resolve::path::{compose, Path, PathModel};
use crate::resolve::replace;
use crate::resolve::visitor::{evaluation_error_about, value_result};
use crate::resolve::walk;
use crate::state::{Fields, NMState, Tree, Value};
use crate::text::str_eq;
use crate::types::{
    find_captured, put_captured, CacheModel, CapturedModel, CapturedState, CapturedStates,
};
use vstd::prelude::*;
use vstd::string::*;

verus! {

/// What stays the same while the entries are resolved: the capture entries
/// and the current state.
pub struct Scope {
    pub capture: CaptureModel,
    pub current: Fields,
}

pub open spec fn entry_not_found(name: Seq<char>) -> ErrorModel {
    ErrorModel::plain(ErrorKind::EvaluationError, "capture entry '"@ + name + "' not found"@)
}

pub open spec fn entry_in_cycle(name: Seq<char>) -> ErrorModel {
    ErrorModel::plain(
        ErrorKind::EvaluationError,
        "capture entry '"@ + name + "' refers to itself"@,
    )
}

pub open spec fn unsupported_root(a: Ast) -> ErrorModel {
    ErrorModel::plain(
        ErrorKind::EvaluationError,
        "root node has unsupported operation: "@ + ast_text(a),
    )
}

pub open spec fn invalid_path_input_source(a: Ast) -> ErrorModel {
    ErrorModel::plain(
        ErrorKind::EvaluationError,
        "invalid path input source ("@ + ast_text(a) + "), only capture reference is supported"@,
    )
}

pub open spec fn invalid_input_source(a: Ast) -> ErrorModel {
    ErrorModel::plain(
        ErrorKind::EvaluationError,
        "invalid input source ("@ + ast_text(a)
            + "), only current state or capture reference is supported"@,
    )
}

pub open spec fn unsupported_value() -> ErrorModel {
    ErrorModel::plain(
        ErrorKind::EvaluationError,
        "not supported value. Only string or capture entry path are supported"@,
    )
}

pub open spec fn unsupported_value_path() -> ErrorModel {
    ErrorModel::plain(
        ErrorKind::EvaluationError,
        "not supported filtered value path. Only paths with a capture entry reference are supported"@,
    )
}

/// The state of the capture entry `name`, and the captured states after it
/// is resolved. A state that is captured already is taken as it is. Else the
/// entry's expression is evaluated, and its state is added to the captured
/// states. `visiting` holds the names of the entries that are being
/// resolved: an entry that refers to one of them cannot be resolved. An
/// error is tied to the expression of the entry it arose in.
pub open spec fn resolve_entry(
    scope: Scope,
    cache: CacheModel,
    visiting: Seq<Seq<char>>,
    name: Seq<char>,
) -> (CacheModel, Result<Fields, ErrorModel>)
    decreases scope.capture.len() - visiting.len(), 1nat,
{
    match find_captured(cache, name) {
        Some(i) => (cache, Ok(cache[i].1.state)),
        None => match find_entry(scope.capture, name) {
            None => (cache, Err(entry_not_found(name))),
            Some(k) => if visiting.contains(name) || visiting.len() >= scope.capture.len() {
                (cache, Err(entry_in_cycle(name)))
            } else {
                let entry = scope.capture[k].1;
                let done = resolve_ast(scope, cache, visiting.push(name), entry.ast);
                match done.1 {
                    Ok(state) => (
                        put_captured(done.0, name, CapturedModel { state, meta_info: None }),
                        Ok(state),
                    ),
                    Err(e) => (done.0, Err(e.within(entry.expression))),
                }
            },
        },
    }
}

/// The state that a path alone captures: the current state filtered along
/// the path, with nothing expected at its end.
pub open spec fn path_filter(current: Fields, a: Ast) -> Result<Fields, ErrorModel> {
    match compose(a) {
        Err(e) => Err(e.locate(a.pos())),
        Ok(path) => match filter::filter(current, path, Tree::Null) {
            Ok(state) => Ok(state),
            Err(e) => Err(e.locate(a.pos())),
        },
    }
}

/// The state that the expression of an entry evaluates to. An equality
/// filter and a replace work on their three arguments; a path filters the
/// current state; nothing else can stand at the root.
pub open spec fn resolve_ast(scope: Scope, cache: CacheModel, visiting: Seq<Seq<char>>, a: Ast) -> (
    CacheModel,
    Result<Fields, ErrorModel>,
)
    decreases scope.capture.len() - visiting.len(), 6nat,
{
    match a {
        Ast::EqFilter(pos, l, m, r) => {
            let done = resolve_operation(scope, cache, visiting, pos, *l, *m, *r, true);
            match done.1 {
                Ok(state) => (done.0, Ok(state)),
                Err(e) => (done.0, Err(e.eqfilter())),
            }
        },
        Ast::Replace(pos, l, m, r) => {
            let done = resolve_operation(scope, cache, visiting, pos, *l, *m, *r, false);
            match done.1 {
                Ok(state) => (done.0, Ok(state)),
                Err(e) => (done.0, Err(e.replace())),
            }
        },
        Ast::Path(_, _) => (cache, path_filter(scope.current, a)),
        _ => (cache, Err(unsupported_root(a).locate(a.pos()))),
    }
}

/// An operation on its three arguments: the equality filter when
/// `filtering` is set, the replace otherwise. An error of the operation
/// itself is located at the operator.
pub open spec fn resolve_operation(
    scope: Scope,
    cache: CacheModel,
    visiting: Seq<Seq<char>>,
    pos: nat,
    l: Ast,
    m: Ast,
    r: Ast,
    filtering: bool,
) -> (CacheModel, Result<Fields, ErrorModel>)
    decreases scope.capture.len() - visiting.len(), 5nat,
{
    let done = resolve_ternary(scope, cache, visiting, l, m, r);
    match done.1 {
        Err(e) => (done.0, Err(e)),
        Ok(args) => {
            let applied = if filtering {
                filter::filter(args.0, args.1, args.2)
            } else {
                replace::replace(args.0, args.1, args.2)
            };
            match applied {
                Ok(state) => (done.0, Ok(state)),
                Err(e) => (done.0, Err(e.locate(pos))),
            }
        },
    }
}

/// The three arguments of an operation: the state to work on, the path to
/// its target, and the value. The value is a string, or what a path with a
/// reference to a capture entry leads to. An error is located at the
/// argument it arose at.
pub open spec fn resolve_ternary(
    scope: Scope,
    cache: CacheModel,
    visiting: Seq<Seq<char>>,
    l: Ast,
    m: Ast,
    r: Ast,
) -> (CacheModel, Result<(Fields, PathModel, Tree), ErrorModel>)
    decreases scope.capture.len() - visiting.len(), 4nat,
{
    let source = resolve_input_source(scope, cache, visiting, l);
    match source.1 {
        Err(e) => (source.0, Err(e.locate(l.pos()))),
        Ok(input) => match compose(m) {
            Err(e) => (source.0, Err(e.locate(m.pos()))),
            Ok(path) => match r {
                Ast::Str(_, text) => (source.0, Ok((input, path, Tree::Str(text)))),
                Ast::Path(_, _) => {
                    let found = resolve_capture_entry_path(scope, source.0, visiting, r);
                    match found.1 {
                        Ok(value) => (found.0, Ok((input, path, value))),
                        Err(e) => (found.0, Err(e.locate(r.pos()))),
                    }
                },
                _ => (source.0, Err(unsupported_value().locate(r.pos()))),
            },
        },
    }
}

/// The state that an operation works on: the current state, or the state of
/// the capture entry that the argument refers to.
pub open spec fn resolve_input_source(
    scope: Scope,
    cache: CacheModel,
    visiting: Seq<Seq<char>>,
    a: Ast,
) -> (CacheModel, Result<Fields, ErrorModel>)
    decreases scope.capture.len() - visiting.len(), 3nat,
{
    if a.is_current_state() {
        (cache, Ok(scope.current))
    } else {
        match compose(a) {
            Ok(path) => match path.capture_entry_name {
                Some(name) => resolve_entry(scope, cache, visiting, name),
                None => (cache, Err(invalid_path_input_source(a))),
            },
            Err(_) => (cache, Err(invalid_input_source(a))),
        }
    }
}

/// The value that a path with a reference to a capture entry leads to: the
/// entry is resolved, and the steps of the path are walked in its state.
pub open spec fn resolve_capture_entry_path(
    scope: Scope,
    cache: CacheModel,
    visiting: Seq<Seq<char>>,
    a: Ast,
) -> (CacheModel, Result<Tree, ErrorModel>)
    decreases scope.capture.len() - visiting.len(), 3nat,
{
    match compose(a) {
        Err(e) => (cache, Err(e)),
        Ok(path) => match path.capture_entry_name {
            Some(name) => {
                let done = resolve_entry(scope, cache, visiting, name);
                match done.1 {
                    Err(e) => (done.0, Err(e)),
                    Ok(state) => (done.0, walk::walk(state, path)),
                }
            },
            None => (cache, Err(unsupported_value_path())),
        },
    }
}

/// The captured states after the entries from index `i` on are resolved, in
/// their order. The first entry that fails ends the work with its error.
pub open spec fn resolve_from(scope: Scope, cache: CacheModel, i: nat) -> Result<
    CacheModel,
    ErrorModel,
>
    decreases scope.capture.len() - i,
{
    if i >= scope.capture.len() {
        Ok(cache)
    } else {
        let done = resolve_entry(scope, cache, Seq::empty(), scope.capture[i as int].0);
        match done.1 {
            Err(e) => Err(e.resolver()),
            Ok(_) => resolve_from(scope, done.0, i + 1),
        }
    }
}

/// The captured states of a policy: those given, and the state of every
/// capture entry that is not among them.
pub open spec fn resolve(capture: CaptureModel, current: Fields, cache: CacheModel) -> Result<
    CacheModel,
    ErrorModel,
> {
    resolve_from(Scope { capture, current }, cache, 0)
}

/// A context in front of the message leaves the kind, the expression and
/// the position of an error as they are.
pub proof fn lemma_ctx_keeps_place(e: ErrorModel, ctx: Seq<char>)
    ensures
        e.ctx(ctx).kind == e.kind,
        e.ctx(ctx).expression == e.expression,
        e.ctx(ctx).pos == e.pos,
{
}

/// A name that is neither captured nor the name of a capture entry cannot be
/// resolved: the error says that the entry is not found, and the captured
/// states stay as they are.
pub proof fn lemma_undefined_entry(
    scope: Scope,
    cache: CacheModel,
    visiting: Seq<Seq<char>>,
    name: Seq<char>,
)
    requires
        find_captured(cache, name) is None,
        find_entry(scope.capture, name) is None,
    ensures
        resolve_entry(scope, cache, visiting, name) == (
            cache,
            Err::<Fields, ErrorModel>(entry_not_found(name)),
        ),
{
}

/// An operation on the current state whose value is a path with a reference
/// to an undefined capture entry fails with the error that the entry is not
/// found, at the position where the path of the value begins.
pub proof fn lemma_undefined_reference(
    scope: Scope,
    cache: CacheModel,
    visiting: Seq<Seq<char>>,
    pos: nat,
    target: Ast,
    value: Ast,
    filtering: bool,
)
    requires
        compose(target) is Ok,
        value is Path,
        compose(value) matches Ok(path) && (path.capture_entry_name matches Some(name)
            && find_captured(cache, name) is None && find_entry(scope.capture, name) is None),
    ensures
        resolve_operation(
            scope,
            cache,
            visiting,
            pos,
            Ast::current_state(0),
            target,
            value,
            filtering,
        ) == (
            cache,
            Err::<Fields, ErrorModel>(
                entry_not_found(compose(value)->Ok_0.capture_entry_name->0).pos(value.pos()),
            ),
        ),
{
    let name = compose(value)->Ok_0.capture_entry_name->0;
    lemma_undefined_entry(scope, cache, visiting, name);
    assert(Ast::current_state(0).is_current_state());
}

/// When the first capture entry of a policy is an equality filter on the
/// current state whose value refers to an undefined capture entry, the
/// policy cannot be resolved: the error is an evaluation error that records
/// the entry's expression and points at the beginning of the value's path.
pub proof fn lemma_undefined_reference_in_policy(
    capture: CaptureModel,
    current: Fields,
    cache: CacheModel,
)
    requires
        capture.len() > 0,
        find_captured(cache, capture[0].0) is None,
        capture[0].1.ast matches Ast::EqFilter(_, l, m, r) && *l == Ast::current_state(0)
            && compose(*m) is Ok && *r is Path && (compose(*r) matches Ok(path) && (
        path.capture_entry_name matches Some(name) && find_captured(cache, name) is None
            && find_entry(capture, name) is None)),
    ensures
        resolve(capture, current, cache) matches Err(e) && e.kind == ErrorKind::EvaluationError
            && e.expression == Some(capture[0].1.expression) && e.pos
            == capture[0].1.ast->EqFilter_3.pos(),
{
    let scope = Scope { capture, current };
    let name = capture[0].0;
    let entry = capture[0].1;
    let r = *entry.ast->EqFilter_3;
    let m = *entry.ast->EqFilter_2;
    let pos = entry.ast->EqFilter_0;
    let missing = compose(r)->Ok_0.capture_entry_name->0;
    let visiting = Seq::<Seq<char>>::empty().push(name);
    crate::state::lemma_first_index(crate::capture::capture_keys(capture), name);
    assert(crate::capture::capture_keys(capture)[0] == name);
    assert(find_entry(capture, name) == Some(0int));
    lemma_undefined_reference(scope, cache, visiting, pos, m, r, true);
    let raised = entry_not_found(missing).pos(r.pos());
    lemma_ctx_keeps_place(raised, "eqfilter error"@);
    lemma_ctx_keeps_place(raised.eqfilter().within(entry.expression), "resolve error"@);
    assert(resolve_ast(scope, cache, visiting, entry.ast) == (
        cache,
        Err::<Fields, ErrorModel>(raised.eqfilter()),
    ));
    assert(!Seq::<Seq<char>>::empty().contains(name));
}

/// The names that a vector of names stands for.
pub open spec fn names_view(names: Seq<String>) -> Seq<Seq<char>> {
    Seq::new(names.len(), |i: int| names[i]@)
}

fn contains_name(names: &Vec<String>, name: &str) -> (r: bool)
    ensures
        r == names_view(names@).contains(name@),
{
    let mut i: usize = 0;
    while i < names.len()
        invariant
            i <= names.len(),
            forall|j: int| 0 <= j < i ==> names_view(names@)[j] != name@,
        decreases names.len() - i,
    {
        if str_eq(names[i].as_str(), name) {
            proof {
                assert(names_view(names@)[i as int] == name@);
            }
            return true;
        }
        i += 1;
    }
    false
}

/// The result of capturing, as mathematical values.
pub open spec fn cache_result(r: Result<CapturedStates, NmpolicyError>) -> Result<
    CacheModel,
    ErrorModel,
> {
    match r {
        Ok(cache) => Ok(cache@),
        Err(e) => Err(e@),
    }
}

fn unsupported_root_error(node: &Node) -> (r: NmpolicyError)
    ensures
        r@ == unsupported_root(node@).locate(node@.pos()),
{
    let mut msg = String::from_str("root node has unsupported operation: ");
    msg.append(node.to_string().as_str());
    evaluation_error(msg).locate(node.pos)
}

pub struct Resolver {
    pub capture: Capture,
    pub current_state: NMState,
    pub captured_states: CapturedStates,
    pub visiting: Vec<String>,
}

impl Resolver {
    pub open spec fn scope(&self) -> Scope {
        Scope { capture: self.capture@, current: self.current_state@ }
    }

    /// The resolver works in the same scope as `before`, with the same
    /// entries under way; where no name was captured twice, none is now.
    pub open spec fn continues(&self, before: &Resolver) -> bool {
        &&& self.capture == before.capture
        &&& self.current_state == before.current_state
        &&& self.visiting@ == before.visiting@
        &&& before.captured_states.has_unique_names()
            ==> self.captured_states.has_unique_names()
    }

    /// A resolver for the given capture entries, with nothing captured.
    pub fn new(capture: Capture) -> (r: Self)
        ensures
            r.capture == capture,
            r.current_state@.len() == 0,
            r.captured_states@.len() == 0,
            r.visiting@.len() == 0,
    {
        Self {
            capture,
            current_state: NMState::new(),
            captured_states: CapturedStates::new(),
            visiting: Vec::new(),
        }
    }

    /// Resolves every capture entry, in the order of the entries, against the
    /// current state. The captured states given, if any, take the place of
    /// what the resolver has captured before.
    #[verifier::loop_isolation(false)]
    pub fn resolve(&mut self, current_state: NMState, cache: Option<CapturedStates>) -> (r: Result<
        CapturedStates,
        NmpolicyError,
    >)
        ensures
            final(self).capture == old(self).capture,
            final(self).current_state == current_state,
            r matches Ok(states) ==> final(self).captured_states@ == states@,
            r matches Ok(states) ==> (match cache {
                Some(given) => given.has_unique_names(),
                None => old(self).captured_states.has_unique_names(),
            }) ==> states.has_unique_names(),
            cache_result(r) == resolve(
                old(self).capture@,
                current_state@,
                match cache {
                    Some(given) => given@,
                    None => old(self).captured_states@,
                },
            ),
    {
        let ghost given = current_state;
        self.current_state = current_state;
        if let Some(c) = cache {
            self.captured_states = c;
        }
        self.visiting = Vec::new();
        let ghost scope = self.scope();
        let ghost goal = resolve_from(scope, self.captured_states@, 0);
        let ghost unique = self.captured_states.has_unique_names();
        proof {
            assert(names_view(self.visiting@) =~= Seq::<Seq<char>>::empty());
        }
        let mut i: usize = 0;
        while i < self.capture.entries.len()
            invariant
                i <= self.capture.entries.len(),
                self.capture == old(self).capture,
                self.current_state == given,
                self.scope() == scope,
                self.visiting@.len() == 0,
                unique ==> self.captured_states.has_unique_names(),
                resolve_from(scope, self.captured_states@, i as nat) == goal,
            decreases self.capture.entries.len() - i,
        {
            let capture_entry_name = self.capture.entries[i].0.clone();
            proof {
                assert(names_view(self.visiting@) =~= Seq::<Seq<char>>::empty());
                assert(scope.capture[i as int].0 == capture_entry_name@);
            }
            match self.resolve_capture_entry_by_name(&capture_entry_name) {
                Err(e) => {
                    return Err(e.resolver());
                },
                Ok(_) => {},
            }
            i += 1;
        }
        Ok(self.captured_states.clone())
    }

    /// The state of a capture entry: the captured one if there is one, else
    /// the one that the entry's expression evaluates to, which is captured.
    pub fn resolve_capture_entry_by_name(&mut self, capture_entry_name: &String) -> (r: Result<
        NMState,
        NmpolicyError,
    >)
        ensures
            final(self).continues(old(self)),
            (final(self).captured_states@, state_result(r)) == resolve_entry(
                old(self).scope(),
                old(self).captured_states@,
                names_view(old(self).visiting@),
                capture_entry_name@,
            ),
        decreases old(self).capture.entries.len() - old(self).visiting.len(), 1nat,
    {
        if let Some(i) = self.captured_states.find(capture_entry_name.as_str()) {
            return Ok(self.captured_states.entries[i].1.state.clone());
        }
        let k = match self.capture.find(capture_entry_name.as_str()) {
            Some(k) => k,
            None => {
                return Err(
                    evaluation_error_about(
                        "capture entry '",
                        capture_entry_name.as_str(),
                        "' not found",
                    ),
                );
            },
        };
        if contains_name(&self.visiting, capture_entry_name.as_str()) || self.visiting.len()
            >= self.capture.entries.len() {
            return Err(
                evaluation_error_about(
                    "capture entry '",
                    capture_entry_name.as_str(),
                    "' refers to itself",
                ),
            );
        }
        let entry = self.capture.entries[k].1.clone();
        let ghost outer = self.visiting@;
        self.visiting.push(capture_entry_name.clone());
        proof {
            assert(names_view(self.visiting@) =~= names_view(outer).push(capture_entry_name@));
        }
        let result = self.resolve_current_capture_entry(&entry.ast);
        self.visiting.pop();
        proof {
            assert(self.visiting@ =~= outer);
        }
        match result {
            Ok(resolved_state) => {
                self.captured_states.insert(
                    capture_entry_name.clone(),
                    CapturedState { state: resolved_state.clone(), meta_info: None },
                );
                Ok(resolved_state)
            },
            Err(e) => Err(e.within(entry.expression)),
        }
    }

    fn resolve_current_capture_entry(&mut self, current_node: &Node) -> (r: Result<
        NMState,
        NmpolicyError,
    >)
        requires
            old(self).visiting.len() <= old(self).capture.entries.len(),
        ensures
            final(self).continues(old(self)),
            (final(self).captured_states@, state_result(r)) == resolve_ast(
                old(self).scope(),
                old(self).captured_states@,
                names_view(old(self).visiting@),
                current_node@,
            ),
        decreases old(self).capture.entries.len() - old(self).visiting.len(), 6nat,
    {
        match &current_node.kind {
            NodeKind::EqFilter(lhs, ms, rhs) => match self.resolve_eqfilter(
                current_node.pos,
                lhs,
                ms,
                rhs,
            ) {
                Ok(state) => Ok(state),
                Err(e) => Err(e.eqfilter()),
            },
            NodeKind::Replace(lhs, ms, rhs) => match self.resolve_replace(
                current_node.pos,
                lhs,
                ms,
                rhs,
            ) {
                Ok(state) => Ok(state),
                Err(e) => Err(e.replace()),
            },
            NodeKind::Path(_) => self.resolve_path_filter(current_node),
            _ => Err(unsupported_root_error(current_node)),
        }
    }

    fn resolve_eqfilter(&mut self, pos: usize, lhs: &Node, ms: &Node, rhs: &Node) -> (r: Result<
        NMState,
        NmpolicyError,
    >)
        requires
            old(self).visiting.len() <= old(self).capture.entries.len(),
        ensures
            final(self).continues(old(self)),
            (final(self).captured_states@, state_result(r)) == resolve_operation(
                old(self).scope(),
                old(self).captured_states@,
                names_view(old(self).visiting@),
                pos as nat,
                lhs@,
                ms@,
                rhs@,
                true,
            ),
        decreases old(self).capture.entries.len() - old(self).visiting.len(), 5nat,
    {
        match self.resolve_ternary_operator(lhs, ms, rhs) {
            Err(e) => Err(e),
            Ok((input_source, path, value)) => match filter::visit_state(
                input_source,
                path,
                value,
            ) {
                Ok(state) => Ok(state),
                Err(e) => Err(e.locate(pos)),
            },
        }
    }

    fn resolve_replace(&mut self, pos: usize, lhs: &Node, ms: &Node, rhs: &Node) -> (r: Result<
        NMState,
        NmpolicyError,
    >)
        requires
            old(self).visiting.len() <= old(self).capture.entries.len(),
        ensures
            final(self).continues(old(self)),
            (final(self).captured_states@, state_result(r)) == resolve_operation(
                old(self).scope(),
                old(self).captured_states@,
                names_view(old(self).visiting@),
                pos as nat,
                lhs@,
                ms@,
                rhs@,
                false,
            ),
        decreases old(self).capture.entries.len() - old(self).visiting.len(), 5nat,
    {
        match self.resolve_ternary_operator(lhs, ms, rhs) {
            Err(e) => Err(e),
            Ok((input_source, path, value)) => match replace::visit_state(
                input_source,
                path,
                value,
            ) {
                Ok(state) => Ok(state),
                Err(e) => Err(e.locate(pos)),
            },
        }
    }

    fn resolve_path_filter(&self, node: &Node) -> (r: Result<NMState, NmpolicyError>)
        ensures
            state_result(r) == path_filter(self.current_state@, node@),
    {
        match Path::compose_from_node(node.clone()) {
            Err(e) => Err(e.locate(node.pos)),
            Ok(path) => match filter::visit_state(self.current_state.clone(), path, Value::Null) {
                Ok(state) => Ok(state),
                Err(e) => Err(e.locate(node.pos)),
            },
        }
    }

    fn resolve_ternary_operator(&mut self, lhs: &Node, ms: &Node, rhs: &Node) -> (r: Result<
        (NMState, Path, Value),
        NmpolicyError,
    >)
        requires
            old(self).visiting.len() <= old(self).capture.entries.len(),
        ensures
            final(self).continues(old(self)),
            final(self).captured_states@ == resolve_ternary(
                old(self).scope(),
                old(self).captured_states@,
                names_view(old(self).visiting@),
                lhs@,
                ms@,
                rhs@,
            ).0,
            match r {
                Ok(args) => resolve_ternary(
                    old(self).scope(),
                    old(self).captured_states@,
                    names_view(old(self).visiting@),
                    lhs@,
                    ms@,
                    rhs@,
                ).1 == Ok::<(Fields, PathModel, Tree), ErrorModel>((args.0@, args.1@, args.2@)),
                Err(e) => resolve_ternary(
                    old(self).scope(),
                    old(self).captured_states@,
                    names_view(old(self).visiting@),
                    lhs@,
                    ms@,
                    rhs@,
                ).1 == Err::<(Fields, PathModel, Tree), ErrorModel>(e@),
            },
        decreases old(self).capture.entries.len() - old(self).visiting.len(), 4nat,
    {
        let input_source = match self.resolve_input_source(lhs) {
            Ok(input_source) => input_source,
            Err(e) => {
                return Err(e.locate(lhs.pos));
            },
        };
        let path = match Path::compose_from_node(ms.clone()) {
            Ok(path) => path,
            Err(e) => {
                return Err(e.locate(ms.pos));
            },
        };
        let value: Value = match &rhs.kind {
            NodeKind::Str(string) => Value::Str(string.clone()),
            NodeKind::Path(_) => match self.resolve_capture_entry_path(rhs) {
                Ok(value) => value,
                Err(e) => {
                    return Err(e.locate(rhs.pos));
                },
            },
            _ => {
                return Err(
                    evaluation_error(
                        String::from_str(
                            "not supported value. Only string or capture entry path are supported",
                        ),
                    ).locate(rhs.pos),
                );
            },
        };
        Ok((input_source, path, value))
    }

    /// The value that a path with a reference to a capture entry leads to.
    pub fn resolve_capture_entry_path(&mut self, current_node: &Node) -> (r: Result<
        Value,
        NmpolicyError,
    >)
        requires
            old(self).visiting.len() <= old(self).capture.entries.len(),
        ensures
            final(self).continues(old(self)),
            (final(self).captured_states@, value_result(r)) == resolve_capture_entry_path(
                old(self).scope(),
                old(self).captured_states@,
                names_view(old(self).visiting@),
                current_node@,
            ),
        decreases old(self).capture.entries.len() - old(self).visiting.len(), 3nat,
    {
        let path = match Path::compose_from_node(current_node.clone()) {
            Ok(path) => path,
            Err(e) => {
                return Err(e);
            },
        };
        let name = match &path.capture_entry_name {
            Some(capture_entry_name) => capture_entry_name.clone(),
            None => {
                return Err(
                    evaluation_error(
                        String::from_str(
                            "not supported filtered value path. Only paths with a capture entry reference are supported",
                        ),
                    ),
                );
            },
        };
        match self.resolve_capture_entry_by_name(&name) {
            Err(e) => Err(e),
            Ok(captured_state_entry) => walk::visit_state(captured_state_entry, path),
        }
    }

    fn resolve_input_source(&mut self, current_node: &Node) -> (r: Result<
        NMState,
        NmpolicyError,
    >)
        requires
            old(self).visiting.len() <= old(self).capture.entries.len(),
        ensures
            final(self).continues(old(self)),
            (final(self).captured_states@, state_result(r)) == resolve_input_source(
                old(self).scope(),
                old(self).captured_states@,
                names_view(old(self).visiting@),
                current_node@,
            ),
        decreases old(self).capture.entries.len() - old(self).visiting.len(), 3nat,
    {
        if current_node.is_current_state() {
            return Ok(self.current_state.clone());
        }
        match Path::compose_from_node(current_node.clone()) {
            Ok(path) => match &path.capture_entry_name {
                Some(capture_entry_name) => {
                    let name = capture_entry_name.clone();
                    self.resolve_capture_entry_by_name(&name)
                },
                None => Err(
                    evaluation_error_about(
                        "invalid path input source (",
                        current_node.to_string().as_str(),
                        "), only capture reference is supported",
                    ),
                ),
            },
            Err(_) => Err(
                evaluation_error_about(
                    "invalid input source (",
                    current_node.to_string().as_str(),
                    "), only current state or capture reference is supported",
                ),
            ),
        }
    }
}

} // verus!
