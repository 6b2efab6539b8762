//! Where the errors of the resolver point.
use crate::ast::node::{positions_below, Ast};
use crate::capture::{capture_keys, find_entry, CaptureModel};
use crate::error::{placed, placed_below, ErrorModel};
use crate::resolve::filter::lemma_filter_raised_below;
use crate::resolve::path::{compose, lemma_compose_positions};
use crate::resolve::replace::lemma_replace_raised_below;
use crate::resolve::resolver::{
    resolve, resolve_ast, resolve_capture_entry_path, resolve_entry, resolve_from,
    resolve_input_source, resolve_operation, resolve_ternary, Scope,
};
use crate::resolve::walk::lemma_walk_raised_below;
use crate::state::{lemma_first_index, Tree};
use crate::text::byte_len;
use crate::types::CacheModel;
use vstd::prelude::*;

verus! {

/// In every capture entry the positions of the syntax tree lie inside the
/// entry's expression.
pub open spec fn capture_within_expressions(capture: CaptureModel) -> bool {
    forall|i: int|
        0 <= i < capture.len() ==> positions_below(
            (#[trigger] capture[i]).1.ast,
            byte_len(capture[i].1.expression),
        )
}

proof fn lemma_entry_placed(
    scope: Scope,
    cache: CacheModel,
    visiting: Seq<Seq<char>>,
    name: Seq<char>,
)
    requires
        capture_within_expressions(scope.capture),
    ensures
        resolve_entry(scope, cache, visiting, name).1 matches Err(e) ==> placed(e),
    decreases scope.capture.len() - visiting.len(), 1nat,
{
    lemma_first_index(capture_keys(scope.capture), name);
    match find_entry(scope.capture, name) {
        Some(k) => {
            if !(visiting.contains(name) || visiting.len() >= scope.capture.len()) {
                let entry = scope.capture[k].1;
                lemma_ast_placed(
                    scope,
                    cache,
                    visiting.push(name),
                    entry.ast,
                    byte_len(entry.expression),
                );
            }
        },
        None => {},
    }
}

proof fn lemma_ast_placed(
    scope: Scope,
    cache: CacheModel,
    visiting: Seq<Seq<char>>,
    a: Ast,
    limit: nat,
)
    requires
        capture_within_expressions(scope.capture),
        positions_below(a, limit),
        visiting.len() <= scope.capture.len(),
    ensures
        resolve_ast(scope, cache, visiting, a).1 matches Err(e) ==> placed_below(e, limit),
    decreases scope.capture.len() - visiting.len(), 6nat,
{
    match a {
        Ast::EqFilter(pos, l, m, r) => {
            lemma_operation_placed(scope, cache, visiting, pos, *l, *m, *r, true, limit);
        },
        Ast::Replace(pos, l, m, r) => {
            lemma_operation_placed(scope, cache, visiting, pos, *l, *m, *r, false, limit);
        },
        Ast::Path(_, _) => {
            lemma_compose_positions(a, limit);
            match compose(a) {
                Ok(path) => {
                    lemma_filter_raised_below(scope.current, path, Tree::Null, limit);
                },
                Err(_) => {},
            }
        },
        _ => {},
    }
}

proof fn lemma_operation_placed(
    scope: Scope,
    cache: CacheModel,
    visiting: Seq<Seq<char>>,
    pos: nat,
    l: Ast,
    m: Ast,
    r: Ast,
    filtering: bool,
    limit: nat,
)
    requires
        capture_within_expressions(scope.capture),
        pos < limit,
        positions_below(l, limit),
        positions_below(m, limit),
        positions_below(r, limit),
        visiting.len() <= scope.capture.len(),
    ensures
        resolve_operation(scope, cache, visiting, pos, l, m, r, filtering).1 matches Err(e)
            ==> placed_below(e, limit),
    decreases scope.capture.len() - visiting.len(), 5nat,
{
    lemma_ternary_placed(scope, cache, visiting, l, m, r, limit);
    lemma_compose_positions(m, limit);
    match resolve_ternary(scope, cache, visiting, l, m, r).1 {
        Ok(args) => {
            if filtering {
                lemma_filter_raised_below(args.0, args.1, args.2, limit);
            } else {
                lemma_replace_raised_below(args.0, args.1, args.2, limit);
            }
        },
        Err(_) => {},
    }
}

proof fn lemma_ternary_placed(
    scope: Scope,
    cache: CacheModel,
    visiting: Seq<Seq<char>>,
    l: Ast,
    m: Ast,
    r: Ast,
    limit: nat,
)
    requires
        capture_within_expressions(scope.capture),
        positions_below(l, limit),
        positions_below(m, limit),
        positions_below(r, limit),
        visiting.len() <= scope.capture.len(),
    ensures
        resolve_ternary(scope, cache, visiting, l, m, r).1 matches Err(e) ==> placed_below(
            e,
            limit,
        ),
        resolve_ternary(scope, cache, visiting, l, m, r).1 matches Ok(args) ==> compose(m)
            == Ok::<crate::resolve::path::PathModel, ErrorModel>(args.1),
    decreases scope.capture.len() - visiting.len(), 4nat,
{
    lemma_input_source_placed(scope, cache, visiting, l);
    lemma_compose_positions(m, limit);
    let source = resolve_input_source(scope, cache, visiting, l);
    if source.1 is Ok && compose(m) is Ok && r is Path {
        lemma_entry_path_placed(scope, source.0, visiting, r, limit);
    }
}

proof fn lemma_input_source_placed(
    scope: Scope,
    cache: CacheModel,
    visiting: Seq<Seq<char>>,
    a: Ast,
)
    requires
        capture_within_expressions(scope.capture),
        visiting.len() <= scope.capture.len(),
    ensures
        resolve_input_source(scope, cache, visiting, a).1 matches Err(e) ==> placed(e),
    decreases scope.capture.len() - visiting.len(), 3nat,
{
    if !a.is_current_state() {
        match compose(a) {
            Ok(path) => match path.capture_entry_name {
                Some(name) => {
                    lemma_entry_placed(scope, cache, visiting, name);
                },
                None => {},
            },
            Err(_) => {},
        }
    }
}

proof fn lemma_entry_path_placed(
    scope: Scope,
    cache: CacheModel,
    visiting: Seq<Seq<char>>,
    a: Ast,
    limit: nat,
)
    requires
        capture_within_expressions(scope.capture),
        positions_below(a, limit),
        visiting.len() <= scope.capture.len(),
    ensures
        resolve_capture_entry_path(scope, cache, visiting, a).1 matches Err(e) ==> placed_below(
            e,
            limit,
        ),
    decreases scope.capture.len() - visiting.len(), 3nat,
{
    lemma_compose_positions(a, limit);
    match compose(a) {
        Ok(path) => match path.capture_entry_name {
            Some(name) => {
                lemma_entry_placed(scope, cache, visiting, name);
                match resolve_entry(scope, cache, visiting, name).1 {
                    Ok(state) => {
                        lemma_walk_raised_below(state, path, limit);
                    },
                    Err(_) => {},
                }
            },
            None => {},
        },
        Err(_) => {},
    }
}

/// An error of evaluating a path with a reference to a capture entry points
/// inside the expression it is tied to, or below `limit` while it is tied to
/// none, when the positions of the path lie below `limit`.
pub proof fn lemma_entry_path_errors(
    scope: Scope,
    cache: CacheModel,
    visiting: Seq<Seq<char>>,
    a: Ast,
    limit: nat,
)
    requires
        capture_within_expressions(scope.capture),
        positions_below(a, limit),
        visiting.len() <= scope.capture.len(),
    ensures
        resolve_capture_entry_path(scope, cache, visiting, a).1 matches Err(e) ==> placed_below(
            e,
            limit,
        ),
{
    lemma_entry_path_placed(scope, cache, visiting, a, limit);
}

proof fn lemma_resolve_from_placed(scope: Scope, cache: CacheModel, i: nat)
    requires
        capture_within_expressions(scope.capture),
    ensures
        resolve_from(scope, cache, i) matches Err(e) ==> placed(e),
    decreases scope.capture.len() - i,
{
    if i < scope.capture.len() {
        let done = resolve_entry(scope, cache, Seq::empty(), scope.capture[i as int].0);
        lemma_entry_placed(scope, cache, Seq::empty(), scope.capture[i as int].0);
        if done.1 is Ok {
            lemma_resolve_from_placed(scope, done.0, i + 1);
        }
    }
}

/// When the positions in every capture entry lie inside the entry's
/// expression, an error of resolving the entries points inside the
/// expression it is tied to.
pub proof fn lemma_resolve_errors_placed(
    capture: CaptureModel,
    current: crate::state::Fields,
    cache: CacheModel,
)
    requires
        capture_within_expressions(capture),
    ensures
        resolve(capture, current, cache) matches Err(e) ==> placed(e),
{
    lemma_resolve_from_placed(Scope { capture, current }, cache, 0);
}

} // verus!
