//! Walk: the value that a path leads to.
use crate::error::{ErrorKind, ErrorModel, NmpolicyError};
use crate::resolve::path::{raised_below, steps_below, Path, PathModel, Step, StepModel};
use crate::resolve::visitor;
use crate::resolve::visitor::{
    evaluation_error_about, route, unexpected_non_identity_step, value_result, Route,
};
use crate::state::{
    find_field, json_text, list_json_string, values_view, Fields, NMState, Tree, Value,
};
use vstd::prelude::*;
use vstd::string::*;

verus! {

pub open spec fn step_not_found_in_map(map: Fields, pos: nat) -> ErrorModel {
    ErrorModel::plain(
        ErrorKind::EvaluationError,
        "step not found at map state '"@ + json_text(Tree::Object(map)) + "'"@,
    ).path(pos)
}

pub open spec fn step_not_found_in_slice(items: Seq<Tree>, pos: nat) -> ErrorModel {
    ErrorModel::plain(
        ErrorKind::EvaluationError,
        "step not found at slice state '"@ + json_text(Tree::Array(items)) + "'"@,
    ).path(pos)
}

pub open spec fn unexpected_non_numeric_step(items: Seq<Tree>, pos: nat) -> ErrorModel {
    ErrorModel::plain(
        ErrorKind::EvaluationError,
        "unexpected non numeric step for slice state '"@ + json_text(Tree::Array(items)) + "'"@,
    ).path(pos)
}

/// The index of the entry of a map that the current step, an identifier,
/// names.
pub open spec fn access_map(path: PathModel, map: Fields) -> Result<int, ErrorModel> {
    match path.current_step() {
        StepModel::Identity(pos, name) => match find_field(map, name) {
            Some(i) => Ok(i),
            None => Err(step_not_found_in_map(map, pos)),
        },
        StepModel::Number(pos, _) => Err(unexpected_non_identity_step(map, pos)),
    }
}

/// The index of the item of a list that the current step, a number inside
/// the list, gives.
pub open spec fn access_slice(path: PathModel, items: Seq<Tree>) -> Result<int, ErrorModel> {
    match path.current_step() {
        StepModel::Number(pos, index) => if index < items.len() {
            Ok(index as int)
        } else {
            Err(step_not_found_in_slice(items, pos))
        },
        StepModel::Identity(pos, _) => Err(unexpected_non_numeric_step(items, pos)),
    }
}

/// The value that the path leads to inside a value, from the step that the
/// cursor stands on.
pub open spec fn visit(path: PathModel, t: Tree) -> Result<Tree, ErrorModel>
    decreases t,
{
    match route(path, t) {
        Err(e) => Err(e),
        Ok(found) => match t {
            Tree::Object(map) => match access_map(path, map) {
                Err(e) => Err(e),
                Ok(i) => if 0 <= i < map.len() {
                    if found == Route::InMap {
                        visit(path.next_step(), map[i].1)
                    } else {
                        Ok(map[i].1)
                    }
                } else {
                    Ok(Tree::Null)
                },
            },
            Tree::Array(items) => match access_slice(path, items) {
                Err(e) => Err(e),
                Ok(i) => if 0 <= i < items.len() {
                    if found == Route::InSlice {
                        visit(path.next_step(), items[i])
                    } else {
                        Ok(items[i])
                    }
                } else {
                    Ok(Tree::Null)
                },
            },
            _ => Ok(Tree::Null),
        },
    }
}

/// The value that a path leads to in a state. A path without steps leads to
/// the whole state.
pub open spec fn walk(state: Fields, path: PathModel) -> Result<Tree, ErrorModel> {
    if !path.on_step() {
        Ok(Tree::Object(state))
    } else {
        match visit(path, Tree::Object(state)) {
            Ok(found) => Ok(found),
            Err(e) => Err(e.ctx("failed walking path"@)),
        }
    }
}

/// An error of the walk is tied to no expression and points at a step of
/// the path.
pub proof fn lemma_walk_errors(path: PathModel, t: Tree, limit: nat)
    requires
        path.on_step(),
        steps_below(path, limit),
        limit > 0,
    ensures
        visit(path, t) matches Err(e) ==> raised_below(e, limit),
    decreases t,
{
    let step = path.current_step();
    assert(step.pos() < limit);
    match route(path, t) {
        Ok(found) => match t {
            Tree::Object(map) => match access_map(path, map) {
                Ok(i) => {
                    if 0 <= i < map.len() && found == Route::InMap {
                        lemma_walk_errors(path.next_step(), map[i].1, limit);
                    }
                },
                Err(_) => {},
            },
            Tree::Array(items) => match access_slice(path, items) {
                Ok(i) => {
                    if 0 <= i < items.len() && found == Route::InSlice {
                        lemma_walk_errors(path.next_step(), items[i], limit);
                    }
                },
                Err(_) => {},
            },
            _ => {},
        },
        Err(_) => {},
    }
}

/// An error of walking in a state is tied to no expression and points at a
/// step of the path.
pub proof fn lemma_walk_raised_below(state: Fields, path: PathModel, limit: nat)
    requires
        steps_below(path, limit),
        limit > 0,
    ensures
        walk(state, path) matches Err(e) ==> raised_below(e, limit),
{
    if path.on_step() {
        lemma_walk_errors(path, Tree::Object(state), limit);
    }
}

/// A value that the walk leads to in a tree in which no name occurs twice
/// holds no name twice either.
pub proof fn lemma_walk_unique(path: PathModel, t: Tree)
    requires
        t.names_unique(),
        visit(path, t) is Ok,
    ensures
        visit(path, t)->Ok_0.names_unique(),
    decreases t,
{
    match route(path, t) {
        Ok(found) => match t {
            Tree::Object(map) => match access_map(path, map) {
                Ok(i) => {
                    if 0 <= i < map.len() {
                        assert(map[i].1.names_unique());
                        if found == Route::InMap {
                            lemma_walk_unique(path.next_step(), map[i].1);
                        }
                    }
                },
                Err(_) => {},
            },
            Tree::Array(items) => match access_slice(path, items) {
                Ok(i) => {
                    if 0 <= i < items.len() {
                        assert(items[i].names_unique());
                        if found == Route::InSlice {
                            lemma_walk_unique(path.next_step(), items[i]);
                        }
                    }
                },
                Err(_) => {},
            },
            _ => {},
        },
        Err(_) => {},
    }
}

pub struct WalkVisitor {}

/// The value that a path leads to in a state.
pub fn visit_state(input_state: NMState, path: Path) -> (r: Result<Value, NmpolicyError>)
    ensures
        value_result(r) == walk(input_state@, path@),
{
    let input = Value::Object(input_state);
    if path.current_step_idx >= path.steps.len() {
        return Ok(input);
    }
    let visitor = WalkVisitor {  };
    match visitor.visit(&path, &input) {
        Ok(visit_result) => Ok(visit_result),
        Err(e) => Err(e.ctx(String::from_str("failed walking path"))),
    }
}

/// The index of the entry that the current step names in a map.
pub fn access_map_with_current_state(path: &Path, map_to_access: &NMState) -> (r: Result<
    usize,
    NmpolicyError,
>)
    requires
        path@.on_step(),
    ensures
        match r {
            Ok(i) => access_map(path@, map_to_access@) == Ok::<int, ErrorModel>(i as int) && i
                < map_to_access.entries.len(),
            Err(e) => access_map(path@, map_to_access@) == Err::<int, ErrorModel>(e@),
        },
{
    match path.current_step() {
        Step::Identity(pos, step) => match map_to_access.find(step.as_str()) {
            Some(i) => Ok(i),
            None => Err(
                evaluation_error_about(
                    "step not found at map state '",
                    map_to_access.to_json_string().as_str(),
                    "'",
                ).path(*pos),
            ),
        },
        Step::Number(pos, _) => Err(
            evaluation_error_about(
                "unexpected non identity step for map state '",
                map_to_access.to_json_string().as_str(),
                "'",
            ).path(*pos),
        ),
    }
}

/// The index that the current step gives in a list.
pub fn access_slice_with_current_state(path: &Path, slice_to_access: &Vec<Value>) -> (r: Result<
    usize,
    NmpolicyError,
>)
    requires
        path@.on_step(),
    ensures
        match r {
            Ok(i) => access_slice(path@, values_view(slice_to_access@)) == Ok::<int, ErrorModel>(
                i as int,
            ) && i < slice_to_access.len(),
            Err(e) => access_slice(path@, values_view(slice_to_access@)) == Err::<
                int,
                ErrorModel,
            >(e@),
        },
{
    match path.current_step() {
        Step::Number(pos, step) => {
            if slice_to_access.len() > *step {
                Ok(*step)
            } else {
                Err(
                    evaluation_error_about(
                        "step not found at slice state '",
                        list_json_string(slice_to_access).as_str(),
                        "'",
                    ).path(*pos),
                )
            }
        },
        Step::Identity(pos, _) => Err(
            evaluation_error_about(
                "unexpected non numeric step for slice state '",
                list_json_string(slice_to_access).as_str(),
                "'",
            ).path(*pos),
        ),
    }
}

impl WalkVisitor {
    pub fn visit(&self, path: &Path, value: &Value) -> (r: Result<Value, NmpolicyError>)
        requires
            path@.on_step(),
        ensures
            value_result(r) == visit(path@, value@),
        decreases value,
    {
        match visitor::visit_state(path, value) {
            Err(e) => Err(e),
            Ok(found) => match value {
                Value::Object(map) => match access_map_with_current_state(path, map) {
                    Err(e) => Err(e),
                    Ok(i) => {
                        let value_to_visit = &map.entries[i].1;
                        match found {
                            Route::InMap => {
                                let mut next = path.clone();
                                next.next_step();
                                self.visit(&next, value_to_visit)
                            },
                            _ => Ok(value_to_visit.clone()),
                        }
                    },
                },
                Value::Array(items) => match access_slice_with_current_state(path, items) {
                    Err(e) => Err(e),
                    Ok(i) => {
                        let value_to_visit = &items[i];
                        match found {
                            Route::InSlice => {
                                let mut next = path.clone();
                                next.next_step();
                                self.visit(&next, value_to_visit)
                            },
                            _ => Ok(value_to_visit.clone()),
                        }
                    },
                },
                _ => Ok(Value::Null),
            },
        }
    }
}

} // verus!
