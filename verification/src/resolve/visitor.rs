//! The walk over a state tree that filter, replace and walk share: at each
//! value, the kind of the value and the place in the path decide what is
//! visited next.
use crate::error::{evaluation_error, ErrorKind, ErrorModel, NmpolicyError};
use crate::resolve::path::{Path, PathModel, Step, StepModel};
use crate::state::{debug_text, json_text, Fields, Tree, Value};
use vstd::prelude::*;
use vstd::string::*;

verus! {

/// What is visited at a value.
#[derive(Debug, Clone, Copy, PartialEq, Eq, Structural)]
pub enum Route {
    /// A map, with more steps to go after the current one.
    InMap,
    /// A map at the last step.
    LastMap,
    /// A list, with more steps to go after the current one.
    InSlice,
    /// A list at the last step.
    LastSlice,
}

/// The result of an operation on a value, as mathematical values.
pub open spec fn value_result(r: Result<Value, NmpolicyError>) -> Result<Tree, ErrorModel> {
    match r {
        Ok(v) => Ok(v@),
        Err(e) => Err(e@),
    }
}

pub open spec fn unexpected_non_identity_step(map: Fields, pos: nat) -> ErrorModel {
    ErrorModel::plain(
        ErrorKind::EvaluationError,
        "unexpected non identity step for map state '"@ + json_text(Tree::Object(map)) + "'"@,
    ).path(pos)
}

pub open spec fn invalid_type_for_step(t: Tree, step: StepModel) -> ErrorModel {
    ErrorModel::plain(
        ErrorKind::EvaluationError,
        "invalid type "@ + debug_text(t) + " for identity step '"@ + step.text() + "'"@,
    ).path(step.pos())
}

/// Where the walk goes at a value. In a map with more steps to go the
/// current step has to be an identifier. In a list the kind of the step is
/// not looked at. Any other value cannot be entered: that is an error at the
/// current step.
pub open spec fn route(path: PathModel, t: Tree) -> Result<Route, ErrorModel>
    recommends
        path.on_step(),
{
    match t {
        Tree::Object(map) => if path.has_more_steps() {
            match path.current_step() {
                StepModel::Identity(_, _) => Ok(Route::InMap),
                StepModel::Number(pos, _) => Err(unexpected_non_identity_step(map, pos)),
            }
        } else {
            Ok(Route::LastMap)
        },
        Tree::Array(_) => if path.has_more_steps() {
            Ok(Route::InSlice)
        } else {
            Ok(Route::LastSlice)
        },
        _ => Err(invalid_type_for_step(t, path.current_step())),
    }
}

/// An evaluation error with a message in three parts.
pub fn evaluation_error_about(head: &str, middle: &str, tail: &str) -> (r: NmpolicyError)
    ensures
        r@ == ErrorModel::plain(ErrorKind::EvaluationError, head@ + middle@ + tail@),
{
    let mut msg = String::from_str(head);
    msg.append(middle);
    msg.append(tail);
    evaluation_error(msg)
}

/// Tells where the walk goes at a value, from the kind of the value and the
/// place of the cursor in the path.
pub fn visit_state(path: &Path, input_state: &Value) -> (r: Result<Route, NmpolicyError>)
    requires
        path@.on_step(),
    ensures
        match r {
            Ok(found) => route(path@, input_state@) == Ok::<Route, ErrorModel>(found),
            Err(e) => route(path@, input_state@) == Err::<Route, ErrorModel>(e@),
        },
{
    match input_state {
        Value::Object(map_state) => {
            if path.has_more_steps() {
                match path.current_step() {
                    Step::Identity(_, _) => Ok(Route::InMap),
                    Step::Number(pos, _) => Err(
                        evaluation_error_about(
                            "unexpected non identity step for map state '",
                            map_state.to_json_string().as_str(),
                            "'",
                        ).path(*pos),
                    ),
                }
            } else {
                Ok(Route::LastMap)
            }
        },
        Value::Array(_) => {
            if path.has_more_steps() {
                Ok(Route::InSlice)
            } else {
                Ok(Route::LastSlice)
            }
        },
        _ => {
            let step = path.current_step();
            let mut msg = String::from_str("invalid type ");
            msg.append(input_state.debug_string().as_str());
            msg.append(" for identity step '");
            msg.append(step.to_string().as_str());
            msg.append("'");
            Err(evaluation_error(msg).path(step.pos()))
        },
    }
}

} // verus!
