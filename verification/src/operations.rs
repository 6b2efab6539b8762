//! The entry point of the library.
use crate::capture;
use crate::capture::{
    captured, entry_path_value, lemma_captured_errors_placed, lemma_entry_path_value_placed,
    CaptureEntryResolver,
};
use crate::error::{placed, ErrorModel, NmpolicyError};
use crate::expand::expander::{answers_placed, expand, lemma_expand_errors_placed, StateExpander};
use crate::state::{Fields, NMState};
use crate::types::{CacheModel, CapturedStates, GeneratedModel, GeneratedState, PolicyModel,
    PolicySpec};
use vstd::prelude::*;

verus! {

/// What a policy generates from the current state: the captured states, and
/// the desired state with each placeholder replaced by the value that its
/// path leads to in the captured states. If a capture entry cannot be
/// resolved or a placeholder cannot be filled in, nothing is generated.
pub open spec fn generate(policy: PolicyModel, current: Fields, cache: Option<CacheModel>)
    -> Result<GeneratedModel, ErrorModel> {
    match captured(policy.capture, current, cache) {
        Err(e) => Err(e),
        Ok(states) => match expand(
            |capture_path: Seq<char>| entry_path_value(capture_path, states),
            policy.desired_state,
        ) {
            Err(e) => Err(e),
            Ok(desired_state) => Ok(GeneratedModel { cache: states, desired_state }),
        },
    }
}

/// A policy without capture entries and with an empty desired state
/// generates nothing, whatever the current state and the captured states
/// given.
pub proof fn lemma_empty_policy(current: Fields, cache: Option<CacheModel>)
    ensures
        generate(
            PolicyModel { capture: Seq::empty(), desired_state: Seq::empty() },
            current,
            cache,
        ) == Ok::<GeneratedModel, ErrorModel>(
            GeneratedModel { cache: Seq::empty(), desired_state: Seq::empty() },
        ),
{
}

/// An error of generating is tied to an expression or points nowhere, and
/// one that is tied to an expression points at a byte inside it.
pub proof fn lemma_generate_errors_placed(
    policy: PolicyModel,
    current: Fields,
    cache: Option<CacheModel>,
)
    ensures
        generate(policy, current, cache) matches Err(e) ==> placed(e),
{
    lemma_captured_errors_placed(policy.capture, current, cache);
    match captured(policy.capture, current, cache) {
        Ok(states) => {
            let answers = |capture_path: Seq<char>| entry_path_value(capture_path, states);
            assert forall|capture_path: Seq<char>|
                (#[trigger] answers(capture_path)) is Err implies placed(
                answers(capture_path)->Err_0,
            ) by {
                lemma_entry_path_value_placed(capture_path, states);
            }
            assert(answers_placed(answers));
            lemma_expand_errors_placed(answers, policy.desired_state);
        },
        Err(_) => {},
    }
}

/// The result of generating, as mathematical values.
pub open spec fn generated_result(r: Result<GeneratedState, NmpolicyError>) -> Result<
    GeneratedModel,
    ErrorModel,
> {
    match r {
        Ok(generated) => Ok(generated@),
        Err(e) => Err(e@),
    }
}

/// Generates the captured states and the expanded desired state of a
/// policy from the current state, with the captured states that are given.
pub fn generate_state(
    policy_spec: PolicySpec,
    current_state: NMState,
    cache: Option<CapturedStates>,
) -> (r: Result<GeneratedState, NmpolicyError>)
    ensures
        generated_result(r) == generate(
            policy_spec@,
            current_state@,
            match cache {
                Some(given) => Some(given@),
                None => None,
            },
        ),
        r matches Ok(generated) ==> (cache matches Some(given) ==> given.has_unique_names())
            ==> generated.cache.has_unique_names(),
{
    let captured_states = match capture::resolve_entries(
        policy_spec.capture,
        current_state,
        cache,
    ) {
        Ok(captured_states) => captured_states,
        Err(e) => {
            return Err(e);
        },
    };
    let capture_entry_resolver = CaptureEntryResolver::new(captured_states.clone());
    let state_expander = StateExpander::new(capture_entry_resolver);
    proof {
        assert(state_expander.answers() =~= (|capture_path: Seq<char>|
            entry_path_value(capture_path, captured_states@)));
    }
    match state_expander.expand(policy_spec.desired_state) {
        Ok(expanded_desired_state) => Ok(
            GeneratedState { cache: captured_states, desired_state: expanded_desired_state },
        ),
        Err(e) => Err(e),
    }
}

} // verus!
