//! Replace: sets the value at the end of a path, in every map that the path
//! leads to.
use crate::error::{evaluation_error, ErrorKind, ErrorModel, NmpolicyError};
use crate::resolve::filter;
use crate::resolve::filter::state_result;
use crate::resolve::path::{
    not_implemented, raised_below, steps_below, three_names, Path, PathModel, Step, StepModel,
};
use crate::resolve::visitor;
use crate::resolve::visitor::{route, value_result, Route};
use crate::state::{
    field_keys, find_field, get_field, lemma_first_index, lemma_put_field_adds,
    lemma_put_field_keeps_keys, lemma_put_field_unique, lemma_same_as_itself, put_field,
    values_view, Fields, NMState, Tree, Value,
};
use vstd::prelude::*;
use vstd::string::*;

verus! {

/// The marker for a step that replace does not take.
pub open spec fn not_supported() -> ErrorModel {
    ErrorModel::plain(ErrorKind::NotSupportedError, Seq::empty())
}

/// A map at the last step: the name of the step is set to the new value.
pub open spec fn visit_last_map(path: PathModel, map: Fields, value: Tree) -> Result<
    Tree,
    ErrorModel,
> {
    match path.current_step() {
        StepModel::Identity(_, name) => Ok(Tree::Object(put_field(map, name, value))),
        StepModel::Number(_, _) => Err(not_implemented()),
    }
}

/// The first `n` items of a list, each with the value replaced in it. An
/// item in which the path leads nowhere stays as it is.
pub open spec fn replace_items(path: PathModel, items: Seq<Tree>, n: nat, value: Tree) -> Result<
    Seq<Tree>,
    ErrorModel,
>
    decreases items, n,
{
    if n == 0 || n > items.len() {
        Ok(Seq::empty())
    } else {
        match replace_items(path, items, (n - 1) as nat, value) {
            Err(e) => Err(e),
            Ok(done) => match visit(path, items[n - 1], value) {
                Err(e) => Err(e),
                Ok(replaced) => if replaced.is_null() {
                    Ok(done.push(items[n - 1]))
                } else {
                    Ok(done.push(replaced))
                },
            },
        }
    }
}

/// A list before the last step: the current step, an identifier, is applied
/// to every item.
pub open spec fn visit_slice(path: PathModel, items: Seq<Tree>, value: Tree) -> Result<
    Tree,
    ErrorModel,
>
    decreases items, items.len() + 1,
{
    match path.current_step() {
        StepModel::Identity(_, _) => match replace_items(path, items, items.len(), value) {
            Err(e) => Err(e),
            Ok(done) => Ok(Tree::Array(done)),
        },
        StepModel::Number(_, _) => Err(not_supported()),
    }
}

/// A list at the last step is gone through like one before it.
pub open spec fn visit_last_slice(path: PathModel, items: Seq<Tree>, value: Tree) -> Result<
    Tree,
    ErrorModel,
>
    decreases items, items.len() + 2,
{
    match path.current_step() {
        StepModel::Identity(_, _) => visit_slice(path, items, value),
        StepModel::Number(_, _) => Err(not_implemented()),
    }
}

/// A map before the last step: the value of the current step is replaced by
/// what the rest of the path makes of it. Where the rest of the path leads
/// nowhere in that value, the map stays as it is. Without the name the
/// result is null: the path leads nowhere in the map.
pub open spec fn visit_map(path: PathModel, map: Fields, value: Tree) -> Result<Tree, ErrorModel>
    decreases map, 0nat,
{
    match path.current_step() {
        StepModel::Identity(_, name) => match find_field(map, name) {
            Some(i) => if 0 <= i < map.len() {
                match visit(path.next_step(), map[i].1, value) {
                    Ok(replaced) => if replaced.is_null() {
                        Ok(Tree::Object(map))
                    } else {
                        Ok(Tree::Object(put_field(map, name, replaced)))
                    },
                    Err(e) => Err(e),
                }
            } else {
                Ok(Tree::Null)
            },
            None => Ok(Tree::Null),
        },
        StepModel::Number(_, _) => Err(not_supported()),
    }
}

/// The value with the new value set at the end of the path, from the step
/// that the cursor stands on.
pub open spec fn visit(path: PathModel, t: Tree, value: Tree) -> Result<Tree, ErrorModel>
    decreases t, 0nat,
{
    match route(path, t) {
        Err(e) => Err(e),
        Ok(Route::InMap) => match t {
            Tree::Object(map) => visit_map(path, map, value),
            _ => Ok(Tree::Null),
        },
        Ok(Route::LastMap) => match t {
            Tree::Object(map) => visit_last_map(path, map, value),
            _ => Ok(Tree::Null),
        },
        Ok(Route::InSlice) => match t {
            Tree::Array(items) => visit_slice(path, items, value),
            _ => Ok(Tree::Null),
        },
        Ok(Route::LastSlice) => match t {
            Tree::Array(items) => visit_last_slice(path, items, value),
            _ => Ok(Tree::Null),
        },
    }
}

pub open spec fn not_a_map() -> ErrorModel {
    ErrorModel::plain(ErrorKind::EvaluationError, "failed converting result to a map"@)
}

/// The state with the value set at the end of the path. A path without a
/// step to stand on cannot be applied. A null result is the empty state.
pub open spec fn replace(state: Fields, path: PathModel, value: Tree) -> Result<
    Fields,
    ErrorModel,
> {
    if !path.on_step() {
        Err(not_implemented())
    } else {
        match visit(path, Tree::Object(state), value) {
            Ok(Tree::Object(map)) => Ok(map),
            Ok(Tree::Null) => Ok(Seq::empty()),
            Ok(_) => Err(not_a_map()),
            Err(e) => Err(e.ctx("failed applying operation on the path"@)),
        }
    }
}

/// Once an item fails, the list fails with the same error however many
/// items are looked at after it.
proof fn lemma_replace_items_fails(
    path: PathModel,
    items: Seq<Tree>,
    n: nat,
    m: nat,
    value: Tree,
)
    requires
        n <= m <= items.len(),
        replace_items(path, items, n, value) is Err,
    ensures
        replace_items(path, items, m, value) == replace_items(path, items, n, value),
    decreases m - n,
{
    if n < m {
        lemma_replace_items_fails(path, items, n, (m - 1) as nat, value);
    }
}

/// The path leads to a place in the value where replace can set a value:
/// through maps that have the names of the steps, and through lists that
/// are not empty and in which it leads to such a place in every item. Every
/// step is an identifier.
pub open spec fn leads_to_a_place(path: PathModel, t: Tree) -> bool
    decreases t,
{
    match t {
        Tree::Object(map) => path.current_step() matches StepModel::Identity(_, name) && (
        path.has_more_steps() ==> (find_field(map, name) matches Some(i) && 0 <= i < map.len()
            && leads_to_a_place(path.next_step(), map[i].1))),
        Tree::Array(items) => path.current_step() is Identity && items.len() > 0 && forall|
            i: int,
        | 0 <= i < items.len() ==> leads_to_a_place(path, #[trigger] items[i]),
        _ => false,
    }
}

/// The filter leaves something: a value that is not null, and no empty map.
pub open spec fn finds_a_value(r: Result<Tree, ErrorModel>) -> bool {
    r matches Ok(found) && !found.is_null() && (found matches Tree::Object(m) ==> m.len() > 0)
}

/// After a name is set in a map, the map has the value for the name.
proof fn lemma_put_then_get(map: Fields, name: Seq<char>, value: Tree)
    ensures
        get_field(put_field(map, name, value), name) == Some(value),
        put_field(map, name, value).len() > 0,
        find_field(put_field(map, name, value), name) matches Some(i) && 0 <= i < put_field(
            map,
            name,
            value,
        ).len() && put_field(map, name, value)[i].1 == value,
{
    if find_field(map, name) is Some {
        lemma_put_field_keeps_keys(map, name, value);
        lemma_first_index(field_keys(map), name);
    } else {
        lemma_put_field_adds(map, name, value);
    }
}

/// Where the path leads to a place in every item, every item is replaced.
proof fn lemma_items_replaced(path: PathModel, items: Seq<Tree>, n: nat, value: Tree)
    requires
        n <= items.len(),
        forall|i: int| 0 <= i < items.len() ==> leads_to_a_place(path, #[trigger] items[i]),
    ensures
        replace_items(path, items, n, value) matches Ok(done) && done.len() == n && forall|
            k: int,
        |
            0 <= k < n ==> finds_a_value(filter::visit(path, #[trigger] done[k], value, true)),
    decreases items, n,
{
    if n > 0 {
        lemma_items_replaced(path, items, (n - 1) as nat, value);
        lemma_replaced_value_is_found(path, items[n - 1], value, true);
    }
}

/// Items of which each one matches are all kept, and the list matches if
/// it has an item.
proof fn lemma_matching_items_kept(
    path: PathModel,
    items: Seq<Tree>,
    n: nat,
    value: Tree,
    merge: bool,
)
    requires
        n <= items.len(),
        forall|k: int|
            0 <= k < n ==> finds_a_value(filter::visit(path, #[trigger] items[k], value, true)),
    ensures
        filter::filter_items(path, items, n, value, merge) matches Ok(kept) && kept.1 == (n > 0),
    decreases n,
{
    if n > 0 {
        lemma_matching_items_kept(path, items, (n - 1) as nat, value, merge);
        assert(finds_a_value(filter::visit(path, items[n - 1], value, true)));
    }
}

/// Where the path leads to a place in a value, replace sets the new value
/// there, and the filter for that value finds it: what it leaves is not
/// null, and a map that it leaves is not empty.
pub proof fn lemma_replaced_value_is_found(path: PathModel, t: Tree, value: Tree, merge: bool)
    requires
        leads_to_a_place(path, t),
    ensures
        visit(path, t, value) matches Ok(replaced) && (t is Object ==> replaced is Object)
            && finds_a_value(filter::visit(path, replaced, value, merge)),
    decreases t, 0nat,
{
    match t {
        Tree::Object(map) => {
            let name = path.current_step()->Identity_1;
            if path.has_more_steps() {
                let i = find_field(map, name)->0;
                lemma_replaced_value_is_found(path.next_step(), map[i].1, value, merge);
                let inner = visit(path.next_step(), map[i].1, value)->Ok_0;
                lemma_put_then_get(map, name, inner);
                let replaced = put_field(map, name, inner);
                let found = filter::visit(path.next_step(), inner, value, merge)->Ok_0;
                lemma_put_then_get(replaced, name, found);
            } else {
                lemma_put_then_get(map, name, value);
                lemma_same_as_itself(value);
            }
        },
        Tree::Array(items) => {
            lemma_items_replaced(path, items, items.len(), value);
            let done = replace_items(path, items, items.len(), value)->Ok_0;
            lemma_matching_items_kept(path, done, done.len(), value, merge);
        },
        _ => {},
    }
}

/// Replace followed by the filter for the new value leaves a state that is
/// not empty, where the path leads to a place in the state.
pub proof fn lemma_filter_finds_replaced(state: Fields, path: PathModel, value: Tree)
    requires
        path.on_step(),
        leads_to_a_place(path, Tree::Object(state)),
    ensures
        replace(state, path, value) matches Ok(replaced) && (filter::filter(
            replaced,
            path,
            value,
        ) matches Ok(found) && found.len() > 0),
{
    lemma_replaced_value_is_found(path, Tree::Object(state), value, false);
}

proof fn lemma_replace_items_errors(
    path: PathModel,
    items: Seq<Tree>,
    n: nat,
    value: Tree,
    limit: nat,
)
    requires
        path.on_step(),
        steps_below(path, limit),
        limit > 0,
    ensures
        replace_items(path, items, n, value) matches Err(e) ==> raised_below(e, limit),
    decreases items, n,
{
    if n > 0 && n <= items.len() {
        lemma_replace_items_errors(path, items, (n - 1) as nat, value, limit);
        lemma_replace_errors(path, items[n - 1], value, limit);
    }
}

/// An error of replace is tied to no expression and points at a step of
/// the path, or nowhere.
pub proof fn lemma_replace_errors(path: PathModel, t: Tree, value: Tree, limit: nat)
    requires
        path.on_step(),
        steps_below(path, limit),
        limit > 0,
    ensures
        visit(path, t, value) matches Err(e) ==> raised_below(e, limit),
    decreases t, 0nat,
{
    let step = path.current_step();
    assert(step.pos() < limit);
    match t {
        Tree::Object(map) => {
            if path.has_more_steps() {
                match step {
                    StepModel::Identity(_, name) => {
                        match find_field(map, name) {
                            Some(i) => {
                                if 0 <= i < map.len() {
                                    lemma_replace_errors(path.next_step(), map[i].1, value, limit);
                                }
                            },
                            None => {},
                        }
                    },
                    StepModel::Number(_, _) => {},
                }
            }
        },
        Tree::Array(items) => {
            lemma_replace_items_errors(path, items, items.len(), value, limit);
        },
        _ => {},
    }
}

/// An error of replacing in a state is tied to no expression and points at
/// a step of the path, or nowhere.
pub proof fn lemma_replace_raised_below(state: Fields, path: PathModel, value: Tree, limit: nat)
    requires
        steps_below(path, limit),
        limit > 0,
    ensures
        replace(state, path, value) matches Err(e) ==> raised_below(e, limit),
{
    if path.on_step() {
        lemma_replace_errors(path, Tree::Object(state), value, limit);
    }
}

/// The maps of a list, each with `name` set to `value`.
pub open spec fn set_in_each(items: Seq<Tree>, name: Seq<char>, value: Tree) -> Seq<Tree> {
    Seq::new(items.len(), |i: int| Tree::Object(put_field(items[i]->Object_0, name, value)))
}

proof fn lemma_replace_in_maps(path: PathModel, items: Seq<Tree>, n: nat, value: Tree)
    requires
        n <= items.len(),
        path.on_step(),
        !path.has_more_steps(),
        path.current_step() is Identity,
        forall|i: int| 0 <= i < items.len() ==> (#[trigger] items[i]) is Object,
    ensures
        replace_items(path, items, n, value) == Ok::<Seq<Tree>, ErrorModel>(
            set_in_each(items, path.current_step()->Identity_1, value).take(n as int),
        ),
    decreases n,
{
    let name = path.current_step()->Identity_1;
    let all = set_in_each(items, name, value);
    if n > 0 {
        lemma_replace_in_maps(path, items, (n - 1) as nat, value);
        let item = items[n - 1];
        assert(item is Object);
        let set = Tree::Object(put_field(item->Object_0, name, value));
        assert(route(path, item) == Ok::<Route, ErrorModel>(Route::LastMap));
        assert(visit(path, item, value) == Ok::<Tree, ErrorModel>(set));
        assert(all[n - 1] == set);
        assert(all.take(n - 1).push(all[n - 1]) =~= all.take(n as int));
    } else {
        assert(all.take(0) =~= Seq::<Tree>::empty());
    }
}

/// Replace along a path of three names that leads through two maps into a
/// list of maps: every map of the list gets the value under the third name,
/// the list keeps its length and order, and everything else in the state
/// stays as it is.
pub proof fn lemma_replace_in_list_of_maps(
    state: Fields,
    path: PathModel,
    first: Seq<char>,
    second: Seq<char>,
    third: Seq<char>,
    inner: Fields,
    items: Seq<Tree>,
    value: Tree,
)
    requires
        three_names(path, first, second, third),
        get_field(state, first) == Some(Tree::Object(inner)),
        get_field(inner, second) == Some(Tree::Array(items)),
        forall|i: int| 0 <= i < items.len() ==> (#[trigger] items[i]) is Object,
    ensures
        replace(state, path, value) == Ok::<Fields, ErrorModel>(
            put_field(
                state,
                first,
                Tree::Object(
                    put_field(inner, second, Tree::Array(set_in_each(items, third, value))),
                ),
            ),
        ),
{
    let at_second = path.next_step();
    let at_third = at_second.next_step();
    lemma_first_index(field_keys(state), first);
    lemma_first_index(field_keys(inner), second);
    lemma_replace_in_maps(at_third, items, items.len(), value);
    let all = set_in_each(items, third, value);
    assert(all.take(items.len() as int) =~= all);
    assert(visit(at_third, Tree::Array(items), value) == Ok::<Tree, ErrorModel>(Tree::Array(all)));
    assert(visit(at_second, Tree::Object(inner), value) == Ok::<Tree, ErrorModel>(
        Tree::Object(put_field(inner, second, Tree::Array(all))),
    ));
}

/// Setting a name to the value it has changes nothing.
proof fn lemma_put_again(map: Fields, name: Seq<char>, value: Tree)
    ensures
        put_field(put_field(map, name, value), name, value) == put_field(map, name, value),
{
    lemma_put_then_get(map, name, value);
    let once = put_field(map, name, value);
    let at = find_field(once, name)->0;
    lemma_first_index(field_keys(once), name);
    assert(field_keys(once)[at] == once[at].0);
    assert(once.update(at, (name, value)) =~= once);
}

/// What replace leaves of the first `n` items: each item replaced, or as it
/// was where the path leads nowhere in it.
proof fn lemma_replaced_items(path: PathModel, items: Seq<Tree>, n: nat, value: Tree)
    requires
        n <= items.len(),
        replace_items(path, items, n, value) is Ok,
    ensures
        replace_items(path, items, n, value)->Ok_0.len() == n,
        forall|i: int|
            0 <= i < n ==> (#[trigger] visit(path, items[i], value)) is Ok && replace_items(
                path,
                items,
                n,
                value,
            )->Ok_0[i] == if visit(path, items[i], value)->Ok_0.is_null() {
                items[i]
            } else {
                visit(path, items[i], value)->Ok_0
            },
    decreases n,
{
    if n > 0 {
        lemma_replaced_items(path, items, (n - 1) as nat, value);
    }
}

/// Items that replace leaves as they are stay as they are, however many of
/// them are looked at.
proof fn lemma_settled_items(path: PathModel, items: Seq<Tree>, n: nat, value: Tree)
    requires
        n <= items.len(),
        forall|i: int|
            0 <= i < items.len() ==> #[trigger] visit(path, items[i], value) == Ok::<
                Tree,
                ErrorModel,
            >(items[i]) || visit(path, items[i], value) == Ok::<Tree, ErrorModel>(Tree::Null),
    ensures
        replace_items(path, items, n, value) == Ok::<Seq<Tree>, ErrorModel>(
            items.take(n as int),
        ),
    decreases n,
{
    if n > 0 {
        lemma_settled_items(path, items, (n - 1) as nat, value);
        assert(visit(path, items[n - 1], value) == Ok::<Tree, ErrorModel>(items[n - 1]) || visit(
            path,
            items[n - 1],
            value,
        ) == Ok::<Tree, ErrorModel>(Tree::Null));
        assert(items.take(n - 1).push(items[n - 1]) =~= items.take(n as int));
    } else {
        assert(items.take(0) =~= Seq::<Tree>::empty());
    }
}

/// Replacing once more in what replace gave changes nothing.
pub proof fn lemma_replaced_is_settled(path: PathModel, t: Tree, value: Tree)
    requires
        visit(path, t, value) is Ok,
        !visit(path, t, value)->Ok_0.is_null(),
    ensures
        visit(path, visit(path, t, value)->Ok_0, value) == visit(path, t, value),
    decreases t, 0nat,
{
    let once = visit(path, t, value)->Ok_0;
    match t {
        Tree::Object(map) => {
            match path.current_step() {
                StepModel::Identity(_, name) => {
                    if path.has_more_steps() {
                        let i = find_field(map, name)->0;
                        lemma_first_index(field_keys(map), name);
                        let inner = visit(path.next_step(), map[i].1, value)->Ok_0;
                        if !inner.is_null() {
                            lemma_replaced_is_settled(path.next_step(), map[i].1, value);
                            lemma_put_then_get(map, name, inner);
                            lemma_put_again(map, name, inner);
                        }
                    } else {
                        lemma_put_again(map, name, value);
                    }
                },
                StepModel::Number(_, _) => {},
            }
        },
        Tree::Array(items) => {
            match path.current_step() {
                StepModel::Identity(_, _) => {
                    lemma_replaced_items(path, items, items.len(), value);
                    let done = replace_items(path, items, items.len(), value)->Ok_0;
                    assert forall|i: int| 0 <= i < done.len() implies #[trigger] visit(
                        path,
                        done[i],
                        value,
                    ) == Ok::<Tree, ErrorModel>(done[i]) || visit(path, done[i], value) == Ok::<
                        Tree,
                        ErrorModel,
                    >(Tree::Null) by {
                        assert(visit(path, items[i], value) is Ok);
                        if !visit(path, items[i], value)->Ok_0.is_null() {
                            lemma_replaced_is_settled(path, items[i], value);
                        }
                    }
                    lemma_settled_items(path, done, done.len(), value);
                    assert(done.take(done.len() as int) =~= done);
                },
                StepModel::Number(_, _) => {},
            }
        },
        _ => {},
    }
}

/// Replacing twice gives what replacing once gives.
pub proof fn lemma_replace_twice(state: Fields, path: PathModel, value: Tree)
    requires
        replace(state, path, value) is Ok,
    ensures
        replace(replace(state, path, value)->Ok_0, path, value) == replace(state, path, value),
{
    let once = visit(path, Tree::Object(state), value)->Ok_0;
    if !once.is_null() {
        lemma_replaced_is_settled(path, Tree::Object(state), value);
    } else {
        lemma_first_index(field_keys(Seq::<(Seq<char>, Tree)>::empty()), path.current_step()->Identity_1);
    }
}

proof fn lemma_replace_items_unique(path: PathModel, items: Seq<Tree>, n: nat, value: Tree)
    requires
        n <= items.len(),
        forall|i: int| 0 <= i < items.len() ==> (#[trigger] items[i]).names_unique(),
        value.names_unique(),
        replace_items(path, items, n, value) is Ok,
    ensures
        forall|i: int|
            0 <= i < replace_items(path, items, n, value)->Ok_0.len() ==> (
            #[trigger] replace_items(path, items, n, value)->Ok_0[i]).names_unique(),
    decreases items, n,
{
    if n > 0 {
        lemma_replace_items_unique(path, items, (n - 1) as nat, value);
        assert(items[n - 1].names_unique());
        lemma_replace_unique(path, items[n - 1], value);
    }
}

/// What replace gives for a tree in which no name occurs twice, with such a
/// value, holds no name twice either.
pub proof fn lemma_replace_unique(path: PathModel, t: Tree, value: Tree)
    requires
        t.names_unique(),
        value.names_unique(),
        visit(path, t, value) is Ok,
    ensures
        visit(path, t, value)->Ok_0.names_unique(),
    decreases t, 0nat,
{
    match t {
        Tree::Object(map) => {
            match path.current_step() {
                StepModel::Identity(_, name) => {
                    lemma_first_index(field_keys(map), name);
                    if path.has_more_steps() {
                        match find_field(map, name) {
                            Some(i) => {
                                assert(map[i].1.names_unique());
                                lemma_replace_unique(path.next_step(), map[i].1, value);
                                let inner = visit(path.next_step(), map[i].1, value)->Ok_0;
                                lemma_put_field_unique(map, name, inner);
                            },
                            None => {},
                        }
                    } else {
                        lemma_put_field_unique(map, name, value);
                    }
                },
                StepModel::Number(_, _) => {},
            }
        },
        Tree::Array(items) => {
            match path.current_step() {
                StepModel::Identity(_, _) => {
                    lemma_replace_items_unique(path, items, items.len(), value);
                },
                StepModel::Number(_, _) => {},
            }
        },
        _ => {},
    }
}

/// Replacing in a state in which no name occurs twice, with such a value,
/// gives such a state.
pub proof fn lemma_replaced_state_unique(state: Fields, path: PathModel, value: Tree)
    requires
        Tree::Object(state).names_unique(),
        value.names_unique(),
        replace(state, path, value) is Ok,
    ensures
        Tree::Object(replace(state, path, value)->Ok_0).names_unique(),
{
    lemma_replace_unique(path, Tree::Object(state), value);
    assert(field_keys(Seq::<(Seq<char>, Tree)>::empty()).len() == 0);
}

pub struct ReplaceVisitor {
    pub replace_value: Value,
}

/// Sets a value at the end of a path in a state.
pub fn visit_state(input_state: NMState, path: Path, replace_value: Value) -> (r: Result<
    NMState,
    NmpolicyError,
>)
    ensures
        state_result(r) == replace(input_state@, path@, replace_value@),
{
    if path.current_step_idx >= path.steps.len() {
        return Err(NmpolicyError::new(ErrorKind::NotImplementedError));
    }
    let visitor = ReplaceVisitor { replace_value };
    let input = Value::Object(input_state);
    match visitor.visit(&path, &input) {
        Ok(replaced) => match replaced {
            Value::Object(map) => Ok(map),
            Value::Null => Ok(NMState::new()),
            _ => Err(evaluation_error(String::from_str("failed converting result to a map"))),
        },
        Err(e) => Err(e.ctx(String::from_str("failed applying operation on the path"))),
    }
}

impl ReplaceVisitor {
    pub fn visit(&self, path: &Path, value: &Value) -> (r: Result<Value, NmpolicyError>)
        requires
            path@.on_step(),
        ensures
            value_result(r) == visit(path@, value@, self.replace_value@),
        decreases value, 0nat,
    {
        match visitor::visit_state(path, value) {
            Err(e) => Err(e),
            Ok(Route::InMap) => match value {
                Value::Object(map) => self.visit_map(path, map),
                _ => Ok(Value::Null),
            },
            Ok(Route::LastMap) => match value {
                Value::Object(map) => self.visit_last_map(path, map),
                _ => Ok(Value::Null),
            },
            Ok(Route::InSlice) => match value {
                Value::Array(items) => self.visit_slice(path, items),
                _ => Ok(Value::Null),
            },
            Ok(Route::LastSlice) => match value {
                Value::Array(items) => self.visit_last_slice(path, items),
                _ => Ok(Value::Null),
            },
        }
    }

    pub fn visit_last_map(&self, path: &Path, map_to_visit: &NMState) -> (r: Result<
        Value,
        NmpolicyError,
    >)
        requires
            path@.on_step(),
        ensures
            value_result(r) == visit_last_map(path@, map_to_visit@, self.replace_value@),
    {
        match path.current_step() {
            Step::Identity(_, step) => {
                let mut replaced = map_to_visit.clone();
                replaced.insert(step.clone(), self.replace_value.clone());
                Ok(Value::Object(replaced))
            },
            Step::Number(_, _) => Err(NmpolicyError::new(ErrorKind::NotImplementedError)),
        }
    }

    pub fn visit_last_slice(&self, path: &Path, slice_to_visit: &Vec<Value>) -> (r: Result<
        Value,
        NmpolicyError,
    >)
        requires
            path@.on_step(),
        ensures
            value_result(r) == visit_last_slice(
                path@,
                values_view(slice_to_visit@),
                self.replace_value@,
            ),
        decreases slice_to_visit, slice_to_visit.len() + 2,
    {
        match path.current_step() {
            Step::Identity(_, _) => self.visit_slice(path, slice_to_visit),
            Step::Number(_, _) => Err(NmpolicyError::new(ErrorKind::NotImplementedError)),
        }
    }

    pub fn visit_map(&self, path: &Path, map_to_visit: &NMState) -> (r: Result<
        Value,
        NmpolicyError,
    >)
        requires
            path@.on_step(),
        ensures
            value_result(r) == visit_map(path@, map_to_visit@, self.replace_value@),
        decreases map_to_visit, 0nat,
    {
        match path.current_step() {
            Step::Identity(_, step) => match map_to_visit.find(step.as_str()) {
                Some(i) => {
                    let value_to_visit = &map_to_visit.entries[i].1;
                    let mut next = path.clone();
                    next.next_step();
                    match self.visit(&next, value_to_visit) {
                        Ok(visit_result) => {
                            let mut replaced = map_to_visit.clone();
                            if !visit_result.is_null() {
                                replaced.insert(step.clone(), visit_result);
                            }
                            Ok(Value::Object(replaced))
                        },
                        Err(e) => Err(e),
                    }
                },
                None => Ok(Value::Null),
            },
            Step::Number(_, _) => Err(NmpolicyError::new(ErrorKind::NotSupportedError)),
        }
    }

    #[verifier::loop_isolation(false)]
    pub fn visit_slice(&self, path: &Path, slice_to_visit: &Vec<Value>) -> (r: Result<
        Value,
        NmpolicyError,
    >)
        requires
            path@.on_step(),
        ensures
            value_result(r) == visit_slice(
                path@,
                values_view(slice_to_visit@),
                self.replace_value@,
            ),
        decreases slice_to_visit, slice_to_visit.len() + 1,
    {
        match path.current_step() {
            Step::Identity(_, _) => {
                let ghost items = values_view(slice_to_visit@);
                let mut result: Vec<Value> = Vec::new();
                let mut i: usize = 0;
                proof {
                    assert(values_view(result@) =~= Seq::<Tree>::empty());
                }
                while i < slice_to_visit.len()
                    invariant
                        i <= slice_to_visit.len(),
                        replace_items(path@, items, i as nat, self.replace_value@) == Ok::<
                            Seq<Tree>,
                            ErrorModel,
                        >(values_view(result@)),
                    decreases slice_to_visit.len() - i,
                {
                    let ghost done = values_view(result@);
                    match self.visit(path, &slice_to_visit[i]) {
                        Err(e) => {
                            proof {
                                lemma_replace_items_fails(
                                    path@,
                                    items,
                                    (i + 1) as nat,
                                    items.len(),
                                    self.replace_value@,
                                );
                            }
                            return Err(e);
                        },
                        Ok(replaced) => {
                            if replaced.is_null() {
                                result.push(slice_to_visit[i].clone());
                                proof {
                                    assert(values_view(result@) =~= done.push(items[i as int]));
                                }
                            } else {
                                let ghost found = replaced@;
                                result.push(replaced);
                                proof {
                                    assert(values_view(result@) =~= done.push(found));
                                }
                            }
                        },
                    }
                    i += 1;
                }
                Ok(Value::Array(result))
            },
            Step::Number(_, _) => Err(NmpolicyError::new(ErrorKind::NotSupportedError)),
        }
    }
}

} // verus!
