//! Filter: keeps of a state what lies on a path, and of the maps at the end
//! of the path those whose value equals the expected one.
use crate::error::{evaluation_error, ErrorKind, ErrorModel, NmpolicyError};
use crate::resolve::path::{
    not_implemented, raised_below, steps_below, three_names, Path, PathModel, Step, StepModel,
};
use crate::resolve::visitor;
use crate::resolve::visitor::{evaluation_error_about, route, value_result, Route};
use crate::state::{
    field_keys, find_field, get_field, items_contained_in, json_text, lemma_contained_in_itself,
    lemma_first_index, lemma_items_contained_prefix, lemma_put_field_keeps_keys,
    lemma_put_field_unique, lemma_single_entry_unique, put_field, values_view, Fields, NMState,
    Tree, Value,
};
use vstd::prelude::*;
use vstd::string::*;

verus! {

pub open spec fn type_mismatch(obtained: Tree, expected: Tree, pos: nat) -> ErrorModel {
    ErrorModel::plain(
        ErrorKind::EvaluationError,
        "type mismatch: "@ + json_text(obtained) + " != "@ + json_text(expected),
    ).path(pos)
}

pub open spec fn unexpected_last_step(pos: nat) -> ErrorModel {
    ErrorModel::plain(ErrorKind::EvaluationError, "unexpected step type visiting last map"@).path(
        pos,
    )
}

pub open spec fn index_in_map(pos: nat) -> ErrorModel {
    ErrorModel::plain(
        ErrorKind::EvaluationError,
        "failed filtering map: path with index not supported"@,
    ).path(pos)
}

pub open spec fn index_in_slice(pos: nat) -> ErrorModel {
    ErrorModel::plain(
        ErrorKind::EvaluationError,
        "failed filtering slice: path with index not supported"@,
    ).path(pos)
}

/// A map at the last step. Without the name of the step the map is dropped.
/// With a null expected value the map is cut down to that one name. Else the
/// value of the name has to be of the type of the expected value; the whole
/// map is kept if the two are equal and dropped if they are not.
pub open spec fn visit_last_map(path: PathModel, map: Fields, expected: Tree) -> Result<
    Tree,
    ErrorModel,
> {
    match path.current_step() {
        StepModel::Identity(pos, name) => match get_field(map, name) {
            Some(obtained) => if expected is Null {
                Ok(Tree::Object(seq![(name, obtained)]))
            } else if !expected.same_type(obtained) {
                Err(type_mismatch(obtained, expected, pos))
            } else if obtained.same(expected) {
                Ok(Tree::Object(map))
            } else {
                Ok(Tree::Null)
            },
            None => Ok(Tree::Null),
        },
        StepModel::Number(pos, _) => Err(unexpected_last_step(pos)),
    }
}

/// What the first `n` items of a list leave: the items kept so far and
/// whether any of them matched. An item that matches is replaced by what is
/// left of it; one that does not is kept whole when `merge` is set and
/// dropped otherwise. Inside a list every item is filtered with merging.
pub open spec fn filter_items(
    path: PathModel,
    items: Seq<Tree>,
    n: nat,
    expected: Tree,
    merge: bool,
) -> Result<(Seq<Tree>, bool), ErrorModel>
    decreases items, n,
{
    if n == 0 || n > items.len() {
        Ok((Seq::empty(), false))
    } else {
        match filter_items(path, items, (n - 1) as nat, expected, merge) {
            Err(e) => Err(e),
            Ok((kept, matched)) => match visit(path, items[n - 1], expected, true) {
                Err(e) => Err(e),
                Ok(found) => if !found.is_null() {
                    Ok((kept.push(found), true))
                } else if merge {
                    Ok((kept.push(items[n - 1]), matched))
                } else {
                    Ok((kept, matched))
                },
            },
        }
    }
}

/// A list before the last step: the current step, an identifier, is applied
/// to every item. Without a match the list is dropped.
pub open spec fn visit_slice(path: PathModel, items: Seq<Tree>, expected: Tree, merge: bool)
    -> Result<Tree, ErrorModel>
    decreases items, items.len() + 1,
{
    match path.current_step() {
        StepModel::Identity(_, _) => match filter_items(
            path,
            items,
            items.len(),
            expected,
            merge,
        ) {
            Err(e) => Err(e),
            Ok((kept, matched)) => if matched {
                Ok(Tree::Array(kept))
            } else {
                Ok(Tree::Null)
            },
        },
        StepModel::Number(pos, _) => Err(index_in_slice(pos)),
    }
}

/// A list at the last step is filtered like one before it.
pub open spec fn visit_last_slice(path: PathModel, items: Seq<Tree>, expected: Tree, merge: bool)
    -> Result<Tree, ErrorModel>
    decreases items, items.len() + 2,
{
    match path.current_step() {
        StepModel::Identity(_, _) => visit_slice(path, items, expected, merge),
        StepModel::Number(pos, _) => Err(index_in_map(pos)),
    }
}

/// A map before the last step: the value of the current step is filtered
/// with the rest of the path. What is left of it goes under the same name,
/// beside the other entries of the map when `merge` is set and alone
/// otherwise. Without the name, or when nothing is left, the map is dropped.
pub open spec fn visit_map(path: PathModel, map: Fields, expected: Tree, merge: bool) -> Result<
    Tree,
    ErrorModel,
>
    decreases map, 0nat,
{
    match path.current_step() {
        StepModel::Identity(pos, name) => match find_field(map, name) {
            Some(i) => if 0 <= i < map.len() {
                match visit(path.next_step(), map[i].1, expected, merge) {
                    Ok(found) => if found.is_null() {
                        Ok(Tree::Null)
                    } else if merge {
                        Ok(Tree::Object(put_field(map, name, found)))
                    } else {
                        Ok(Tree::Object(seq![(name, found)]))
                    },
                    Err(e) => Err(e.path(pos)),
                }
            } else {
                Ok(Tree::Null)
            },
            None => Ok(Tree::Null),
        },
        StepModel::Number(pos, _) => Err(index_in_map(pos)),
    }
}

/// What is left of a value that is filtered along a path, from the step that
/// the cursor stands on; null when nothing is left.
pub open spec fn visit(path: PathModel, t: Tree, expected: Tree, merge: bool) -> Result<
    Tree,
    ErrorModel,
>
    decreases t, 0nat,
{
    match route(path, t) {
        Err(e) => Err(e),
        Ok(Route::InMap) => match t {
            Tree::Object(map) => visit_map(path, map, expected, merge),
            _ => Ok(Tree::Null),
        },
        Ok(Route::LastMap) => match t {
            Tree::Object(map) => visit_last_map(path, map, expected),
            _ => Ok(Tree::Null),
        },
        Ok(Route::InSlice) => match t {
            Tree::Array(items) => visit_slice(path, items, expected, merge),
            _ => Ok(Tree::Null),
        },
        Ok(Route::LastSlice) => match t {
            Tree::Array(items) => visit_last_slice(path, items, expected, merge),
            _ => Ok(Tree::Null),
        },
    }
}

pub open spec fn not_a_map(found: Tree) -> ErrorModel {
    ErrorModel::plain(
        ErrorKind::EvaluationError,
        "failed converting filtering result `"@ + json_text(found) + "` to a map"@,
    )
}

/// The state filtered along a path. A path without a step to stand on cannot
/// be applied. When nothing is left the result is the empty state.
pub open spec fn filter(state: Fields, path: PathModel, expected: Tree) -> Result<
    Fields,
    ErrorModel,
> {
    if !path.on_step() {
        Err(not_implemented())
    } else {
        match visit(path, Tree::Object(state), expected, false) {
            Ok(Tree::Object(map)) => Ok(map),
            Ok(Tree::Null) => Ok(Seq::empty()),
            Ok(other) => Err(not_a_map(other)),
            Err(e) => Err(e.ctx("failed applying operation on the path"@)),
        }
    }
}

/// The result of an operation on a state, as mathematical values.
pub open spec fn state_result(r: Result<NMState, NmpolicyError>) -> Result<Fields, ErrorModel> {
    match r {
        Ok(state) => Ok(state@),
        Err(e) => Err(e@),
    }
}

/// Once an item fails, the list fails with the same error however many
/// items are looked at after it.
proof fn lemma_filter_items_fails(
    path: PathModel,
    items: Seq<Tree>,
    n: nat,
    m: nat,
    expected: Tree,
    merge: bool,
)
    requires
        n <= m <= items.len(),
        filter_items(path, items, n, expected, merge) is Err,
    ensures
        filter_items(path, items, m, expected, merge) == filter_items(
            path,
            items,
            n,
            expected,
            merge,
        ),
    decreases m - n,
{
    if n < m {
        lemma_filter_items_fails(path, items, n, (m - 1) as nat, expected, merge);
    }
}

/// A map with one entry is a part of a map that has a value for the name,
/// when the value of the entry is a part of that value.
proof fn lemma_single_entry_contained(name: Seq<char>, value: Tree, map: Fields)
    requires
        get_field(map, name) matches Some(whole) && value.contained_in(whole),
    ensures
        Tree::Object(seq![(name, value)]).contained_in(Tree::Object(map)),
{
}

/// A map in which the value of one name gave way to a part of it is a part
/// of the map as it was.
proof fn lemma_narrowed_entry_contained(map: Fields, name: Seq<char>, value: Tree)
    requires
        get_field(map, name) matches Some(whole) && value.contained_in(whole),
    ensures
        Tree::Object(put_field(map, name, value)).contained_in(Tree::Object(map)),
{
    lemma_put_field_keeps_keys(map, name, value);
    lemma_first_index(field_keys(map), name);
    let after = put_field(map, name, value);
    let at = find_field(map, name)->0;
    assert(after == map.update(at, (name, value)));
    assert forall|i: int|
        0 <= i < after.len() && find_field(after, after[i].0) == Some(i) implies match get_field(
        map,
        (#[trigger] after[i]).0,
    ) {
        Some(y) => after[i].1.contained_in(y),
        None => false,
    } by {
        assert(field_keys(after)[i] == after[i].0);
        if i != at {
            assert(after[i] == map[i]);
            lemma_contained_in_itself(map[i].1);
        }
    }
}

/// With nothing expected, the items that a list keeps lie in order among
/// the items it had.
proof fn lemma_projected_items(path: PathModel, items: Seq<Tree>, n: nat, merge: bool)
    requires
        n <= items.len(),
        filter_items(path, items, n, Tree::Null, merge) is Ok,
    ensures
        items_contained_in(
            filter_items(path, items, n, Tree::Null, merge)->Ok_0.0,
            filter_items(path, items, n, Tree::Null, merge)->Ok_0.0.len(),
            items,
            n,
        ),
    decreases items, n,
{
    if n > 0 {
        let before = filter_items(path, items, (n - 1) as nat, Tree::Null, merge)->Ok_0.0;
        let kept = filter_items(path, items, n, Tree::Null, merge)->Ok_0.0;
        lemma_projected_items(path, items, (n - 1) as nat, merge);
        let found = visit(path, items[n - 1], Tree::Null, true)->Ok_0;
        if !found.is_null() {
            lemma_projected(path, items[n - 1], true);
            lemma_items_contained_prefix(kept, before, before.len(), items, (n - 1) as nat);
        } else if merge {
            lemma_contained_in_itself(items[n - 1]);
            lemma_items_contained_prefix(kept, before, before.len(), items, (n - 1) as nat);
        }
    }
}

/// With nothing expected, what is left of a value is a part of the value.
pub proof fn lemma_projected(path: PathModel, t: Tree, merge: bool)
    requires
        visit(path, t, Tree::Null, merge) is Ok,
        !visit(path, t, Tree::Null, merge)->Ok_0.is_null(),
    ensures
        visit(path, t, Tree::Null, merge)->Ok_0.contained_in(t),
    decreases t, 0nat,
{
    match t {
        Tree::Object(map) => {
            match path.current_step() {
                StepModel::Identity(_, name) => {
                    if path.has_more_steps() {
                        let i = find_field(map, name)->0;
                        lemma_first_index(field_keys(map), name);
                        let found = visit(path.next_step(), map[i].1, Tree::Null, merge)->Ok_0;
                        lemma_projected(path.next_step(), map[i].1, merge);
                        if merge {
                            lemma_narrowed_entry_contained(map, name, found);
                        } else {
                            lemma_single_entry_contained(name, found, map);
                        }
                    } else {
                        let obtained = get_field(map, name)->0;
                        lemma_contained_in_itself(obtained);
                        lemma_single_entry_contained(name, obtained, map);
                    }
                },
                StepModel::Number(_, _) => {},
            }
        },
        Tree::Array(items) => {
            match path.current_step() {
                StepModel::Identity(_, _) => {
                    lemma_projected_items(path, items, items.len(), merge);
                },
                StepModel::Number(_, _) => {},
            }
        },
        _ => {},
    }
}

/// A path that only projects leaves the empty state or a part of the state:
/// every value that is left stands in the state under the same names.
pub proof fn lemma_projection_is_contained(state: Fields, path: PathModel)
    requires
        filter(state, path, Tree::Null) is Ok,
    ensures
        filter(state, path, Tree::Null)->Ok_0.len() == 0 || Tree::Object(
            filter(state, path, Tree::Null)->Ok_0,
        ).contained_in(Tree::Object(state)),
{
    let found = visit(path, Tree::Object(state), Tree::Null, false);
    if found is Ok && !found->Ok_0.is_null() {
        lemma_projected(path, Tree::Object(state), false);
    }
}

/// When the state has no value for the first step of a path, nothing is
/// left of it: the result is the empty state, not an error.
pub proof fn lemma_missing_first_step(state: Fields, path: PathModel, expected: Tree)
    requires
        path.on_step(),
        path.current_step() matches StepModel::Identity(_, name) && get_field(state, name)
            is None,
    ensures
        filter(state, path, expected) == Ok::<Fields, ErrorModel>(Seq::empty()),
{
}

/// A value of another type than the expected one is an evaluation error at
/// the position of the step that names the value.
pub proof fn lemma_type_mismatch(path: PathModel, map: Fields, expected: Tree)
    requires
        !(expected is Null),
        path.current_step() matches StepModel::Identity(_, name) && (get_field(
            map,
            name,
        ) matches Some(obtained) && !expected.same_type(obtained)),
    ensures
        visit_last_map(path, map, expected) matches Err(e) && e.kind
            == ErrorKind::EvaluationError && e.pos == path.current_step().pos()
            && e.expression is None,
{
}

proof fn lemma_filter_items_errors(
    path: PathModel,
    items: Seq<Tree>,
    n: nat,
    expected: Tree,
    merge: bool,
    limit: nat,
)
    requires
        path.on_step(),
        steps_below(path, limit),
        limit > 0,
    ensures
        filter_items(path, items, n, expected, merge) matches Err(e) ==> raised_below(e, limit),
    decreases items, n,
{
    if n > 0 && n <= items.len() {
        lemma_filter_items_errors(path, items, (n - 1) as nat, expected, merge, limit);
        lemma_filter_errors(path, items[n - 1], expected, true, limit);
    }
}

/// An error of the filter is tied to no expression and points at a step of
/// the path, or nowhere.
pub proof fn lemma_filter_errors(
    path: PathModel,
    t: Tree,
    expected: Tree,
    merge: bool,
    limit: nat,
)
    requires
        path.on_step(),
        steps_below(path, limit),
        limit > 0,
    ensures
        visit(path, t, expected, merge) matches Err(e) ==> raised_below(e, limit),
    decreases t, 0nat,
{
    let step = path.current_step();
    assert(step.pos() < limit);
    match t {
        Tree::Object(map) => {
            if path.has_more_steps() {
                match step {
                    StepModel::Identity(_, name) => {
                        match find_field(map, name) {
                            Some(i) => {
                                if 0 <= i < map.len() {
                                    lemma_filter_errors(
                                        path.next_step(),
                                        map[i].1,
                                        expected,
                                        merge,
                                        limit,
                                    );
                                }
                            },
                            None => {},
                        }
                    },
                    StepModel::Number(_, _) => {},
                }
            }
        },
        Tree::Array(items) => {
            lemma_filter_items_errors(path, items, items.len(), expected, merge, limit);
        },
        _ => {},
    }
}

/// An error of filtering a state is tied to no expression and points at a
/// step of the path, or nowhere.
pub proof fn lemma_filter_raised_below(state: Fields, path: PathModel, expected: Tree, limit: nat)
    requires
        steps_below(path, limit),
        limit > 0,
    ensures
        filter(state, path, expected) matches Err(e) ==> raised_below(e, limit),
{
    if path.on_step() {
        lemma_filter_errors(path, Tree::Object(state), expected, false, limit);
    }
}

/// Of the first `n` maps of a list, those whose value of `name` is the
/// string `text`, in their order.
pub open spec fn with_text(items: Seq<Tree>, name: Seq<char>, text: Seq<char>, n: nat) -> Seq<Tree>
    decreases n,
{
    if n == 0 || n > items.len() {
        Seq::empty()
    } else if get_field(items[n - 1]->Object_0, name) == Some(Tree::Str(text)) {
        with_text(items, name, text, (n - 1) as nat).push(items[n - 1])
    } else {
        with_text(items, name, text, (n - 1) as nat)
    }
}

/// Every item is a map in which `name` has a string for its value.
pub open spec fn maps_with_string(items: Seq<Tree>, name: Seq<char>) -> bool {
    forall|i: int|
        0 <= i < items.len() ==> (#[trigger] items[i]) is Object && (get_field(
            items[i]->Object_0,
            name,
        ) matches Some(found) && found is Str)
}

proof fn lemma_filter_maps_by_text(
    path: PathModel,
    items: Seq<Tree>,
    n: nat,
    text: Seq<char>,
    merge: bool,
)
    requires
        n <= items.len(),
        path.on_step(),
        !path.has_more_steps(),
        path.current_step() is Identity,
        maps_with_string(items, path.current_step()->Identity_1),
    ensures
        filter_items(path, items, n, Tree::Str(text), merge) == Ok::<
            (Seq<Tree>, bool),
            ErrorModel,
        >(
            (
                if merge {
                    items.take(n as int)
                } else {
                    with_text(items, path.current_step()->Identity_1, text, n)
                },
                with_text(items, path.current_step()->Identity_1, text, n).len() > 0,
            ),
        ),
    decreases n,
{
    if n > 0 {
        lemma_filter_maps_by_text(path, items, (n - 1) as nat, text, merge);
        let item = items[n - 1];
        let name = path.current_step()->Identity_1;
        assert(item is Object);
        let obtained = get_field(item->Object_0, name)->0;
        assert(obtained is Str);
        assert(route(path, item) == Ok::<Route, ErrorModel>(Route::LastMap));
        assert(Tree::Str(text).same_type(obtained));
        assert(obtained.same(Tree::Str(text)) == (obtained == Tree::Str(text)));
        assert(visit(path, item, Tree::Str(text), true) == Ok::<Tree, ErrorModel>(
            if obtained == Tree::Str(text) {
                item
            } else {
                Tree::Null
            },
        ));
        assert(items.take(n - 1).push(items[n - 1]) =~= items.take(n as int));
    } else {
        assert(items.take(0) =~= Seq::<Tree>::empty());
    }
}

/// The filter by a string along a path of three names that leads through
/// two maps into a list of maps with a string under the third name: what is
/// left is the first name alone, under it the second name alone, and under
/// that the maps of the list whose string is the expected one, whole and in
/// their order. Without such a map nothing is left.
pub proof fn lemma_filter_list_of_maps(
    state: Fields,
    path: PathModel,
    first: Seq<char>,
    second: Seq<char>,
    third: Seq<char>,
    inner: Fields,
    items: Seq<Tree>,
    text: Seq<char>,
)
    requires
        three_names(path, first, second, third),
        get_field(state, first) == Some(Tree::Object(inner)),
        get_field(inner, second) == Some(Tree::Array(items)),
        maps_with_string(items, third),
    ensures
        filter(state, path, Tree::Str(text)) == Ok::<Fields, ErrorModel>(
            if with_text(items, third, text, items.len()).len() > 0 {
                seq![
                    (
                        first,
                        Tree::Object(
                            seq![
                                (
                                    second,
                                    Tree::Array(with_text(items, third, text, items.len())),
                                ),
                            ],
                        ),
                    ),
                ]
            } else {
                Seq::empty()
            },
        ),
{
    let at_second = path.next_step();
    let at_third = at_second.next_step();
    let expected = Tree::Str(text);
    let kept = with_text(items, third, text, items.len());
    lemma_first_index(field_keys(state), first);
    lemma_first_index(field_keys(inner), second);
    lemma_filter_maps_by_text(at_third, items, items.len(), text, false);
    assert(visit(at_third, Tree::Array(items), expected, false) == Ok::<Tree, ErrorModel>(
        if kept.len() > 0 {
            Tree::Array(kept)
        } else {
            Tree::Null
        },
    ));
    assert(visit(at_second, Tree::Object(inner), expected, false) == Ok::<Tree, ErrorModel>(
        if kept.len() > 0 {
            Tree::Object(seq![(second, Tree::Array(kept))])
        } else {
            Tree::Null
        },
    ));
}

proof fn lemma_filter_items_unique(
    path: PathModel,
    items: Seq<Tree>,
    n: nat,
    expected: Tree,
    merge: bool,
)
    requires
        n <= items.len(),
        forall|i: int| 0 <= i < items.len() ==> (#[trigger] items[i]).names_unique(),
        filter_items(path, items, n, expected, merge) is Ok,
    ensures
        forall|i: int|
            0 <= i < filter_items(path, items, n, expected, merge)->Ok_0.0.len() ==> (
            #[trigger] filter_items(path, items, n, expected, merge)->Ok_0.0[i]).names_unique(),
    decreases items, n,
{
    if n > 0 {
        lemma_filter_items_unique(path, items, (n - 1) as nat, expected, merge);
        assert(items[n - 1].names_unique());
        lemma_filter_unique(path, items[n - 1], expected, true);
    }
}

/// What the filter leaves of a tree in which no name occurs twice holds no
/// name twice either.
pub proof fn lemma_filter_unique(path: PathModel, t: Tree, expected: Tree, merge: bool)
    requires
        t.names_unique(),
        visit(path, t, expected, merge) is Ok,
    ensures
        visit(path, t, expected, merge)->Ok_0.names_unique(),
    decreases t, 0nat,
{
    match t {
        Tree::Object(map) => {
            match path.current_step() {
                StepModel::Identity(_, name) => {
                    lemma_first_index(field_keys(map), name);
                    match find_field(map, name) {
                        Some(i) => {
                            assert(map[i].1.names_unique());
                            if path.has_more_steps() {
                                lemma_filter_unique(path.next_step(), map[i].1, expected, merge);
                                let found = visit(path.next_step(), map[i].1, expected, merge)->Ok_0;
                                lemma_put_field_unique(map, name, found);
                                lemma_single_entry_unique(name, found);
                            } else {
                                lemma_single_entry_unique(name, map[i].1);
                            }
                        },
                        None => {},
                    }
                },
                StepModel::Number(_, _) => {},
            }
        },
        Tree::Array(items) => {
            match path.current_step() {
                StepModel::Identity(_, _) => {
                    lemma_filter_items_unique(path, items, items.len(), expected, merge);
                },
                StepModel::Number(_, _) => {},
            }
        },
        _ => {},
    }
}

/// Filtering a state in which no name occurs twice gives such a state.
pub proof fn lemma_filtered_state_unique(state: Fields, path: PathModel, expected: Tree)
    requires
        Tree::Object(state).names_unique(),
        filter(state, path, expected) is Ok,
    ensures
        Tree::Object(filter(state, path, expected)->Ok_0).names_unique(),
{
    lemma_filter_unique(path, Tree::Object(state), expected, false);
    assert(field_keys(Seq::<(Seq<char>, Tree)>::empty()).len() == 0);
}

pub struct FilterVisitor {
    pub merge_visit_result: bool,
    pub expected_value: Value,
}

/// Filters a state along a path. With a null expected value the path only
/// projects.
pub fn visit_state(input_state: NMState, path: Path, expected_value: Value) -> (r: Result<
    NMState,
    NmpolicyError,
>)
    ensures
        state_result(r) == filter(input_state@, path@, expected_value@),
{
    if path.current_step_idx >= path.steps.len() {
        return Err(NmpolicyError::new(ErrorKind::NotImplementedError));
    }
    let visitor = FilterVisitor { merge_visit_result: false, expected_value };
    let input = Value::Object(input_state);
    match visitor.visit(&path, &input) {
        Ok(filtered) => match filtered {
            Value::Object(map) => Ok(map),
            Value::Null => Ok(NMState::new()),
            other => Err(
                evaluation_error_about(
                    "failed converting filtering result `",
                    other.to_json_string().as_str(),
                    "` to a map",
                ),
            ),
        },
        Err(e) => Err(e.ctx(String::from_str("failed applying operation on the path"))),
    }
}

impl FilterVisitor {
    pub fn visit(&self, path: &Path, value: &Value) -> (r: Result<Value, NmpolicyError>)
        requires
            path@.on_step(),
        ensures
            value_result(r) == visit(
                path@,
                value@,
                self.expected_value@,
                self.merge_visit_result,
            ),
        decreases value, 0nat,
    {
        match visitor::visit_state(path, value) {
            Err(e) => Err(e),
            Ok(Route::InMap) => match value {
                Value::Object(map) => self.visit_map(path, map),
                _ => Ok(Value::Null),
            },
            Ok(Route::LastMap) => match value {
                Value::Object(map) => self.visit_last_map(path, map),
                _ => Ok(Value::Null),
            },
            Ok(Route::InSlice) => match value {
                Value::Array(items) => self.visit_slice(path, items),
                _ => Ok(Value::Null),
            },
            Ok(Route::LastSlice) => match value {
                Value::Array(items) => self.visit_last_slice(path, items),
                _ => Ok(Value::Null),
            },
        }
    }

    pub fn visit_last_map(&self, path: &Path, map_to_filter: &NMState) -> (r: Result<
        Value,
        NmpolicyError,
    >)
        requires
            path@.on_step(),
        ensures
            value_result(r) == visit_last_map(path@, map_to_filter@, self.expected_value@),
    {
        match path.current_step() {
            Step::Identity(pos, step) => match map_to_filter.get(step.as_str()) {
                Some(obtained_value) => match &self.expected_value {
                    Value::Null => {
                        let mut only = NMState::new();
                        only.insert(step.clone(), obtained_value.clone());
                        proof {
                            assert(only@ =~= seq![(step@, obtained_value@)]);
                        }
                        Ok(Value::Object(only))
                    },
                    _ => {
                        if !self.expected_value.has_same_type(obtained_value) {
                            let mut msg = String::from_str("type mismatch: ");
                            msg.append(obtained_value.to_json_string().as_str());
                            msg.append(" != ");
                            msg.append(self.expected_value.to_json_string().as_str());
                            Err(evaluation_error(msg).path(*pos))
                        } else if obtained_value.same_as(&self.expected_value) {
                            Ok(Value::Object(map_to_filter.clone()))
                        } else {
                            Ok(Value::Null)
                        }
                    },
                },
                None => Ok(Value::Null),
            },
            Step::Number(pos, _) => Err(
                evaluation_error(String::from_str("unexpected step type visiting last map")).path(
                    *pos,
                ),
            ),
        }
    }

    pub fn visit_last_slice(&self, path: &Path, slice_to_visit: &Vec<Value>) -> (r: Result<
        Value,
        NmpolicyError,
    >)
        requires
            path@.on_step(),
        ensures
            value_result(r) == visit_last_slice(
                path@,
                values_view(slice_to_visit@),
                self.expected_value@,
                self.merge_visit_result,
            ),
        decreases slice_to_visit, slice_to_visit.len() + 2,
    {
        match path.current_step() {
            Step::Identity(_, _) => self.visit_slice(path, slice_to_visit),
            Step::Number(pos, _) => Err(
                evaluation_error(
                    String::from_str("failed filtering map: path with index not supported"),
                ).path(*pos),
            ),
        }
    }

    pub fn visit_map(&self, path: &Path, map_to_visit: &NMState) -> (r: Result<
        Value,
        NmpolicyError,
    >)
        requires
            path@.on_step(),
        ensures
            value_result(r) == visit_map(
                path@,
                map_to_visit@,
                self.expected_value@,
                self.merge_visit_result,
            ),
        decreases map_to_visit, 0nat,
    {
        match path.current_step() {
            Step::Identity(pos, step) => match map_to_visit.find(step.as_str()) {
                Some(i) => {
                    let value_to_visit = &map_to_visit.entries[i].1;
                    let mut next = path.clone();
                    next.next_step();
                    match self.visit(&next, value_to_visit) {
                        Ok(visit_result) => match visit_result {
                            Value::Null => Ok(Value::Null),
                            _ => {
                                let mut filtered_map = if self.merge_visit_result {
                                    map_to_visit.clone()
                                } else {
                                    NMState::new()
                                };
                                let ghost found = visit_result@;
                                filtered_map.insert(step.clone(), visit_result);
                                proof {
                                    if !self.merge_visit_result {
                                        assert(filtered_map@ =~= seq![(step@, found)]);
                                    }
                                }
                                Ok(Value::Object(filtered_map))
                            },
                        },
                        Err(e) => Err(e.path(*pos)),
                    }
                },
                None => Ok(Value::Null),
            },
            Step::Number(pos, _) => Err(
                evaluation_error(
                    String::from_str("failed filtering map: path with index not supported"),
                ).path(*pos),
            ),
        }
    }

    #[verifier::loop_isolation(false)]
    pub fn visit_slice(&self, path: &Path, slice_to_visit: &Vec<Value>) -> (r: Result<
        Value,
        NmpolicyError,
    >)
        requires
            path@.on_step(),
        ensures
            value_result(r) == visit_slice(
                path@,
                values_view(slice_to_visit@),
                self.expected_value@,
                self.merge_visit_result,
            ),
        decreases slice_to_visit, slice_to_visit.len() + 1,
    {
        match path.current_step() {
            Step::Identity(_, _) => {
                let ghost items = values_view(slice_to_visit@);
                let inner = FilterVisitor {
                    merge_visit_result: true,
                    expected_value: self.expected_value.clone(),
                };
                let mut filtered_slice: Vec<Value> = Vec::new();
                let mut has_visit_result = false;
                let mut i: usize = 0;
                proof {
                    assert(values_view(filtered_slice@) =~= Seq::<Tree>::empty());
                }
                while i < slice_to_visit.len()
                    invariant
                        i <= slice_to_visit.len(),
                        filter_items(
                            path@,
                            items,
                            i as nat,
                            self.expected_value@,
                            self.merge_visit_result,
                        ) == Ok::<(Seq<Tree>, bool), ErrorModel>(
                            (values_view(filtered_slice@), has_visit_result),
                        ),
                    decreases slice_to_visit.len() - i,
                {
                    let value_to_visit = &slice_to_visit[i];
                    let ghost kept = values_view(filtered_slice@);
                    match inner.visit(path, value_to_visit) {
                        Err(e) => {
                            proof {
                                lemma_filter_items_fails(
                                    path@,
                                    items,
                                    (i + 1) as nat,
                                    items.len(),
                                    self.expected_value@,
                                    self.merge_visit_result,
                                );
                            }
                            return Err(e);
                        },
                        Ok(visit_result) => {
                            if !visit_result.is_null() {
                                has_visit_result = true;
                                let ghost found = visit_result@;
                                filtered_slice.push(visit_result);
                                proof {
                                    assert(values_view(filtered_slice@) =~= kept.push(found));
                                }
                            } else if self.merge_visit_result {
                                filtered_slice.push(value_to_visit.clone());
                                proof {
                                    assert(values_view(filtered_slice@) =~= kept.push(
                                        items[i as int],
                                    ));
                                }
                            }
                        },
                    }
                    i += 1;
                }
                if !has_visit_result {
                    Ok(Value::Null)
                } else {
                    Ok(Value::Array(filtered_slice))
                }
            },
            Step::Number(pos, _) => Err(
                evaluation_error(
                    String::from_str("failed filtering slice: path with index not supported"),
                ).path(*pos),
            ),
        }
    }
}

/// Whether the two values are of the same type.
pub fn value_has_same_type(lhs: &Value, rhs: &Value) -> (r: bool)
    ensures
        r == lhs@.same_type(rhs@),
{
    lhs.has_same_type(rhs)
}

} // verus!
