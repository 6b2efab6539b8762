//! The expander: fills in the placeholders of a desired state.
use crate::error::{placed, ErrorModel, NmpolicyError};
use crate::resolve::filter::state_result;
use crate::resolve::visitor::value_result;
use crate::state::{entries_view, field_keys, values_view, Fields, NMState, Tree, Value};
use vstd::prelude::*;
use vstd::string::*;

verus! {

/// The pattern of a placeholder: two opening braces and a space, any
/// characters, a space and two closing braces, from the beginning of the
/// string to its end.
pub open spec fn placeholder_pattern() -> Seq<char> {
    "^\\{\\{ (.*) \\}\\}$"@
}

/// The path inside a placeholder, when the string is one: the string begins
/// with `{{ `, ends with ` }}`, and has no line feed between the two.
pub open spec fn placeholder_path(s: Seq<char>) -> Option<Seq<char>> {
    if s.len() >= 6 && s.subrange(0, 3) == "{{ "@ && s.subrange(s.len() - 3, s.len() as int)
        == " }}"@ && !s.subrange(3, s.len() - 3).contains('\n') {
        Some(s.subrange(3, s.len() - 3))
    } else {
        None
    }
}

/// The view of an optional string.
pub open spec fn text_of(s: Option<String>) -> Option<Seq<char>> {
    match s {
        Some(text) => Some(text@),
        None => None,
    }
}

/// `regex::Regex::new` on the placeholder pattern, then `Regex::captures` on
/// the text and `Captures::get` for the first group. In that pattern `^` and
/// `$` stand for the beginning and the end of the text, the braces are
/// escaped and stand for themselves, and `.*` takes any characters but line
/// feeds. So the text matches exactly when it is a placeholder, and the
/// first group is then the path inside it. The pattern always compiles.
#[verifier::external_body]
fn first_group(pattern: &str, text: &str) -> (r: Option<String>)
    requires
        pattern@ == placeholder_pattern(),
    ensures
        text_of(r) == placeholder_path(text@),
{
    let re = regex::Regex::new(pattern).ok()?;
    let caps = re.captures(text)?;
    Some(caps.get(1)?.as_str().to_string())
}

/// The path inside a placeholder, when the string is one.
pub fn placeholder(text: &str) -> (r: Option<String>)
    ensures
        text_of(r) == placeholder_path(text@),
{
    first_group("^\\{\\{ (.*) \\}\\}$", text)
}

/// What gives the value for the path inside a placeholder.
pub trait CapturePathResolver {
    /// The value that this resolver gives for a path, or the error. Each
    /// resolver states its own.
    open spec fn resolved(&self, capture_path: Seq<char>) -> Result<Tree, ErrorModel> {
        arbitrary()
    }

    fn resolve_capture_entry_path(&self, capture_path: String) -> (r: Result<
        Value,
        NmpolicyError,
    >)
        ensures
            value_result(r) == self.resolved(capture_path@),
    ;
}

/// What is given for the path inside each placeholder: a value or an error.
pub type Answers = spec_fn(Seq<char>) -> Result<Tree, ErrorModel>;

/// The first `n` items of a list, expanded.
pub open spec fn expand_items(answers: Answers, items: Seq<Tree>, n: nat)
    -> Result<Seq<Tree>, ErrorModel>
    decreases items, n,
{
    if n == 0 || n > items.len() {
        Ok(Seq::empty())
    } else {
        match expand_items(answers, items, (n - 1) as nat) {
            Err(e) => Err(e),
            Ok(done) => match expand_tree(answers, items[n - 1]) {
                Err(e) => Err(e),
                Ok(expanded) => Ok(done.push(expanded)),
            },
        }
    }
}

/// The first `n` entries of a map, each with its value expanded.
pub open spec fn expand_fields(answers: Answers, fields: Fields, n: nat)
    -> Result<Fields, ErrorModel>
    decreases fields, n,
{
    if n == 0 || n > fields.len() {
        Ok(Seq::empty())
    } else {
        match expand_fields(answers, fields, (n - 1) as nat) {
            Err(e) => Err(e),
            Ok(done) => match expand_tree(answers, fields[n - 1].1) {
                Err(e) => Err(e),
                Ok(expanded) => Ok(done.push((fields[n - 1].0, expanded))),
            },
        }
    }
}

/// A string that is a placeholder becomes the value that the resolver gives
/// for the path inside it. Every other string stays as it is.
pub open spec fn expand_text(answers: Answers, s: Seq<char>) -> Result<
    Tree,
    ErrorModel,
> {
    match placeholder_path(s) {
        Some(capture_path) => answers(capture_path),
        None => Ok(Tree::Str(s)),
    }
}

/// The tree with its placeholders filled in. Lists are expanded item by
/// item and maps value by value, under the same names; null, booleans and
/// numbers stay as they are.
pub open spec fn expand_tree(answers: Answers, t: Tree) -> Result<
    Tree,
    ErrorModel,
>
    decreases t, 0nat,
{
    match t {
        Tree::Str(s) => expand_text(answers, s),
        Tree::Array(items) => match expand_items(answers, items, items.len()) {
            Ok(done) => Ok(Tree::Array(done)),
            Err(e) => Err(e),
        },
        Tree::Object(fields) => match expand_fields(answers, fields, fields.len()) {
            Ok(done) => Ok(Tree::Object(done)),
            Err(e) => Err(e),
        },
        _ => Ok(t),
    }
}

/// The state with its placeholders filled in.
pub open spec fn expand(answers: Answers, state: Fields) -> Result<
    Fields,
    ErrorModel,
> {
    expand_fields(answers, state, state.len())
}

/// Once an item fails, the list fails with the same error however many
/// items are looked at after it.
proof fn lemma_expand_items_fails(
    answers: Answers,
    items: Seq<Tree>,
    n: nat,
    m: nat,
)
    requires
        n <= m <= items.len(),
        expand_items(answers, items, n) is Err,
    ensures
        expand_items(answers, items, m) == expand_items(answers, items, n),
    decreases m - n,
{
    if n < m {
        lemma_expand_items_fails(answers, items, n, (m - 1) as nat);
    }
}

/// Once a value fails, the map fails with the same error however many
/// entries are looked at after it.
proof fn lemma_expand_fields_fails(
    answers: Answers,
    fields: Fields,
    n: nat,
    m: nat,
)
    requires
        n <= m <= fields.len(),
        expand_fields(answers, fields, n) is Err,
    ensures
        expand_fields(answers, fields, m) == expand_fields(answers, fields, n),
    decreases m - n,
{
    if n < m {
        lemma_expand_fields_fails(answers, fields, n, (m - 1) as nat);
    }
}

/// No string in the tree is a placeholder.
pub open spec fn has_no_placeholder(t: Tree) -> bool
    decreases t,
{
    match t {
        Tree::Str(s) => placeholder_path(s) is None,
        Tree::Array(items) => forall|i: int|
            0 <= i < items.len() ==> has_no_placeholder(#[trigger] items[i]),
        Tree::Object(fields) => forall|i: int|
            0 <= i < fields.len() ==> has_no_placeholder((#[trigger] fields[i]).1),
        _ => true,
    }
}

/// A string that is not a placeholder stays as it is, whatever else it
/// holds: braces in the middle, at one end only, or without the spaces.
pub proof fn lemma_other_strings_stay(answers: Answers, s: Seq<char>)
    requires
        placeholder_path(s) is None,
    ensures
        expand_tree(answers, Tree::Str(s)) == Ok::<Tree, ErrorModel>(Tree::Str(s)),
{
}

/// A placeholder has at least six characters, begins with two opening
/// braces and a space, and ends with a space and two closing braces.
pub proof fn lemma_placeholder_form(s: Seq<char>)
    requires
        placeholder_path(s) is Some,
    ensures
        s.len() >= 6,
        s[0] == '{' && s[1] == '{' && s[2] == ' ',
        s[s.len() - 3] == ' ' && s[s.len() - 2] == '}' && s[s.len() - 1] == '}',
        s == "{{ "@ + placeholder_path(s)->0 + " }}"@,
{
    reveal_strlit("{{ ");
    reveal_strlit(" }}");
    let head = s.subrange(0, 3);
    let tail = s.subrange(s.len() - 3, s.len() as int);
    assert(head[0] == '{' && head[1] == '{' && head[2] == ' ');
    assert(tail[0] == ' ' && tail[1] == '}' && tail[2] == '}');
    assert(s =~= head + s.subrange(3, s.len() - 3) + tail);
}

/// A list without placeholders stays as it is.
proof fn lemma_items_stay(answers: Answers, items: Seq<Tree>, n: nat)
    requires
        n <= items.len(),
        forall|i: int| 0 <= i < items.len() ==> has_no_placeholder(#[trigger] items[i]),
    ensures
        expand_items(answers, items, n) == Ok::<Seq<Tree>, ErrorModel>(items.take(n as int)),
    decreases items, n,
{
    if n > 0 {
        lemma_items_stay(answers, items, (n - 1) as nat);
        lemma_tree_stays(answers, items[n - 1]);
        assert(items.take(n - 1).push(items[n - 1]) =~= items.take(n as int));
    } else {
        assert(items.take(0) =~= Seq::<Tree>::empty());
    }
}

/// A map without placeholders stays as it is.
proof fn lemma_fields_stay(answers: Answers, fields: Fields, n: nat)
    requires
        n <= fields.len(),
        forall|i: int| 0 <= i < fields.len() ==> has_no_placeholder((#[trigger] fields[i]).1),
    ensures
        expand_fields(answers, fields, n) == Ok::<Fields, ErrorModel>(fields.take(n as int)),
    decreases fields, n,
{
    if n > 0 {
        lemma_fields_stay(answers, fields, (n - 1) as nat);
        lemma_tree_stays(answers, fields[n - 1].1);
        assert(fields.take(n - 1).push(fields[n - 1]) =~= fields.take(n as int));
    } else {
        assert(fields.take(0) =~= Seq::<(Seq<char>, Tree)>::empty());
    }
}

/// A tree without placeholders is its own expansion.
pub proof fn lemma_tree_stays(answers: Answers, t: Tree)
    requires
        has_no_placeholder(t),
    ensures
        expand_tree(answers, t) == Ok::<Tree, ErrorModel>(t),
    decreases t, 0nat,
{
    match t {
        Tree::Array(items) => {
            lemma_items_stay(answers, items, items.len());
            assert(items.take(items.len() as int) =~= items);
        },
        Tree::Object(fields) => {
            lemma_fields_stay(answers, fields, fields.len());
            assert(fields.take(fields.len() as int) =~= fields);
        },
        _ => {},
    }
}

/// Every value that is given for a placeholder is free of placeholders.
pub open spec fn answers_without_placeholders(answers: Answers) -> bool {
    forall|capture_path: Seq<char>| #[trigger]
        answers(capture_path) matches Ok(value) ==> has_no_placeholder(value)
}

proof fn lemma_items_expanded(answers: Answers, items: Seq<Tree>, n: nat)
    requires
        n <= items.len(),
        answers_without_placeholders(answers),
        expand_items(answers, items, n) is Ok,
    ensures
        expand_items(answers, items, n)->Ok_0.len() == n,
        forall|i: int|
            0 <= i < n ==> has_no_placeholder(#[trigger] expand_items(answers, items, n)->Ok_0[i]),
    decreases items, n,
{
    if n > 0 {
        lemma_items_expanded(answers, items, (n - 1) as nat);
        lemma_tree_expanded(answers, items[n - 1]);
    }
}

proof fn lemma_fields_expanded(answers: Answers, fields: Fields, n: nat)
    requires
        n <= fields.len(),
        answers_without_placeholders(answers),
        expand_fields(answers, fields, n) is Ok,
    ensures
        expand_fields(answers, fields, n)->Ok_0.len() == n,
        forall|i: int|
            0 <= i < n ==> has_no_placeholder(
                (#[trigger] expand_fields(answers, fields, n)->Ok_0[i]).1,
            ),
    decreases fields, n,
{
    if n > 0 {
        lemma_fields_expanded(answers, fields, (n - 1) as nat);
        lemma_tree_expanded(answers, fields[n - 1].1);
    }
}

/// When no value given for a placeholder holds a placeholder, no
/// placeholder is left in an expanded tree.
pub proof fn lemma_tree_expanded(answers: Answers, t: Tree)
    requires
        answers_without_placeholders(answers),
        expand_tree(answers, t) is Ok,
    ensures
        has_no_placeholder(expand_tree(answers, t)->Ok_0),
    decreases t, 0nat,
{
    match t {
        Tree::Array(items) => {
            lemma_items_expanded(answers, items, items.len());
        },
        Tree::Object(fields) => {
            lemma_fields_expanded(answers, fields, fields.len());
        },
        _ => {},
    }
}

/// Expanding a state that was expanded already changes nothing, as long as
/// no value given for a placeholder holds a placeholder itself.
pub proof fn lemma_expand_twice(answers: Answers, state: Fields)
    requires
        answers_without_placeholders(answers),
        expand(answers, state) is Ok,
    ensures
        expand(answers, expand(answers, state)->Ok_0) == expand(answers, state),
{
    let once = expand(answers, state)->Ok_0;
    lemma_fields_expanded(answers, state, state.len());
    lemma_fields_stay(answers, once, once.len());
    assert(once.take(once.len() as int) =~= once);
}

/// `after` is `before` with its placeholders filled in. A string that is a
/// placeholder has given way to the value that is given for its path; every
/// other string, number, boolean and null is the same. A list has the same
/// length and a map the same names in the same order, and item by item and
/// value by value the one is the other with its placeholders filled in.
pub open spec fn filled_in(answers: Answers, before: Tree, after: Tree) -> bool
    decreases before,
{
    match before {
        Tree::Str(s) => match placeholder_path(s) {
            Some(capture_path) => answers(capture_path) == Ok::<Tree, ErrorModel>(after),
            None => after == before,
        },
        Tree::Array(items) => match after {
            Tree::Array(done) => done.len() == items.len() && forall|i: int|
                0 <= i < items.len() ==> filled_in(answers, #[trigger] items[i], done[i]),
            _ => false,
        },
        Tree::Object(fields) => match after {
            Tree::Object(done) => done.len() == fields.len() && forall|i: int|
                0 <= i < fields.len() ==> done[i].0 == (#[trigger] fields[i]).0 && filled_in(
                    answers,
                    fields[i].1,
                    done[i].1,
                ),
            _ => false,
        },
        _ => after == before,
    }
}

proof fn lemma_items_filled_in(answers: Answers, items: Seq<Tree>, n: nat)
    requires
        n <= items.len(),
        expand_items(answers, items, n) is Ok,
    ensures
        expand_items(answers, items, n)->Ok_0.len() == n,
        forall|i: int|
            0 <= i < n ==> filled_in(
                answers,
                #[trigger] items[i],
                expand_items(answers, items, n)->Ok_0[i],
            ),
    decreases items, n,
{
    if n > 0 {
        lemma_items_filled_in(answers, items, (n - 1) as nat);
        lemma_tree_filled_in(answers, items[n - 1]);
    }
}

proof fn lemma_fields_filled_in(answers: Answers, fields: Fields, n: nat)
    requires
        n <= fields.len(),
        expand_fields(answers, fields, n) is Ok,
    ensures
        expand_fields(answers, fields, n)->Ok_0.len() == n,
        forall|i: int|
            0 <= i < n ==> expand_fields(answers, fields, n)->Ok_0[i].0 == (
            #[trigger] fields[i]).0 && filled_in(
                answers,
                fields[i].1,
                expand_fields(answers, fields, n)->Ok_0[i].1,
            ),
    decreases fields, n,
{
    if n > 0 {
        lemma_fields_filled_in(answers, fields, (n - 1) as nat);
        lemma_tree_filled_in(answers, fields[n - 1].1);
    }
}

/// What the expansion of a tree gives is the tree with its placeholders
/// filled in: nothing else is changed, added or left out.
pub proof fn lemma_tree_filled_in(answers: Answers, t: Tree)
    requires
        expand_tree(answers, t) is Ok,
    ensures
        filled_in(answers, t, expand_tree(answers, t)->Ok_0),
    decreases t, 0nat,
{
    match t {
        Tree::Array(items) => {
            lemma_items_filled_in(answers, items, items.len());
        },
        Tree::Object(fields) => {
            lemma_fields_filled_in(answers, fields, fields.len());
        },
        _ => {},
    }
}

/// What the expansion of a state gives is the state with its placeholders
/// filled in: the names, the lengths and the order stay at every depth, and
/// every leaf that is no placeholder stays as it is.
pub proof fn lemma_state_filled_in(answers: Answers, state: Fields)
    requires
        expand(answers, state) is Ok,
    ensures
        filled_in(answers, Tree::Object(state), Tree::Object(expand(answers, state)->Ok_0)),
{
    lemma_fields_filled_in(answers, state, state.len());
}

proof fn lemma_items_expand(answers: Answers, items: Seq<Tree>, n: nat)
    requires
        forall|capture_path: Seq<char>| (#[trigger] answers(capture_path)) is Ok,
    ensures
        expand_items(answers, items, n) is Ok,
    decreases items, n,
{
    if n > 0 && n <= items.len() {
        lemma_items_expand(answers, items, (n - 1) as nat);
        lemma_tree_expands(answers, items[n - 1]);
    }
}

proof fn lemma_fields_expand(answers: Answers, fields: Fields, n: nat)
    requires
        forall|capture_path: Seq<char>| (#[trigger] answers(capture_path)) is Ok,
    ensures
        expand_fields(answers, fields, n) is Ok,
    decreases fields, n,
{
    if n > 0 && n <= fields.len() {
        lemma_fields_expand(answers, fields, (n - 1) as nat);
        lemma_tree_expands(answers, fields[n - 1].1);
    }
}

/// When a value is given for every path, every tree can be expanded.
pub proof fn lemma_tree_expands(answers: Answers, t: Tree)
    requires
        forall|capture_path: Seq<char>| (#[trigger] answers(capture_path)) is Ok,
    ensures
        expand_tree(answers, t) is Ok,
    decreases t, 0nat,
{
    match t {
        Tree::Array(items) => {
            lemma_items_expand(answers, items, items.len());
        },
        Tree::Object(fields) => {
            lemma_fields_expand(answers, fields, fields.len());
        },
        _ => {},
    }
}

/// Every value that is given for a placeholder holds no name twice.
pub open spec fn answers_unique(answers: Answers) -> bool {
    forall|capture_path: Seq<char>| #[trigger]
        answers(capture_path) matches Ok(value) ==> value.names_unique()
}

proof fn lemma_items_expanded_unique(answers: Answers, items: Seq<Tree>, n: nat)
    requires
        n <= items.len(),
        forall|i: int| 0 <= i < items.len() ==> (#[trigger] items[i]).names_unique(),
        answers_unique(answers),
        expand_items(answers, items, n) is Ok,
    ensures
        forall|i: int|
            0 <= i < expand_items(answers, items, n)->Ok_0.len() ==> (
            #[trigger] expand_items(answers, items, n)->Ok_0[i]).names_unique(),
    decreases items, n,
{
    if n > 0 {
        lemma_items_expanded_unique(answers, items, (n - 1) as nat);
        assert(items[n - 1].names_unique());
        lemma_expanded_unique(answers, items[n - 1]);
    }
}

proof fn lemma_fields_expanded_unique(answers: Answers, fields: Fields, n: nat)
    requires
        n <= fields.len(),
        Tree::Object(fields).names_unique(),
        answers_unique(answers),
        expand_fields(answers, fields, n) is Ok,
    ensures
        field_keys(expand_fields(answers, fields, n)->Ok_0) == field_keys(fields).take(n as int),
        forall|i: int|
            0 <= i < expand_fields(answers, fields, n)->Ok_0.len() ==> (
            #[trigger] expand_fields(answers, fields, n)->Ok_0[i]).1.names_unique(),
    decreases fields, n,
{
    let done = expand_fields(answers, fields, n)->Ok_0;
    if n > 0 {
        lemma_fields_expanded_unique(answers, fields, (n - 1) as nat);
        assert(fields[n - 1].1.names_unique());
        lemma_expanded_unique(answers, fields[n - 1].1);
        let before = expand_fields(answers, fields, (n - 1) as nat)->Ok_0;
        assert(field_keys(done) =~= field_keys(before).push(fields[n - 1].0));
        assert(field_keys(fields).take(n - 1).push(fields[n - 1].0) =~= field_keys(fields).take(
            n as int,
        ));
        assert forall|i: int| 0 <= i < done.len() implies (#[trigger] done[i]).1.names_unique() by {
            if i < before.len() {
                assert(done[i] == before[i]);
            }
        }
    } else {
        assert(field_keys(done) =~= field_keys(fields).take(0));
    }
}

/// The expansion of a tree in which no name occurs twice holds no name
/// twice either, when the values given for the placeholders do so.
pub proof fn lemma_expanded_unique(answers: Answers, t: Tree)
    requires
        t.names_unique(),
        answers_unique(answers),
        expand_tree(answers, t) is Ok,
    ensures
        expand_tree(answers, t)->Ok_0.names_unique(),
    decreases t, 0nat,
{
    match t {
        Tree::Array(items) => {
            lemma_items_expanded_unique(answers, items, items.len());
        },
        Tree::Object(fields) => {
            lemma_fields_expanded_unique(answers, fields, fields.len());
            assert(field_keys(fields).take(fields.len() as int) =~= field_keys(fields));
        },
        _ => {},
    }
}

/// Every error that is given for a placeholder points inside the expression
/// it is tied to.
pub open spec fn answers_placed(answers: Answers) -> bool {
    forall|capture_path: Seq<char>| #[trigger]
        answers(capture_path) matches Err(e) ==> placed(e)
}

proof fn lemma_items_errors(answers: Answers, items: Seq<Tree>, n: nat)
    requires
        answers_placed(answers),
    ensures
        expand_items(answers, items, n) matches Err(e) ==> placed(e),
    decreases items, n,
{
    if n > 0 && n <= items.len() {
        lemma_items_errors(answers, items, (n - 1) as nat);
        lemma_tree_errors(answers, items[n - 1]);
    }
}

proof fn lemma_fields_errors(answers: Answers, fields: Fields, n: nat)
    requires
        answers_placed(answers),
    ensures
        expand_fields(answers, fields, n) matches Err(e) ==> placed(e),
    decreases fields, n,
{
    if n > 0 && n <= fields.len() {
        lemma_fields_errors(answers, fields, (n - 1) as nat);
        lemma_tree_errors(answers, fields[n - 1].1);
    }
}

proof fn lemma_tree_errors(answers: Answers, t: Tree)
    requires
        answers_placed(answers),
    ensures
        expand_tree(answers, t) matches Err(e) ==> placed(e),
    decreases t, 0nat,
{
    match t {
        Tree::Array(items) => {
            lemma_items_errors(answers, items, items.len());
        },
        Tree::Object(fields) => {
            lemma_fields_errors(answers, fields, fields.len());
        },
        _ => {},
    }
}

/// An error of expanding a state is one of the errors given for its
/// placeholders: it points inside the expression it is tied to when those
/// do.
pub proof fn lemma_expand_errors_placed(answers: Answers, state: Fields)
    requires
        answers_placed(answers),
    ensures
        expand(answers, state) matches Err(e) ==> placed(e),
{
    lemma_fields_errors(answers, state, state.len());
}

pub struct StateExpander<R: CapturePathResolver> {
    pub capture_path_resolver: R,
}

impl<R: CapturePathResolver> StateExpander<R> {
    /// What the resolver of this expander gives for each path.
    pub open spec fn answers(&self) -> Answers {
        |capture_path: Seq<char>| self.capture_path_resolver.resolved(capture_path)
    }

    pub fn new(capture_path_resolver: R) -> (r: StateExpander<R>)
        ensures
            r.capture_path_resolver == capture_path_resolver,
    {
        StateExpander { capture_path_resolver }
    }

    /// Fills in the placeholders of a state.
    pub fn expand(&self, state: NMState) -> (r: Result<NMState, NmpolicyError>)
        ensures
            state_result(r) == expand(self.answers(), state@),
    {
        match self.expand_map(&state) {
            Ok(map) => Ok(map),
            Err(e) => Err(e),
        }
    }

    pub fn expand_state(&self, state: &Value) -> (r: Result<Value, NmpolicyError>)
        ensures
            value_result(r) == expand_tree(self.answers(), state@),
        decreases state, 0nat,
    {
        match state {
            Value::Null => Ok(Value::Null),
            Value::Str(string) => self.expand_string(string.clone()),
            Value::Object(map) => match self.expand_map(map) {
                Ok(expanded) => Ok(Value::Object(expanded)),
                Err(e) => Err(e),
            },
            Value::Array(slice) => match self.expand_slice(slice) {
                Ok(expanded) => Ok(Value::Array(expanded)),
                Err(e) => Err(e),
            },
            _ => Ok(state.clone()),
        }
    }

    #[verifier::loop_isolation(false)]
    pub fn expand_slice(&self, slice: &Vec<Value>) -> (r: Result<Vec<Value>, NmpolicyError>)
        ensures
            match r {
                Ok(expanded) => expand_items(
                    self.answers(),
                    values_view(slice@),
                    slice.len() as nat,
                ) == Ok::<Seq<Tree>, ErrorModel>(values_view(expanded@)),
                Err(e) => expand_items(
                    self.answers(),
                    values_view(slice@),
                    slice.len() as nat,
                ) == Err::<Seq<Tree>, ErrorModel>(e@),
            },
        decreases slice, slice.len() + 1,
    {
        let ghost items = values_view(slice@);
        let mut out: Vec<Value> = Vec::new();
        let mut i: usize = 0;
        proof {
            assert(values_view(out@) =~= Seq::<Tree>::empty());
        }
        while i < slice.len()
            invariant
                i <= slice.len(),
                expand_items(self.answers(), items, i as nat) == Ok::<
                    Seq<Tree>,
                    ErrorModel,
                >(values_view(out@)),
            decreases slice.len() - i,
        {
            let ghost done = values_view(out@);
            match self.expand_state(&slice[i]) {
                Err(e) => {
                    proof {
                        lemma_expand_items_fails(
                            self.answers(),
                            items,
                            (i + 1) as nat,
                            items.len(),
                        );
                    }
                    return Err(e);
                },
                Ok(expanded) => {
                    let ghost found = expanded@;
                    out.push(expanded);
                    proof {
                        assert(values_view(out@) =~= done.push(found));
                    }
                },
            }
            i += 1;
        }
        Ok(out)
    }

    #[verifier::loop_isolation(false)]
    pub fn expand_map(&self, map: &NMState) -> (r: Result<NMState, NmpolicyError>)
        ensures
            state_result(r) == expand_fields(
                self.answers(),
                map@,
                map@.len(),
            ),
        decreases map, map.entries.len() + 1,
    {
        let ghost fields = map@;
        let mut out: Vec<(String, Value)> = Vec::new();
        let mut i: usize = 0;
        proof {
            assert(entries_view(out@) =~= Seq::<(Seq<char>, Tree)>::empty());
        }
        while i < map.entries.len()
            invariant
                i <= map.entries.len(),
                expand_fields(self.answers(), fields, i as nat) == Ok::<
                    Fields,
                    ErrorModel,
                >(entries_view(out@)),
            decreases map.entries.len() - i,
        {
            let ghost done = entries_view(out@);
            match self.expand_state(&map.entries[i].1) {
                Err(e) => {
                    proof {
                        lemma_expand_fields_fails(
                            self.answers(),
                            fields,
                            (i + 1) as nat,
                            fields.len(),
                        );
                    }
                    return Err(e);
                },
                Ok(expanded) => {
                    let ghost found = expanded@;
                    let name = map.entries[i].0.clone();
                    out.push((name, expanded));
                    proof {
                        assert(entries_view(out@) =~= done.push((fields[i as int].0, found)));
                    }
                },
            }
            i += 1;
        }
        Ok(NMState { entries: out })
    }

    pub fn expand_string(&self, string: String) -> (r: Result<Value, NmpolicyError>)
        ensures
            value_result(r) == expand_text(self.answers(), string@),
    {
        match placeholder(string.as_str()) {
            Some(capture_path) => self.capture_path_resolver.resolve_capture_entry_path(
                capture_path,
            ),
            None => Ok(Value::Str(string)),
        }
    }
}

} // verus!
