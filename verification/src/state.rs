//! State trees: null, booleans, numbers, strings, lists, and maps from names
//! to values.
use crate::ast::node::{join, lemma_join_push};
use crate::text::{digit_char, str_eq};
use vstd::prelude::*;
use vstd::string::*;

verus! {

/// A state tree as a mathematical value. A number is held as its decimal
/// text. A map is held as its entries in order; the value of a name is the
/// value of the first entry with that name.
pub enum Tree {
    Null,
    Bool(bool),
    Number(Seq<char>),
    Str(Seq<char>),
    Array(Seq<Tree>),
    Object(Seq<(Seq<char>, Tree)>),
}

/// The entries of a map.
pub type Fields = Seq<(Seq<char>, Tree)>;

/// The first index at or after `from` whose key is `key`.
pub open spec fn first_index_from(keys: Seq<Seq<char>>, key: Seq<char>, from: int) -> Option<int>
    decreases keys.len() - from,
{
    if from < 0 || from >= keys.len() {
        None
    } else if keys[from] == key {
        Some(from)
    } else {
        first_index_from(keys, key, from + 1)
    }
}

/// The first index whose key is `key`.
pub open spec fn first_index(keys: Seq<Seq<char>>, key: Seq<char>) -> Option<int> {
    first_index_from(keys, key, 0)
}

pub proof fn lemma_first_index_from(keys: Seq<Seq<char>>, key: Seq<char>, from: int)
    requires
        0 <= from <= keys.len(),
    ensures
        match first_index_from(keys, key, from) {
            Some(i) => from <= i < keys.len() && keys[i] == key && forall|j: int|
                from <= j < i ==> keys[j] != key,
            None => forall|j: int| from <= j < keys.len() ==> keys[j] != key,
        },
    decreases keys.len() - from,
{
    if from < keys.len() && keys[from] != key {
        lemma_first_index_from(keys, key, from + 1);
    }
}

/// The index found is the first one with the key; nothing is found only if
/// no entry has the key.
pub proof fn lemma_first_index(keys: Seq<Seq<char>>, key: Seq<char>)
    ensures
        match first_index(keys, key) {
            Some(i) => 0 <= i < keys.len() && keys[i] == key && forall|j: int|
                0 <= j < i ==> keys[j] != key,
            None => forall|j: int| 0 <= j < keys.len() ==> keys[j] != key,
        },
{
    lemma_first_index_from(keys, key, 0);
}

/// An index is the first one with its key when no index before it has it.
pub proof fn lemma_first_index_is(keys: Seq<Seq<char>>, key: Seq<char>, i: int)
    requires
        0 <= i < keys.len(),
        keys[i] == key,
        forall|j: int| 0 <= j < i ==> keys[j] != key,
    ensures
        first_index(keys, key) == Some(i),
{
    lemma_first_index(keys, key);
}

/// No name occurs twice.
pub open spec fn unique_keys(keys: Seq<Seq<char>>) -> bool {
    forall|i: int, j: int| 0 <= i < j < keys.len() ==> keys[i] != keys[j]
}

/// The name occurs at index `i` and nowhere else.
pub open spec fn only_at(keys: Seq<Seq<char>>, key: Seq<char>, i: int) -> bool {
    forall|j: int| 0 <= j < keys.len() && keys[j] == key ==> j == i
}

/// Among names of which none occurs twice, the first index of a name is
/// its only one.
pub proof fn lemma_unique_first_is_only(keys: Seq<Seq<char>>, key: Seq<char>)
    requires
        unique_keys(keys),
    ensures
        first_index(keys, key) matches Some(i) ==> only_at(keys, key, i),
{
    lemma_first_index(keys, key);
}

/// A name that does not occur yet can be added at the end, and a name can
/// stand again where it stands: no name occurs twice after that.
pub proof fn lemma_unique_kept(keys: Seq<Seq<char>>, key: Seq<char>)
    requires
        unique_keys(keys),
    ensures
        first_index(keys, key) is None ==> unique_keys(keys.push(key)),
        first_index(keys, key) matches Some(i) ==> keys.update(i, key) == keys,
{
    lemma_first_index(keys, key);
    match first_index(keys, key) {
        Some(i) => {
            assert(keys.update(i, key) =~= keys);
        },
        None => {},
    }
}

/// The names of the entries, in order.
pub open spec fn field_keys(fields: Fields) -> Seq<Seq<char>> {
    Seq::new(fields.len(), |i: int| fields[i].0)
}

/// The index of the entry that gives `key` its value.
pub open spec fn find_field(fields: Fields, key: Seq<char>) -> Option<int> {
    first_index(field_keys(fields), key)
}

/// The value of `key` in a map.
pub open spec fn get_field(fields: Fields, key: Seq<char>) -> Option<Tree> {
    match find_field(fields, key) {
        Some(i) => Some(fields[i].1),
        None => None,
    }
}

/// The map with `key` set to `value`: the entry that gives `key` its value
/// gets the new value in its place, and a new name is added at the end.
pub open spec fn put_field(fields: Fields, key: Seq<char>, value: Tree) -> Fields {
    match find_field(fields, key) {
        Some(i) => fields.update(i, (key, value)),
        None => fields.push((key, value)),
    }
}

impl Tree {
    pub open spec fn is_null(self) -> bool {
        self is Null
    }

    /// Neither a list nor a map.
    pub open spec fn is_scalar(self) -> bool {
        !(self is Array) && !(self is Object)
    }

    /// Two trees are of the same type when they are both booleans, both
    /// numbers, both strings, both lists or both maps; null goes with null.
    pub open spec fn same_type(self, other: Tree) -> bool {
        &&& (self is Bool) == (other is Bool)
        &&& (self is Number) == (other is Number)
        &&& (self is Str) == (other is Str)
        &&& (self is Array) == (other is Array)
        &&& (self is Object) == (other is Object)
    }

    /// Equality of trees. Lists are equal item by item. Maps are equal when
    /// they give the same names equal values, in whatever order the entries
    /// stand.
    pub open spec fn same(self, other: Tree) -> bool
        decreases self,
    {
        match self {
            Tree::Null => other is Null,
            Tree::Bool(x) => other == Tree::Bool(x),
            Tree::Number(x) => other == Tree::Number(x),
            Tree::Str(x) => other == Tree::Str(x),
            Tree::Array(xs) => match other {
                Tree::Array(ys) => xs.len() == ys.len() && forall|i: int|
                    0 <= i < xs.len() ==> (#[trigger] xs[i]).same(ys[i]),
                _ => false,
            },
            Tree::Object(xs) => match other {
                Tree::Object(ys) => {
                    &&& forall|i: int|
                        0 <= i < xs.len() && find_field(xs, xs[i].0) == Some(i) ==> match get_field(
                            ys,
                            (#[trigger] xs[i]).0,
                        ) {
                            Some(y) => xs[i].1.same(y),
                            None => false,
                        }
                    &&& forall|j: int|
                        0 <= j < ys.len() ==> find_field(xs, (#[trigger] ys[j]).0) is Some
                },
                _ => false,
            },
        }
    }
}

/// The first `n` items of `xs` lie in order among the first `m` items of
/// `ys`: each of them is a part of an item of its own, and the items they
/// are parts of stand in the same order.
pub open spec fn items_contained_in(xs: Seq<Tree>, n: nat, ys: Seq<Tree>, m: nat) -> bool
    decreases xs, n + m,
{
    if n == 0 || n > xs.len() {
        true
    } else if m == 0 || m > ys.len() {
        false
    } else {
        ||| (xs[n - 1].contained_in(ys[m - 1]) && items_contained_in(
            xs,
            (n - 1) as nat,
            ys,
            (m - 1) as nat,
        ))
        ||| items_contained_in(xs, n, ys, (m - 1) as nat)
    }
}

impl Tree {
    /// The tree is a part of `other`. A null, boolean, number or string is
    /// part of itself only. A list is part of a list that holds, in the same
    /// order, an item for each of its items to be part of. A map is part of
    /// a map in which every name of it has a value, of which its own value
    /// for the name is part.
    pub open spec fn contained_in(self, other: Tree) -> bool
        decreases self, 0nat,
    {
        match self {
            Tree::Array(xs) => match other {
                Tree::Array(ys) => items_contained_in(xs, xs.len(), ys, ys.len()),
                _ => false,
            },
            Tree::Object(xs) => match other {
                Tree::Object(ys) => forall|i: int|
                    0 <= i < xs.len() && find_field(xs, xs[i].0) == Some(i) ==> match get_field(
                        ys,
                        (#[trigger] xs[i]).0,
                    ) {
                        Some(y) => xs[i].1.contained_in(y),
                        None => false,
                    },
                _ => false,
            },
            _ => self == other,
        }
    }
}

/// Whether items lie among others depends on the items looked at alone.
pub proof fn lemma_items_contained_prefix(xs: Seq<Tree>, zs: Seq<Tree>, n: nat, ys: Seq<Tree>, m: nat)
    requires
        n <= xs.len(),
        n <= zs.len(),
        forall|i: int| 0 <= i < n ==> xs[i] == zs[i],
    ensures
        items_contained_in(xs, n, ys, m) == items_contained_in(zs, n, ys, m),
    decreases n + m,
{
    if n > 0 && 0 < m <= ys.len() {
        lemma_items_contained_prefix(xs, zs, (n - 1) as nat, ys, (m - 1) as nat);
        lemma_items_contained_prefix(xs, zs, n, ys, (m - 1) as nat);
    }
}

/// The first items of a list lie among the same items of the list.
pub proof fn lemma_items_contained_in_themselves(xs: Seq<Tree>, n: nat)
    requires
        n <= xs.len(),
    ensures
        items_contained_in(xs, n, xs, n),
    decreases xs, n,
{
    if n > 0 {
        lemma_contained_in_itself(xs[n - 1]);
        lemma_items_contained_in_themselves(xs, (n - 1) as nat);
    }
}

/// Every tree is a part of itself.
pub proof fn lemma_contained_in_itself(t: Tree)
    ensures
        t.contained_in(t),
    decreases t, 0nat,
{
    match t {
        Tree::Array(xs) => {
            lemma_items_contained_in_themselves(xs, xs.len());
        },
        Tree::Object(xs) => {
            assert forall|i: int|
                0 <= i < xs.len() && find_field(xs, xs[i].0) == Some(i) implies match get_field(
                xs,
                (#[trigger] xs[i]).0,
            ) {
                Some(y) => xs[i].1.contained_in(y),
                None => false,
            } by {
                lemma_contained_in_itself(xs[i].1);
            }
        },
        _ => {},
    }
}

/// Every tree equals itself.
pub proof fn lemma_same_as_itself(t: Tree)
    ensures
        t.same(t),
        t.same_type(t),
    decreases t,
{
    match t {
        Tree::Array(xs) => {
            assert forall|i: int| 0 <= i < xs.len() implies (#[trigger] xs[i]).same(xs[i]) by {
                lemma_same_as_itself(xs[i]);
            }
        },
        Tree::Object(xs) => {
            assert forall|i: int|
                0 <= i < xs.len() && find_field(xs, xs[i].0) == Some(i) implies match get_field(
                xs,
                (#[trigger] xs[i]).0,
            ) {
                Some(y) => xs[i].1.same(y),
                None => false,
            } by {
                lemma_same_as_itself(xs[i].1);
            }
            assert forall|j: int| 0 <= j < xs.len() implies find_field(
                xs,
                (#[trigger] xs[j]).0,
            ) is Some by {
                lemma_first_index(field_keys(xs), xs[j].0);
                assert(field_keys(xs)[j] == xs[j].0);
            }
        },
        _ => {},
    }
}

/// Setting a name that has a value keeps every name at its place.
pub proof fn lemma_put_field_keeps_keys(fields: Fields, key: Seq<char>, value: Tree)
    requires
        find_field(fields, key) is Some,
    ensures
        field_keys(put_field(fields, key, value)) == field_keys(fields),
        put_field(fields, key, value).len() == fields.len(),
        get_field(put_field(fields, key, value), key) == Some(value),
        put_field(fields, key, value) == fields.update(
            find_field(fields, key)->0,
            (key, value),
        ),
{
    lemma_first_index(field_keys(fields), key);
    let i = find_field(fields, key)->0;
    assert(field_keys(fields)[i] == fields[i].0);
    assert(field_keys(fields.update(i, (key, value))) =~= field_keys(fields));
}

impl Tree {
    /// In every map of the tree, at every depth, no name occurs twice.
    pub open spec fn names_unique(self) -> bool
        decreases self,
    {
        match self {
            Tree::Array(items) => forall|i: int|
                0 <= i < items.len() ==> (#[trigger] items[i]).names_unique(),
            Tree::Object(fields) => unique_keys(field_keys(fields)) && forall|i: int|
                0 <= i < fields.len() ==> (#[trigger] fields[i]).1.names_unique(),
            _ => true,
        }
    }
}

/// Setting a name in a map keeps every name single, at every depth, when
/// the value that is set does so.
pub proof fn lemma_put_field_unique(fields: Fields, key: Seq<char>, value: Tree)
    requires
        Tree::Object(fields).names_unique(),
        value.names_unique(),
    ensures
        Tree::Object(put_field(fields, key, value)).names_unique(),
{
    let after = put_field(fields, key, value);
    lemma_first_index(field_keys(fields), key);
    lemma_unique_kept(field_keys(fields), key);
    match find_field(fields, key) {
        Some(at) => {
            assert(field_keys(after) =~= field_keys(fields).update(at, key));
            assert forall|i: int| 0 <= i < after.len() implies (
            #[trigger] after[i]).1.names_unique() by {
                if i != at {
                    assert(after[i] == fields[i]);
                }
            }
        },
        None => {
            assert(field_keys(after) =~= field_keys(fields).push(key));
            assert forall|i: int| 0 <= i < after.len() implies (
            #[trigger] after[i]).1.names_unique() by {
                if i < fields.len() {
                    assert(after[i] == fields[i]);
                }
            }
        },
    }
}

/// A map with one entry holds no name twice.
pub proof fn lemma_single_entry_unique(key: Seq<char>, value: Tree)
    requires
        value.names_unique(),
    ensures
        Tree::Object(seq![(key, value)]).names_unique(),
{
    let only = seq![(key, value)];
    assert(field_keys(only).len() == 1);
}

/// Setting a name leaves the value of every other name as it is.
pub proof fn lemma_put_field_keeps_others(
    fields: Fields,
    key: Seq<char>,
    value: Tree,
    other: Seq<char>,
)
    requires
        other != key,
    ensures
        get_field(put_field(fields, key, value), other) == get_field(fields, other),
{
    let after = put_field(fields, key, value);
    lemma_first_index(field_keys(fields), key);
    lemma_first_index(field_keys(fields), other);
    lemma_first_index(field_keys(after), other);
    match find_field(fields, key) {
        Some(at) => {
            assert(field_keys(after) =~= field_keys(fields));
        },
        None => {
            assert(field_keys(after) =~= field_keys(fields).push(key));
            match find_field(fields, other) {
                Some(i) => {
                    assert(field_keys(after)[i] == other);
                    let j = find_field(after, other)->0;
                    if j < i {
                        assert(field_keys(fields)[j] == field_keys(after)[j]);
                    }
                },
                None => {
                    if find_field(after, other) is Some {
                        let j = find_field(after, other)->0;
                        if j < fields.len() {
                            assert(field_keys(fields)[j] == field_keys(after)[j]);
                        }
                    }
                },
            }
        },
    }
}

/// Setting a new name adds it at the end, with its value.
pub proof fn lemma_put_field_adds(fields: Fields, key: Seq<char>, value: Tree)
    requires
        find_field(fields, key) is None,
    ensures
        put_field(fields, key, value) == fields.push((key, value)),
        get_field(put_field(fields, key, value), key) == Some(value),
        find_field(put_field(fields, key, value), key) == Some(fields.len() as int),
{
    lemma_first_index(field_keys(fields), key);
    let after = fields.push((key, value));
    assert forall|j: int| 0 <= j < fields.len() implies field_keys(after)[j] != key by {
        assert(field_keys(after)[j] == field_keys(fields)[j]);
    }
    assert(field_keys(after)[fields.len() as int] == key);
    lemma_first_index_is(field_keys(after), key, fields.len() as int);
}

/// The digit for a value below sixteen, with small letters.
pub open spec fn hex_digit(d: int) -> char {
    if d < 10 {
        digit_char(d)
    } else if d == 10 {
        'a'
    } else if d == 11 {
        'b'
    } else if d == 12 {
        'c'
    } else if d == 13 {
        'd'
    } else if d == 14 {
        'e'
    } else {
        'f'
    }
}

/// A character inside a JSON string literal. The quote and the backslash
/// get a backslash in front; backspace, tab, line feed, form feed and
/// carriage return are written with their letter; every other character
/// below the space is written with its number in four hexadecimal digits;
/// every other character stands for itself.
pub open spec fn json_escape(c: char) -> Seq<char> {
    let code = c as int;
    if c == '"' {
        seq!['\\', '"']
    } else if c == '\\' {
        seq!['\\', '\\']
    } else if code == 8 {
        seq!['\\', 'b']
    } else if code == 9 {
        seq!['\\', 't']
    } else if code == 10 {
        seq!['\\', 'n']
    } else if code == 12 {
        seq!['\\', 'f']
    } else if code == 13 {
        seq!['\\', 'r']
    } else if code < 32 {
        seq!['\\', 'u', '0', '0', hex_digit(code / 16), hex_digit(code % 16)]
    } else {
        seq![c]
    }
}

/// The characters of a string as they stand inside a JSON string literal.
pub open spec fn json_escaped(s: Seq<char>) -> Seq<char>
    decreases s.len(),
{
    if s.len() == 0 {
        Seq::empty()
    } else {
        json_escaped(s.drop_last()) + json_escape(s.last())
    }
}

/// The string as a JSON string literal: in double quotes, with its
/// characters escaped.
pub open spec fn json_quoted(s: Seq<char>) -> Seq<char> {
    seq!['"'] + json_escaped(s) + seq!['"']
}

/// What formatting a string with `{:?}` gives: the string as a Rust string
/// literal.
pub uninterp spec fn debug_quoted(s: Seq<char>) -> Seq<char>;

/// `serde_json::to_string` on a string slice. The result is the JSON string
/// literal for the slice, in double quotes; the serialiser escapes the quote,
/// the backslash and the characters below the space, and writes every other
/// character as it is. Serialising a string slice does not fail.
#[verifier::external_body]
pub(crate) fn json_quote(s: &str) -> (r: String)
    ensures
        r@ == json_quoted(s@),
{
    serde_json::to_string(s).unwrap_or_default()
}

/// `format!` with `{:?}` on a string slice, which is `<str as Debug>::fmt`:
/// the slice in double quotes, with escapes.
#[verifier::external_body]
pub(crate) fn debug_quote(s: &str) -> (r: String)
    ensures
        r@ == debug_quoted(s@),
{
    format!("{:?}", s)
}

/// The JSON text of each tree of a list.
pub open spec fn item_texts(items: Seq<Tree>) -> Seq<Seq<char>>
    decreases items,
{
    Seq::new(
        items.len(),
        |i: int|
            if 0 <= i < items.len() {
                json_text(items[i])
            } else {
                Seq::empty()
            },
    )
}

/// The JSON text of each entry of a map: the name as a string literal, a
/// colon, and the value.
pub open spec fn field_texts(fields: Fields) -> Seq<Seq<char>>
    decreases fields,
{
    Seq::new(
        fields.len(),
        |i: int|
            if 0 <= i < fields.len() {
                json_quoted(fields[i].0) + ":"@ + json_text(fields[i].1)
            } else {
                Seq::empty()
            },
    )
}

/// The compact JSON text of a tree: no spaces, the entries of a map in their
/// order.
pub open spec fn json_text(t: Tree) -> Seq<char>
    decreases t,
{
    match t {
        Tree::Null => "null"@,
        Tree::Bool(b) => if b {
            "true"@
        } else {
            "false"@
        },
        Tree::Number(n) => n,
        Tree::Str(s) => json_quoted(s),
        Tree::Array(items) => "["@ + join(item_texts(items), ","@) + "]"@,
        Tree::Object(fields) => "{"@ + join(field_texts(fields), ","@) + "}"@,
    }
}

/// The text that names the kind of a null, a boolean, a number or a string
/// and what it holds, as it is shown in messages about values that cannot be
/// entered. Of a list or a map it says nothing.
pub open spec fn debug_text(t: Tree) -> Seq<char>
    recommends
        t.is_scalar(),
{
    match t {
        Tree::Null => "Null"@,
        Tree::Bool(b) => if b {
            "Bool(true)"@
        } else {
            "Bool(false)"@
        },
        Tree::Number(n) => "Number("@ + n + ")"@,
        Tree::Str(s) => "String("@ + debug_quoted(s) + ")"@,
        _ => arbitrary(),
    }
}

#[derive(Debug, PartialEq, Eq)]
pub enum Value {
    Null,
    Bool(bool),
    Number(String),
    Str(String),
    Array(Vec<Value>),
    Object(NMState),
}

/// A map from names to values: the entries in the order they were added.
#[derive(Debug, PartialEq, Eq)]
pub struct NMState {
    pub entries: Vec<(String, Value)>,
}

/// The trees that a vector of values stands for.
pub open spec fn values_view(values: Seq<Value>) -> Seq<Tree>
    decreases values,
{
    Seq::new(
        values.len(),
        |i: int|
            if 0 <= i < values.len() {
                values[i].tree()
            } else {
                Tree::Null
            },
    )
}

/// The entries that a vector of named values stands for.
pub open spec fn entries_view(entries: Seq<(String, Value)>) -> Fields
    decreases entries,
{
    Seq::new(
        entries.len(),
        |i: int|
            if 0 <= i < entries.len() {
                (entries[i].0@, entries[i].1.tree())
            } else {
                (Seq::empty(), Tree::Null)
            },
    )
}

impl Value {
    /// The tree that the value stands for.
    pub open spec fn tree(&self) -> Tree
        decreases self,
    {
        match self {
            Value::Null => Tree::Null,
            Value::Bool(b) => Tree::Bool(*b),
            Value::Number(n) => Tree::Number(n@),
            Value::Str(s) => Tree::Str(s@),
            Value::Array(items) => Tree::Array(values_view(items@)),
            Value::Object(state) => Tree::Object(entries_view(state.entries@)),
        }
    }
}

impl View for Value {
    type V = Tree;

    open spec fn view(&self) -> Tree {
        self.tree()
    }
}

impl View for NMState {
    type V = Fields;

    open spec fn view(&self) -> Fields {
        entries_view(self.entries@)
    }
}

/// The names of a vector of named items, in order.
pub open spec fn keys_of<V>(entries: Seq<(String, V)>) -> Seq<Seq<char>> {
    Seq::new(entries.len(), |i: int| entries[i].0@)
}

/// The index of the first item with the given name.
pub fn find_key<V>(entries: &Vec<(String, V)>, key: &str) -> (r: Option<usize>)
    ensures
        match r {
            Some(i) => first_index(keys_of(entries@), key@) == Some(i as int) && i < entries.len()
                && (unique_keys(keys_of(entries@)) ==> only_at(keys_of(entries@), key@, i as int)),
            None => first_index(keys_of(entries@), key@) is None,
        },
{
    let mut i: usize = 0;
    while i < entries.len()
        invariant
            i <= entries.len(),
            forall|j: int| 0 <= j < i ==> keys_of(entries@)[j] != key@,
        decreases entries.len() - i,
    {
        if str_eq(entries[i].0.as_str(), key) {
            proof {
                lemma_first_index_is(keys_of(entries@), key@, i as int);
                if unique_keys(keys_of(entries@)) {
                    lemma_unique_first_is_only(keys_of(entries@), key@);
                }
            }
            return Some(i);
        }
        i += 1;
    }
    proof {
        lemma_first_index(keys_of(entries@), key@);
    }
    None
}

impl Clone for Value {
    #[verifier::loop_isolation(false)]
    fn clone(&self) -> (r: Self)
        ensures
            r@ == self@,
        decreases self,
    {
        match self {
            Value::Null => Value::Null,
            Value::Bool(b) => Value::Bool(*b),
            Value::Number(n) => Value::Number(n.clone()),
            Value::Str(s) => Value::Str(s.clone()),
            Value::Array(items) => {
                let mut out: Vec<Value> = Vec::new();
                let mut i: usize = 0;
                while i < items.len()
                    invariant
                        i <= items.len(),
                        out.len() == i,
                        forall|j: int| 0 <= j < i ==> out@[j]@ == items@[j]@,
                    decreases items.len() - i,
                {
                    out.push(items[i].clone());
                    i += 1;
                }
                proof {
                    assert(values_view(out@) =~= values_view(items@));
                }
                Value::Array(out)
            },
            Value::Object(state) => {
                let mut out: Vec<(String, Value)> = Vec::new();
                let mut i: usize = 0;
                while i < state.entries.len()
                    invariant
                        i <= state.entries.len(),
                        out.len() == i,
                        forall|j: int|
                            0 <= j < i ==> out@[j].0@ == state.entries@[j].0@ && out@[j].1@
                                == state.entries@[j].1@,
                    decreases state.entries.len() - i,
                {
                    out.push((state.entries[i].0.clone(), state.entries[i].1.clone()));
                    i += 1;
                }
                proof {
                    assert(entries_view(out@) =~= entries_view(state.entries@));
                }
                Value::Object(NMState { entries: out })
            },
        }
    }
}

impl Clone for NMState {
    fn clone(&self) -> (r: Self)
        ensures
            r@ == self@,
    {
        let mut out: Vec<(String, Value)> = Vec::new();
        let mut i: usize = 0;
        while i < self.entries.len()
            invariant
                i <= self.entries.len(),
                out.len() == i,
                forall|j: int|
                    0 <= j < i ==> out@[j].0@ == self.entries@[j].0@ && out@[j].1@
                        == self.entries@[j].1@,
            decreases self.entries.len() - i,
        {
            out.push((self.entries[i].0.clone(), self.entries[i].1.clone()));
            i += 1;
        }
        proof {
            assert(entries_view(out@) =~= entries_view(self.entries@));
        }
        NMState { entries: out }
    }
}

impl Default for NMState {
    fn default() -> (r: Self)
        ensures
            r@ == Seq::<(Seq<char>, Tree)>::empty(),
    {
        NMState::new()
    }
}

impl NMState {
    /// No name occurs twice among the entries.
    pub open spec fn has_unique_names(&self) -> bool {
        unique_keys(field_keys(self@))
    }

    pub fn new() -> (r: Self)
        ensures
            r@ == Seq::<(Seq<char>, Tree)>::empty(),
            r.has_unique_names(),
    {
        let r = NMState { entries: Vec::new() };
        proof {
            assert(r@ =~= Seq::<(Seq<char>, Tree)>::empty());
        }
        r
    }

    pub fn len(&self) -> (r: usize)
        ensures
            r == self@.len(),
    {
        self.entries.len()
    }

    pub fn is_empty(&self) -> (r: bool)
        ensures
            r == (self@.len() == 0),
    {
        self.entries.len() == 0
    }

    /// The names and the keys of the view are the same sequence.
    pub proof fn lemma_keys(&self)
        ensures
            keys_of(self.entries@) == field_keys(self@),
    {
        assert(keys_of(self.entries@) =~= field_keys(self@));
    }

    /// The index of the entry that gives `key` its value.
    pub fn find(&self, key: &str) -> (r: Option<usize>)
        ensures
            match r {
                Some(i) => find_field(self@, key@) == Some(i as int) && i < self.entries.len()
                    && (self.has_unique_names() ==> only_at(field_keys(self@), key@, i as int)),
                None => find_field(self@, key@) is None,
            },
    {
        proof {
            self.lemma_keys();
        }
        find_key(&self.entries, key)
    }

    /// The value of `key`: that of the first entry with the name, which is
    /// the only one where no name occurs twice.
    pub fn get(&self, key: &str) -> (r: Option<&Value>)
        ensures
            match r {
                Some(v) => get_field(self@, key@) == Some(v@) && (self.has_unique_names()
                    ==> only_at(field_keys(self@), key@, find_field(self@, key@)->0)),
                None => get_field(self@, key@) is None,
            },
    {
        match self.find(key) {
            Some(i) => Some(&self.entries[i].1),
            None => None,
        }
    }

    pub fn contains_key(&self, key: &str) -> (r: bool)
        ensures
            r == get_field(self@, key@) is Some,
    {
        self.find(key).is_some()
    }

    /// Sets `key` to `value`. Where no name occurred twice, none does after.
    pub fn insert(&mut self, key: String, value: Value)
        ensures
            final(self)@ == put_field(old(self)@, key@, value@),
            old(self).has_unique_names() ==> final(self).has_unique_names(),
    {
        let ghost before = self@;
        proof {
            if self.has_unique_names() {
                lemma_unique_kept(field_keys(before), key@);
                assert(field_keys(before.push((key@, value@))) =~= field_keys(before).push(key@));
                if find_field(before, key@) is Some {
                    let at = find_field(before, key@)->0;
                    lemma_first_index(field_keys(before), key@);
                    assert(field_keys(before.update(at, (key@, value@))) =~= field_keys(
                        before,
                    ).update(at, key@));
                }
            }
        }
        match self.find(key.as_str()) {
            Some(i) => {
                self.entries[i] = (key, value);
                proof {
                    assert(self@ =~= before.update(i as int, (key@, value@)));
                }
            },
            None => {
                self.entries.push((key, value));
                proof {
                    assert(self@ =~= before.push((key@, value@)));
                }
            },
        }
    }
}


impl Value {
    pub fn is_null(&self) -> (r: bool)
        ensures
            r == self@.is_null(),
    {
        match self {
            Value::Null => true,
            _ => false,
        }
    }

    /// Whether the two values are of the same type.
    pub fn has_same_type(&self, other: &Value) -> (r: bool)
        ensures
            r == self@.same_type(other@),
    {
        match self {
            Value::Null => match other {
                Value::Null => true,
                _ => false,
            },
            Value::Bool(_) => match other {
                Value::Bool(_) => true,
                _ => false,
            },
            Value::Number(_) => match other {
                Value::Number(_) => true,
                _ => false,
            },
            Value::Str(_) => match other {
                Value::Str(_) => true,
                _ => false,
            },
            Value::Array(_) => match other {
                Value::Array(_) => true,
                _ => false,
            },
            Value::Object(_) => match other {
                Value::Object(_) => true,
                _ => false,
            },
        }
    }

    /// Whether the two values are equal as trees.
    #[verifier::loop_isolation(false)]
    pub fn same_as(&self, other: &Value) -> (r: bool)
        ensures
            r == self@.same(other@),
        decreases self,
    {
        match self {
            Value::Null => match other {
                Value::Null => true,
                _ => false,
            },
            Value::Bool(x) => match other {
                Value::Bool(y) => *x == *y,
                _ => false,
            },
            Value::Number(x) => match other {
                Value::Number(y) => str_eq(x.as_str(), y.as_str()),
                _ => false,
            },
            Value::Str(x) => match other {
                Value::Str(y) => str_eq(x.as_str(), y.as_str()),
                _ => false,
            },
            Value::Array(xs) => match other {
                Value::Array(ys) => {
                    if xs.len() != ys.len() {
                        return false;
                    }
                    let ghost xt = values_view(xs@);
                    let ghost yt = values_view(ys@);
                    let mut i: usize = 0;
                    while i < xs.len()
                        invariant
                            i <= xs.len(),
                            forall|j: int| 0 <= j < i ==> (#[trigger] xt[j]).same(yt[j]),
                        decreases xs.len() - i,
                    {
                        if !xs[i].same_as(&ys[i]) {
                            proof {
                                assert(!xt[i as int].same(yt[i as int]));
                            }
                            return false;
                        }
                        i += 1;
                    }
                    true
                },
                _ => false,
            },
            Value::Object(xs) => match other {
                Value::Object(ys) => {
                    let ghost xt = xs@;
                    let ghost yt = ys@;
                    let mut i: usize = 0;
                    while i < xs.entries.len()
                        invariant
                            i <= xs.entries.len(),
                            forall|j: int|
                                0 <= j < i && find_field(xt, xt[j].0) == Some(j) ==> match get_field(
                                    yt,
                                    (#[trigger] xt[j]).0,
                                ) {
                                    Some(y) => xt[j].1.same(y),
                                    None => false,
                                },
                        decreases xs.entries.len() - i,
                    {
                        let key = xs.entries[i].0.as_str();
                        let found = xs.find(key);
                        let first = match found {
                            Some(k) => k == i,
                            None => false,
                        };
                        if first {
                            match ys.get(key) {
                                Some(y) => {
                                    if !xs.entries[i].1.same_as(y) {
                                        proof {
                                            assert(!xt[i as int].1.same(y@));
                                        }
                                        return false;
                                    }
                                },
                                None => {
                                    proof {
                                        assert(get_field(yt, xt[i as int].0) is None);
                                    }
                                    return false;
                                },
                            }
                        }
                        i += 1;
                    }
                    let mut j: usize = 0;
                    while j < ys.entries.len()
                        invariant
                            j <= ys.entries.len(),
                            forall|k: int|
                                0 <= k < j ==> find_field(xt, (#[trigger] yt[k]).0) is Some,
                        decreases ys.entries.len() - j,
                    {
                        if xs.find(ys.entries[j].0.as_str()).is_none() {
                            proof {
                                assert(find_field(xt, yt[j as int].0) is None);
                            }
                            return false;
                        }
                        j += 1;
                    }
                    true
                },
                _ => false,
            },
        }
    }

    /// The compact JSON text of the value.
    #[verifier::loop_isolation(false)]
    pub fn to_json_string(&self) -> (r: String)
        ensures
            r@ == json_text(self@),
        decreases self,
    {
        match self {
            Value::Null => String::from_str("null"),
            Value::Bool(b) => if *b {
                String::from_str("true")
            } else {
                String::from_str("false")
            },
            Value::Number(n) => n.clone(),
            Value::Str(s) => json_quote(s.as_str()),
            Value::Array(items) => {
                let mut out = String::from_str("[");
                let ghost texts = item_texts(values_view(items@));
                let mut i: usize = 0;
                while i < items.len()
                    invariant
                        i <= items.len(),
                        out@ == "["@ + join(texts.take(i as int), ","@),
                    decreases items.len() - i,
                {
                    if i > 0 {
                        out.append(",");
                    }
                    let item = items[i].to_json_string();
                    out.append(item.as_str());
                    proof {
                        assert(texts.take(i + 1) == texts.take(i as int).push(texts[i as int]));
                        lemma_join_push(texts.take(i as int), texts[i as int], ","@);
                        assert(item@ == texts[i as int]);
                    }
                    i += 1;
                }
                out.append("]");
                proof {
                    assert(texts.take(items.len() as int) == texts);
                }
                out
            },
            Value::Object(state) => {
                let mut out = String::from_str("{");
                let ghost texts = field_texts(state@);
                let mut i: usize = 0;
                while i < state.entries.len()
                    invariant
                        i <= state.entries.len(),
                        out@ == "{"@ + join(texts.take(i as int), ","@),
                    decreases state.entries.len() - i,
                {
                    if i > 0 {
                        out.append(",");
                    }
                    let name = json_quote(state.entries[i].0.as_str());
                    let item = state.entries[i].1.to_json_string();
                    out.append(name.as_str());
                    out.append(":");
                    out.append(item.as_str());
                    proof {
                        assert(texts.take(i + 1) == texts.take(i as int).push(texts[i as int]));
                        lemma_join_push(texts.take(i as int), texts[i as int], ","@);
                        assert(name@ + ":"@ + item@ == texts[i as int]);
                    }
                    i += 1;
                }
                out.append("}");
                proof {
                    assert(texts.take(state.entries.len() as int) == texts);
                }
                out
            },
        }
    }

    /// The text that names the kind of a null, a boolean, a number or a
    /// string and what it holds.
    pub fn debug_string(&self) -> (r: String)
        requires
            self@.is_scalar(),
        ensures
            r@ == debug_text(self@),
    {
        match self {
            Value::Bool(b) => if *b {
                String::from_str("Bool(true)")
            } else {
                String::from_str("Bool(false)")
            },
            Value::Number(n) => {
                let mut out = String::from_str("Number(");
                out.append(n.as_str());
                out.append(")");
                out
            },
            Value::Str(s) => {
                let mut out = String::from_str("String(");
                out.append(debug_quote(s.as_str()).as_str());
                out.append(")");
                out
            },
            _ => String::from_str("Null"),
        }
    }
}

impl NMState {
    /// The compact JSON text of the map.
    pub fn to_json_string(&self) -> (r: String)
        ensures
            r@ == json_text(Tree::Object(self@)),
    {
        let mut out = String::from_str("{");
        let ghost texts = field_texts(self@);
        let mut i: usize = 0;
        while i < self.entries.len()
            invariant
                i <= self.entries.len(),
                texts == field_texts(self@),
                out@ == "{"@ + join(texts.take(i as int), ","@),
            decreases self.entries.len() - i,
        {
            if i > 0 {
                out.append(",");
            }
            let name = json_quote(self.entries[i].0.as_str());
            let item = self.entries[i].1.to_json_string();
            out.append(name.as_str());
            out.append(":");
            out.append(item.as_str());
            proof {
                assert(texts.take(i + 1) == texts.take(i as int).push(texts[i as int]));
                lemma_join_push(texts.take(i as int), texts[i as int], ","@);
                assert(name@ + ":"@ + item@ == texts[i as int]);
            }
            i += 1;
        }
        out.append("}");
        proof {
            assert(texts.take(self.entries.len() as int) == texts);
        }
        out
    }
}

/// The compact JSON text of a list of values.
pub fn list_json_string(items: &Vec<Value>) -> (r: String)
    ensures
        r@ == json_text(Tree::Array(values_view(items@))),
{
    let mut out = String::from_str("[");
    let ghost texts = item_texts(values_view(items@));
    let mut i: usize = 0;
    while i < items.len()
        invariant
            i <= items.len(),
            texts == item_texts(values_view(items@)),
            out@ == "["@ + join(texts.take(i as int), ","@),
        decreases items.len() - i,
    {
        if i > 0 {
            out.append(",");
        }
        let item = items[i].to_json_string();
        out.append(item.as_str());
        proof {
            assert(texts.take(i + 1) == texts.take(i as int).push(texts[i as int]));
            lemma_join_push(texts.take(i as int), texts[i as int], ","@);
            assert(item@ == texts[i as int]);
        }
        i += 1;
    }
    out.append("]");
    proof {
        assert(texts.take(items.len() as int) == texts);
    }
    out
}

} // verus!
