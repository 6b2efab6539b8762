//! The order in which capture entries are resolved.
use crate::ast::node::Ast;
use crate::capture::{capture_keys, find_entry, EntryModel};
use crate::error::ErrorModel;
use crate::resolve::path::compose;
use crate::resolve::resolver::{
    resolve, resolve_ast, resolve_capture_entry_path, resolve_entry, resolve_from,
    resolve_input_source, resolve_operation, resolve_ternary, Scope,
};
use crate::state::{lemma_first_index, lemma_first_index_is, Fields};
use crate::types::{cache_keys, find_captured, put_captured, CacheModel, CapturedModel};
use vstd::prelude::*;

verus! {

/// The captured state of a name, if the name has one.
pub open spec fn captured_state(cache: CacheModel, name: Seq<char>) -> Option<CapturedModel> {
    match find_captured(cache, name) {
        Some(i) => Some(cache[i].1),
        None => None,
    }
}

/// The tree is a path with a reference to the capture entry `name`.
pub open spec fn names_entry(e: Ast, name: Seq<char>) -> bool {
    compose(e) matches Ok(path) && path.capture_entry_name == Some(name)
}

/// The expression refers to the capture entry `name`: an operation in it
/// works on the state of that entry, or takes its value from it.
pub open spec fn refers_to(e: Ast, name: Seq<char>) -> bool {
    match e {
        Ast::EqFilter(_, l, _, r) => (!l.is_current_state() && names_entry(*l, name)) || (*r
            is Path && names_entry(*r, name)),
        Ast::Replace(_, l, _, r) => (!l.is_current_state() && names_entry(*l, name)) || (*r
            is Path && names_entry(*r, name)),
        _ => false,
    }
}

/// The scope holds the two entries `(a, ea)` and `(b, eb)` and no other.
spec fn holds_two(
    scope: Scope,
    a: Seq<char>,
    ea: EntryModel,
    b: Seq<char>,
    eb: EntryModel,
) -> bool {
    &&& scope.capture.len() == 2
    &&& find_entry(scope.capture, a) matches Some(i) && 0 <= i < 2 && scope.capture[i].1 == ea
    &&& find_entry(scope.capture, b) matches Some(j) && 0 <= j < 2 && scope.capture[j].1 == eb
    &&& forall|n: Seq<char>| n != a && n != b ==> find_entry(scope.capture, n) is None
}

/// The captured states with one more name at the end.
spec fn with_state(cache: CacheModel, name: Seq<char>, state: Fields) -> CacheModel {
    cache.push((name, CapturedModel { state, meta_info: None }))
}

/// A name that is not captured yet is added at the end. The other names
/// keep their places.
proof fn lemma_find_after_put(cache: CacheModel, name: Seq<char>, state: Fields)
    requires
        find_captured(cache, name) is None,
    ensures
        put_captured(cache, name, CapturedModel { state, meta_info: None }) == with_state(
            cache,
            name,
            state,
        ),
        find_captured(with_state(cache, name, state), name) == Some(cache.len() as int),
        forall|n: Seq<char>|
            n != name ==> #[trigger] find_captured(with_state(cache, name, state), n)
                == find_captured(cache, n),
        forall|n: Seq<char>|
            n != name ==> #[trigger] captured_state(with_state(cache, name, state), n)
                == captured_state(cache, n),
        captured_state(with_state(cache, name, state), name) == Some(
            CapturedModel { state, meta_info: None },
        ),
{
    let after = with_state(cache, name, state);
    lemma_first_index(cache_keys(cache), name);
    assert(cache_keys(after) =~= cache_keys(cache).push(name));
    lemma_first_index_is(cache_keys(after), name, cache.len() as int);
    assert forall|n: Seq<char>| n != name implies #[trigger] find_captured(after, n)
        == find_captured(cache, n) by {
        lemma_first_index(cache_keys(cache), n);
        lemma_first_index(cache_keys(after), n);
        match find_captured(cache, n) {
            Some(i) => {
                assert(cache_keys(after)[i] == n);
                let j = find_captured(after, n)->0;
                if j < i {
                    assert(cache_keys(cache)[j] == cache_keys(after)[j]);
                }
            },
            None => {
                if find_captured(after, n) is Some {
                    let j = find_captured(after, n)->0;
                    assert(cache_keys(after)[j] == n);
                    if j < cache.len() {
                        assert(cache_keys(cache)[j] == cache_keys(after)[j]);
                    }
                }
            },
        }
    }
    assert forall|n: Seq<char>| n != name implies #[trigger] captured_state(after, n)
        == captured_state(cache, n) by {
        assert(find_captured(after, n) == find_captured(cache, n));
        lemma_first_index(cache_keys(cache), n);
    }
}

/// What is captured while `a` is not resolved yet: `cache`, with the state
/// of `b` at the end if `b` is resolved.
spec fn without_first(cache: CacheModel, b: Seq<char>, state: Option<Fields>)
    -> CacheModel {
    match state {
        Some(found) => with_state(cache, b, found),
        None => cache,
    }
}

/// A place from which the expression of `a` is evaluated: a scope that
/// holds the two entries, a visiting list with `a` in it, and what is
/// captured without `a`.
spec fn evaluates_first(
    s: Scope,
    v: Seq<Seq<char>>,
    current: Fields,
    a: Seq<char>,
    ea: EntryModel,
    b: Seq<char>,
    eb: EntryModel,
) -> bool {
    &&& holds_two(s, a, ea, b, eb)
    &&& s.current == current
    &&& v.contains(a)
}

proof fn lemma_same_entry(
    s1: Scope,
    x1: Option<Fields>,
    v1: Seq<Seq<char>>,
    s2: Scope,
    x2: Option<Fields>,
    v2: Seq<Seq<char>>,
    cache: CacheModel,
    current: Fields,
    a: Seq<char>,
    ea: EntryModel,
    b: Seq<char>,
    eb: EntryModel,
    n: Seq<char>,
)
    requires
        a != b,
        n != b,
        find_captured(cache, a) is None,
        find_captured(cache, b) is None,
        evaluates_first(s1, v1, current, a, ea, b, eb),
        evaluates_first(s2, v2, current, a, ea, b, eb),
    ensures
        resolve_entry(s1, without_first(cache, b, x1), v1, n).0 == without_first(cache, b, x1),
        resolve_entry(s1, without_first(cache, b, x1), v1, n).1 == resolve_entry(
            s2,
            without_first(cache, b, x2),
            v2,
            n,
        ).1,
{
    lemma_first_index(cache_keys(cache), n);
    if x1 is Some {
        lemma_find_after_put(cache, b, x1->0);
    }
    if x2 is Some {
        lemma_find_after_put(cache, b, x2->0);
    }
    assert(find_captured(without_first(cache, b, x1), n) == find_captured(cache, n));
    assert(find_captured(without_first(cache, b, x2), n) == find_captured(cache, n));
}

proof fn lemma_same_input_source(
    s1: Scope,
    x1: Option<Fields>,
    v1: Seq<Seq<char>>,
    s2: Scope,
    x2: Option<Fields>,
    v2: Seq<Seq<char>>,
    cache: CacheModel,
    current: Fields,
    a: Seq<char>,
    ea: EntryModel,
    b: Seq<char>,
    eb: EntryModel,
    e: Ast,
)
    requires
        a != b,
        e.is_current_state() || !names_entry(e, b),
        find_captured(cache, a) is None,
        find_captured(cache, b) is None,
        evaluates_first(s1, v1, current, a, ea, b, eb),
        evaluates_first(s2, v2, current, a, ea, b, eb),
    ensures
        resolve_input_source(s1, without_first(cache, b, x1), v1, e).0 == without_first(
            cache,
            b,
            x1,
        ),
        resolve_input_source(s1, without_first(cache, b, x1), v1, e).1 == resolve_input_source(
            s2,
            without_first(cache, b, x2),
            v2,
            e,
        ).1,
{
    if !e.is_current_state() {
        match compose(e) {
            Ok(path) => match path.capture_entry_name {
                Some(name) => {
                    lemma_same_entry(s1, x1, v1, s2, x2, v2, cache, current, a, ea, b, eb, name);
                },
                None => {},
            },
            Err(_) => {},
        }
    }
}

proof fn lemma_same_entry_path(
    s1: Scope,
    x1: Option<Fields>,
    v1: Seq<Seq<char>>,
    s2: Scope,
    x2: Option<Fields>,
    v2: Seq<Seq<char>>,
    cache: CacheModel,
    current: Fields,
    a: Seq<char>,
    ea: EntryModel,
    b: Seq<char>,
    eb: EntryModel,
    e: Ast,
)
    requires
        a != b,
        !names_entry(e, b),
        find_captured(cache, a) is None,
        find_captured(cache, b) is None,
        evaluates_first(s1, v1, current, a, ea, b, eb),
        evaluates_first(s2, v2, current, a, ea, b, eb),
    ensures
        resolve_capture_entry_path(s1, without_first(cache, b, x1), v1, e).0 == without_first(
            cache,
            b,
            x1,
        ),
        resolve_capture_entry_path(s1, without_first(cache, b, x1), v1, e).1
            == resolve_capture_entry_path(s2, without_first(cache, b, x2), v2, e).1,
{
    match compose(e) {
        Ok(path) => match path.capture_entry_name {
            Some(name) => {
                lemma_same_entry(s1, x1, v1, s2, x2, v2, cache, current, a, ea, b, eb, name);
            },
            None => {},
        },
        Err(_) => {},
    }
}

proof fn lemma_same_ternary(
    s1: Scope,
    x1: Option<Fields>,
    v1: Seq<Seq<char>>,
    s2: Scope,
    x2: Option<Fields>,
    v2: Seq<Seq<char>>,
    cache: CacheModel,
    current: Fields,
    a: Seq<char>,
    ea: EntryModel,
    b: Seq<char>,
    eb: EntryModel,
    l: Ast,
    m: Ast,
    r: Ast,
)
    requires
        a != b,
        l.is_current_state() || !names_entry(l, b),
        !(r is Path) || !names_entry(r, b),
        find_captured(cache, a) is None,
        find_captured(cache, b) is None,
        evaluates_first(s1, v1, current, a, ea, b, eb),
        evaluates_first(s2, v2, current, a, ea, b, eb),
    ensures
        resolve_ternary(s1, without_first(cache, b, x1), v1, l, m, r).0 == without_first(
            cache,
            b,
            x1,
        ),
        resolve_ternary(s1, without_first(cache, b, x1), v1, l, m, r).1 == resolve_ternary(
            s2,
            without_first(cache, b, x2),
            v2,
            l,
            m,
            r,
        ).1,
{
    lemma_same_input_source(s1, x1, v1, s2, x2, v2, cache, current, a, ea, b, eb, l);
    if r is Path {
        lemma_same_entry_path(s1, x1, v1, s2, x2, v2, cache, current, a, ea, b, eb, r);
    }
}

/// An expression that does not refer to `b` evaluates to the same result
/// wherever the expression of `a` is evaluated from, and captures nothing.
proof fn lemma_same_evaluation(
    s1: Scope,
    x1: Option<Fields>,
    v1: Seq<Seq<char>>,
    s2: Scope,
    x2: Option<Fields>,
    v2: Seq<Seq<char>>,
    cache: CacheModel,
    current: Fields,
    a: Seq<char>,
    ea: EntryModel,
    b: Seq<char>,
    eb: EntryModel,
    e: Ast,
)
    requires
        a != b,
        !refers_to(e, b),
        find_captured(cache, a) is None,
        find_captured(cache, b) is None,
        evaluates_first(s1, v1, current, a, ea, b, eb),
        evaluates_first(s2, v2, current, a, ea, b, eb),
    ensures
        resolve_ast(s1, without_first(cache, b, x1), v1, e).0 == without_first(cache, b, x1),
        resolve_ast(s1, without_first(cache, b, x1), v1, e).1 == resolve_ast(
            s2,
            without_first(cache, b, x2),
            v2,
            e,
        ).1,
{
    let c1 = without_first(cache, b, x1);
    let c2 = without_first(cache, b, x2);
    match e {
        Ast::EqFilter(pos, l, m, r) => {
            lemma_same_ternary(s1, x1, v1, s2, x2, v2, cache, current, a, ea, b, eb, *l, *m, *r);
            assert(resolve_operation(s1, c1, v1, pos, *l, *m, *r, true).0 == c1);
            assert(resolve_operation(s1, c1, v1, pos, *l, *m, *r, true).1 == resolve_operation(
                s2,
                c2,
                v2,
                pos,
                *l,
                *m,
                *r,
                true,
            ).1);
        },
        Ast::Replace(pos, l, m, r) => {
            lemma_same_ternary(s1, x1, v1, s2, x2, v2, cache, current, a, ea, b, eb, *l, *m, *r);
            assert(resolve_operation(s1, c1, v1, pos, *l, *m, *r, false).0 == c1);
            assert(resolve_operation(s1, c1, v1, pos, *l, *m, *r, false).1 == resolve_operation(
                s2,
                c2,
                v2,
                pos,
                *l,
                *m,
                *r,
                false,
            ).1);
        },
        _ => {},
    }
}

/// What is assumed of two entries `(a, ea)` and `(b, eb)` that are resolved
/// in two scopes over the same current state: the names differ and are not
/// captured yet, `ea` does not refer to `b`, and `known` is what is
/// captured once `a` is resolved: `given` with the state of `a` at the end,
/// or `given` itself when `ea` cannot be evaluated.
spec fn two_entries(
    s: Scope,
    t: Scope,
    given: CacheModel,
    known: CacheModel,
    a: Seq<char>,
    ea: EntryModel,
    b: Seq<char>,
    eb: EntryModel,
) -> bool {
    &&& a != b
    &&& holds_two(s, a, ea, b, eb)
    &&& holds_two(t, a, ea, b, eb)
    &&& s.current == t.current
    &&& find_captured(given, a) is None
    &&& find_captured(given, b) is None
    &&& !refers_to(ea.ast, b)
    &&& match resolve_ast(s, given, seq![b, a], ea.ast).1 {
        Ok(state) => known == with_state(given, a, state),
        Err(_) => known == given,
    }
}

/// While `b` is under way, a step gives the same result whether `a` is
/// captured already or not, in either scope; it leaves what is captured as
/// it is, or adds the state of `a`.
spec fn agrees<T>(
    fresh: (CacheModel, Result<T, ErrorModel>),
    same_scope: (CacheModel, Result<T, ErrorModel>),
    other_scope: (CacheModel, Result<T, ErrorModel>),
    given: CacheModel,
    known: CacheModel,
) -> bool {
    &&& other_scope.0 == known
    &&& same_scope == other_scope
    &&& fresh.1 == other_scope.1
    &&& (fresh.0 == given || fresh.0 == known)
}

proof fn lemma_entry_agrees(
    s: Scope,
    t: Scope,
    given: CacheModel,
    known: CacheModel,
    a: Seq<char>,
    ea: EntryModel,
    b: Seq<char>,
    eb: EntryModel,
    n: Seq<char>,
)
    requires
        two_entries(s, t, given, known, a, ea, b, eb),
    ensures
        agrees(
            resolve_entry(s, given, seq![b], n),
            resolve_entry(s, known, seq![b], n),
            resolve_entry(t, known, seq![b], n),
            given,
            known,
        ),
{
    let vb = seq![b];
    assert(vb.contains(b)) by {
        assert(vb[0] == b);
    }
    assert(!vb.contains(a));
    assert(vb.push(a) =~= seq![b, a]);
    let value = resolve_ast(s, given, seq![b, a], ea.ast).1;
    assert(seq![b, a].contains(a)) by {
        assert(seq![b, a][1] == a);
    }
    lemma_same_evaluation(
        s,
        None,
        seq![b, a],
        t,
        None,
        seq![b, a],
        given,
        s.current,
        a,
        ea,
        b,
        eb,
        ea.ast,
    );
    lemma_same_evaluation(
        t,
        None,
        seq![b, a],
        s,
        None,
        seq![b, a],
        given,
        s.current,
        a,
        ea,
        b,
        eb,
        ea.ast,
    );
    lemma_first_index(cache_keys(given), n);
    match value {
        Ok(state) => {
            lemma_find_after_put(given, a, state);
            if n == a {
            } else if n == b {
            } else {
                assert(find_captured(known, n) == find_captured(given, n));
            }
        },
        Err(_) => {},
    }
}

proof fn lemma_input_source_agrees(
    s: Scope,
    t: Scope,
    given: CacheModel,
    known: CacheModel,
    a: Seq<char>,
    ea: EntryModel,
    b: Seq<char>,
    eb: EntryModel,
    e: Ast,
)
    requires
        two_entries(s, t, given, known, a, ea, b, eb),
    ensures
        agrees(
            resolve_input_source(s, given, seq![b], e),
            resolve_input_source(s, known, seq![b], e),
            resolve_input_source(t, known, seq![b], e),
            given,
            known,
        ),
{
    if !e.is_current_state() {
        match compose(e) {
            Ok(path) => match path.capture_entry_name {
                Some(name) => {
                    lemma_entry_agrees(s, t, given, known, a, ea, b, eb, name);
                },
                None => {},
            },
            Err(_) => {},
        }
    }
}

proof fn lemma_entry_path_agrees(
    s: Scope,
    t: Scope,
    given: CacheModel,
    known: CacheModel,
    a: Seq<char>,
    ea: EntryModel,
    b: Seq<char>,
    eb: EntryModel,
    e: Ast,
)
    requires
        two_entries(s, t, given, known, a, ea, b, eb),
    ensures
        agrees(
            resolve_capture_entry_path(s, given, seq![b], e),
            resolve_capture_entry_path(s, known, seq![b], e),
            resolve_capture_entry_path(t, known, seq![b], e),
            given,
            known,
        ),
{
    match compose(e) {
        Ok(path) => match path.capture_entry_name {
            Some(name) => {
                lemma_entry_agrees(s, t, given, known, a, ea, b, eb, name);
            },
            None => {},
        },
        Err(_) => {},
    }
}

proof fn lemma_ternary_agrees(
    s: Scope,
    t: Scope,
    given: CacheModel,
    known: CacheModel,
    a: Seq<char>,
    ea: EntryModel,
    b: Seq<char>,
    eb: EntryModel,
    l: Ast,
    m: Ast,
    r: Ast,
)
    requires
        two_entries(s, t, given, known, a, ea, b, eb),
    ensures
        agrees(
            resolve_ternary(s, given, seq![b], l, m, r),
            resolve_ternary(s, known, seq![b], l, m, r),
            resolve_ternary(t, known, seq![b], l, m, r),
            given,
            known,
        ),
{
    lemma_input_source_agrees(s, t, given, known, a, ea, b, eb, l);
    lemma_entry_path_agrees(s, t, given, known, a, ea, b, eb, r);
}

proof fn lemma_evaluation_agrees(
    s: Scope,
    t: Scope,
    given: CacheModel,
    known: CacheModel,
    a: Seq<char>,
    ea: EntryModel,
    b: Seq<char>,
    eb: EntryModel,
    e: Ast,
)
    requires
        two_entries(s, t, given, known, a, ea, b, eb),
    ensures
        agrees(
            resolve_ast(s, given, seq![b], e),
            resolve_ast(s, known, seq![b], e),
            resolve_ast(t, known, seq![b], e),
            given,
            known,
        ),
{
    match e {
        Ast::EqFilter(pos, l, m, r) => {
            lemma_ternary_agrees(s, t, given, known, a, ea, b, eb, *l, *m, *r);
            assert(agrees(
                resolve_operation(s, given, seq![b], pos, *l, *m, *r, true),
                resolve_operation(s, known, seq![b], pos, *l, *m, *r, true),
                resolve_operation(t, known, seq![b], pos, *l, *m, *r, true),
                given,
                known,
            ));
        },
        Ast::Replace(pos, l, m, r) => {
            lemma_ternary_agrees(s, t, given, known, a, ea, b, eb, *l, *m, *r);
            assert(agrees(
                resolve_operation(s, given, seq![b], pos, *l, *m, *r, false),
                resolve_operation(s, known, seq![b], pos, *l, *m, *r, false),
                resolve_operation(t, known, seq![b], pos, *l, *m, *r, false),
                given,
                known,
            ));
        },
        _ => {},
    }
}


/// The scope over two entries in the given order.
spec fn scope_of(
    first: (Seq<char>, EntryModel),
    second: (Seq<char>, EntryModel),
    current: Fields,
) -> Scope {
    Scope { capture: seq![first, second], current }
}

proof fn lemma_scope_holds_two(
    a: Seq<char>,
    ea: EntryModel,
    b: Seq<char>,
    eb: EntryModel,
    current: Fields,
)
    requires
        a != b,
    ensures
        holds_two(scope_of((a, ea), (b, eb), current), a, ea, b, eb),
        holds_two(scope_of((b, eb), (a, ea), current), a, ea, b, eb),
        find_entry(scope_of((a, ea), (b, eb), current).capture, a) == Some(0int),
        find_entry(scope_of((a, ea), (b, eb), current).capture, b) == Some(1int),
        find_entry(scope_of((b, eb), (a, ea), current).capture, b) == Some(0int),
        find_entry(scope_of((b, eb), (a, ea), current).capture, a) == Some(1int),
{
    let c1 = scope_of((a, ea), (b, eb), current).capture;
    let c2 = scope_of((b, eb), (a, ea), current).capture;
    assert(capture_keys(c1) =~= seq![a, b]);
    assert(capture_keys(c2) =~= seq![b, a]);
    lemma_first_index_is(capture_keys(c1), a, 0);
    lemma_first_index_is(capture_keys(c1), b, 1);
    lemma_first_index_is(capture_keys(c2), b, 0);
    lemma_first_index_is(capture_keys(c2), a, 1);
    assert forall|n: Seq<char>| n != a && n != b implies find_entry(c1, n) is None by {
        lemma_first_index(capture_keys(c1), n);
    }
    assert forall|n: Seq<char>| n != a && n != b implies find_entry(c2, n) is None by {
        lemma_first_index(capture_keys(c2), n);
    }
}

/// Two entries are resolved one after the other: the second with what is
/// captured after the first.
proof fn lemma_resolve_two(
    first: (Seq<char>, EntryModel),
    second: (Seq<char>, EntryModel),
    current: Fields,
    cache: CacheModel,
)
    ensures
        ({
            let s = scope_of(first, second, current);
            let one = resolve_entry(s, cache, Seq::empty(), first.0);
            let two = resolve_entry(s, one.0, Seq::empty(), second.0);
            resolve(seq![first, second], current, cache) == if one.1 is Err {
                Err::<CacheModel, ErrorModel>(one.1->Err_0.resolver())
            } else if two.1 is Err {
                Err::<CacheModel, ErrorModel>(two.1->Err_0.resolver())
            } else {
                Ok::<CacheModel, ErrorModel>(two.0)
            }
        }),
{
    let s = scope_of(first, second, current);
    let one = resolve_entry(s, cache, Seq::empty(), first.0);
    let two = resolve_entry(s, one.0, Seq::empty(), second.0);
    assert(s.capture[0] == first);
    assert(s.capture[1] == second);
    assert(resolve_from(s, two.0, 2) == Ok::<CacheModel, ErrorModel>(two.0));
    if one.1 is Ok {
        assert(resolve_from(s, one.0, 1) == if two.1 is Err {
            Err::<CacheModel, ErrorModel>(two.1->Err_0.resolver())
        } else {
            Ok::<CacheModel, ErrorModel>(two.0)
        });
    }
}

/// An entry that is not captured yet and not under way is resolved by
/// evaluating its expression; its state is added to what is captured after
/// the evaluation.
proof fn lemma_entry_evaluated(
    s: Scope,
    cache: CacheModel,
    name: Seq<char>,
    entry: EntryModel,
)
    requires
        s.capture.len() > 0,
        find_captured(cache, name) is None,
        find_entry(s.capture, name) matches Some(i) && 0 <= i < s.capture.len() && s.capture[i].1
            == entry,
    ensures
        ({
            let evaluated = resolve_ast(s, cache, seq![name], entry.ast);
            let resolved = resolve_entry(s, cache, Seq::empty(), name);
            match evaluated.1 {
                Ok(state) => resolved == (
                    put_captured(evaluated.0, name, CapturedModel { state, meta_info: None }),
                    Ok::<Fields, ErrorModel>(state),
                ),
                Err(e) => resolved.0 == evaluated.0 && resolved.1 is Err,
            }
        }),
{
    let none = Seq::<Seq<char>>::empty();
    assert(none.push(name) =~= seq![name]);
    assert(!none.contains(name));
}

/// Two names that are added to what is captured have the same states
/// whichever is added first, and so has every other name.
proof fn lemma_added_in_either_order(
    cache: CacheModel,
    a: Seq<char>,
    state_a: Fields,
    b: Seq<char>,
    state_b: Fields,
    n: Seq<char>,
)
    requires
        a != b,
        find_captured(cache, a) is None,
        find_captured(cache, b) is None,
    ensures
        captured_state(with_state(with_state(cache, a, state_a), b, state_b), n)
            == captured_state(with_state(with_state(cache, b, state_b), a, state_a), n),
{
    lemma_find_after_put(cache, a, state_a);
    lemma_find_after_put(cache, b, state_b);
    lemma_find_after_put(with_state(cache, a, state_a), b, state_b);
    lemma_find_after_put(with_state(cache, b, state_b), a, state_a);
}

/// What resolving `a` and then `b` gives, where `ea` does not refer to `b`
/// and evaluating `eb` with `a` captured captures nothing more.
proof fn lemma_first_then_second(
    a: Seq<char>,
    ea: EntryModel,
    b: Seq<char>,
    eb: EntryModel,
    current: Fields,
    cache: CacheModel,
)
    requires
        a != b,
        !refers_to(ea.ast, b),
        find_captured(cache, a) is None,
        find_captured(cache, b) is None,
        resolve_ast(scope_of((a, ea), (b, eb), current), cache, seq![a], ea.ast).1 matches Ok(
            state_a,
        ) ==> resolve_ast(
            scope_of((a, ea), (b, eb), current),
            with_state(cache, a, state_a),
            seq![b],
            eb.ast,
        ).0 == with_state(cache, a, state_a),
    ensures
        ({
            let s = scope_of((a, ea), (b, eb), current);
            let result = resolve(seq![(a, ea), (b, eb)], current, cache);
            match resolve_ast(s, cache, seq![a], ea.ast).1 {
                Err(_) => result is Err,
                Ok(state_a) => match resolve_ast(
                    s,
                    with_state(cache, a, state_a),
                    seq![b],
                    eb.ast,
                ).1 {
                    Err(_) => result is Err,
                    Ok(state_b) => result == Ok::<CacheModel, ErrorModel>(
                        with_state(with_state(cache, a, state_a), b, state_b),
                    ),
                },
            }
        }),
{
    let s = scope_of((a, ea), (b, eb), current);
    lemma_scope_holds_two(a, ea, b, eb, current);
    lemma_resolve_two((a, ea), (b, eb), current, cache);
    lemma_entry_evaluated(s, cache, a, ea);
    assert(seq![a].contains(a)) by {
        assert(seq![a][0] == a);
    }
    lemma_same_evaluation(
        s,
        None,
        seq![a],
        s,
        None,
        seq![a],
        cache,
        current,
        a,
        ea,
        b,
        eb,
        ea.ast,
    );
    match resolve_ast(s, cache, seq![a], ea.ast).1 {
        Err(_) => {},
        Ok(state_a) => {
            lemma_find_after_put(cache, a, state_a);
            let known = with_state(cache, a, state_a);
            lemma_entry_evaluated(s, known, b, eb);
            match resolve_ast(s, known, seq![b], eb.ast).1 {
                Err(_) => {},
                Ok(state_b) => {
                    lemma_find_after_put(known, b, state_b);
                },
            }
        },
    }
}

/// What resolving `b` and then `a` gives, where `ea` does not refer to `b`
/// and evaluating `eb` captures the state of `a` or nothing.
proof fn lemma_second_then_first(
    a: Seq<char>,
    ea: EntryModel,
    b: Seq<char>,
    eb: EntryModel,
    current: Fields,
    cache: CacheModel,
)
    requires
        a != b,
        !refers_to(ea.ast, b),
        find_captured(cache, a) is None,
        find_captured(cache, b) is None,
        ({
            let s = scope_of((b, eb), (a, ea), current);
            let evaluated = resolve_ast(s, cache, seq![b], eb.ast);
            match resolve_ast(s, cache, seq![a], ea.ast).1 {
                Err(_) => evaluated.0 == cache,
                Ok(state_a) => evaluated.0 == cache || evaluated.0 == with_state(
                    cache,
                    a,
                    state_a,
                ),
            }
        }),
    ensures
        ({
            let s = scope_of((b, eb), (a, ea), current);
            let result = resolve(seq![(b, eb), (a, ea)], current, cache);
            let evaluated = resolve_ast(s, cache, seq![b], eb.ast);
            match evaluated.1 {
                Err(_) => result is Err,
                Ok(state_b) => match resolve_ast(s, cache, seq![a], ea.ast).1 {
                    Err(_) => result is Err,
                    Ok(state_a) => result == Ok::<CacheModel, ErrorModel>(
                        if evaluated.0 == cache {
                            with_state(with_state(cache, b, state_b), a, state_a)
                        } else {
                            with_state(with_state(cache, a, state_a), b, state_b)
                        },
                    ),
                },
            }
        }),
{
    let s = scope_of((b, eb), (a, ea), current);
    let none = Seq::<Seq<char>>::empty();
    lemma_scope_holds_two(a, ea, b, eb, current);
    lemma_resolve_two((b, eb), (a, ea), current, cache);
    lemma_entry_evaluated(s, cache, b, eb);
    let evaluated = resolve_ast(s, cache, seq![b], eb.ast);
    let value = resolve_ast(s, cache, seq![a], ea.ast).1;
    match evaluated.1 {
        Err(_) => {},
        Ok(state_b) => {
            if evaluated.0 == cache {
                lemma_find_after_put(cache, b, state_b);
                let after_b = with_state(cache, b, state_b);
                lemma_entry_evaluated(s, after_b, a, ea);
                assert(seq![a].contains(a)) by {
                    assert(seq![a][0] == a);
                }
                lemma_same_evaluation(
                    s,
                    Some(state_b),
                    seq![a],
                    s,
                    None,
                    seq![a],
                    cache,
                    current,
                    a,
                    ea,
                    b,
                    eb,
                    ea.ast,
                );
                match value {
                    Ok(state_a) => {
                        lemma_find_after_put(after_b, a, state_a);
                    },
                    Err(_) => {},
                }
            } else {
                let state_a = value->Ok_0;
                lemma_find_after_put(cache, a, state_a);
                let known = with_state(cache, a, state_a);
                lemma_find_after_put(known, b, state_b);
                let both = with_state(known, b, state_b);
                assert(find_captured(both, a) == find_captured(known, a));
                assert(resolve_entry(s, both, none, a) == (
                    both,
                    Ok::<Fields, ErrorModel>(state_a),
                ));
            }
        },
    }
}

/// What is captured once `a` is resolved, where `ea` does not refer to
/// `b`: `cache` with the state of `a` at the end, or `cache` itself when
/// `ea` cannot be evaluated.
spec fn known_after(
    s: Scope,
    cache: CacheModel,
    a: Seq<char>,
    ea: EntryModel,
    b: Seq<char>,
) -> CacheModel {
    match resolve_ast(s, cache, seq![b, a], ea.ast).1 {
        Ok(state) => with_state(cache, a, state),
        Err(_) => cache,
    }
}

proof fn lemma_two_entries_hold(
    a: Seq<char>,
    ea: EntryModel,
    b: Seq<char>,
    eb: EntryModel,
    current: Fields,
    cache: CacheModel,
)
    requires
        a != b,
        !refers_to(ea.ast, b),
        find_captured(cache, a) is None,
        find_captured(cache, b) is None,
    ensures
        two_entries(
            scope_of((b, eb), (a, ea), current),
            scope_of((a, ea), (b, eb), current),
            cache,
            known_after(scope_of((b, eb), (a, ea), current), cache, a, ea, b),
            a,
            ea,
            b,
            eb,
        ),
{
    lemma_scope_holds_two(a, ea, b, eb, current);
}

/// The expression of `a`, which does not refer to `b`, has one value,
/// whichever order the entries stand in and whether `b` is under way or not.
proof fn lemma_one_value(
    a: Seq<char>,
    ea: EntryModel,
    b: Seq<char>,
    eb: EntryModel,
    current: Fields,
    cache: CacheModel,
)
    requires
        a != b,
        !refers_to(ea.ast, b),
        find_captured(cache, a) is None,
        find_captured(cache, b) is None,
    ensures
        resolve_ast(scope_of((a, ea), (b, eb), current), cache, seq![a], ea.ast).1
            == resolve_ast(scope_of((b, eb), (a, ea), current), cache, seq![b, a], ea.ast).1,
        resolve_ast(scope_of((b, eb), (a, ea), current), cache, seq![a], ea.ast).1
            == resolve_ast(scope_of((b, eb), (a, ea), current), cache, seq![b, a], ea.ast).1,
{
    let s1 = scope_of((a, ea), (b, eb), current);
    let s2 = scope_of((b, eb), (a, ea), current);
    lemma_scope_holds_two(a, ea, b, eb, current);
    assert(seq![a].contains(a)) by {
        assert(seq![a][0] == a);
    }
    assert(seq![b, a].contains(a)) by {
        assert(seq![b, a][1] == a);
    }
    lemma_same_evaluation(
        s1,
        None,
        seq![a],
        s2,
        None,
        seq![b, a],
        cache,
        current,
        a,
        ea,
        b,
        eb,
        ea.ast,
    );
    lemma_same_evaluation(
        s2,
        None,
        seq![a],
        s2,
        None,
        seq![b, a],
        cache,
        current,
        a,
        ea,
        b,
        eb,
        ea.ast,
    );
}

/// How the evaluation of `eb` in the one order stands to its evaluation in
/// the other, where `ea` does not refer to `b`: the result is the same;
/// with `a` captured nothing more is captured, and without it the state of
/// `a` is captured or nothing.
proof fn lemma_evaluations_in_both_orders(
    a: Seq<char>,
    ea: EntryModel,
    b: Seq<char>,
    eb: EntryModel,
    current: Fields,
    cache: CacheModel,
)
    requires
        a != b,
        !refers_to(ea.ast, b),
        find_captured(cache, a) is None,
        find_captured(cache, b) is None,
    ensures
        ({
            let s1 = scope_of((a, ea), (b, eb), current);
            let s2 = scope_of((b, eb), (a, ea), current);
            let value = resolve_ast(s1, cache, seq![a], ea.ast).1;
            let evaluated = resolve_ast(s2, cache, seq![b], eb.ast);
            &&& resolve_ast(s2, cache, seq![a], ea.ast).1 == value
            &&& match value {
                Err(_) => evaluated.0 == cache,
                Ok(state_a) => {
                    let known = with_state(cache, a, state_a);
                    &&& evaluated.0 == cache || evaluated.0 == known
                    &&& resolve_ast(s1, known, seq![b], eb.ast).0 == known
                    &&& resolve_ast(s1, known, seq![b], eb.ast).1 == evaluated.1
                },
            }
        }),
{
    let s1 = scope_of((a, ea), (b, eb), current);
    let s2 = scope_of((b, eb), (a, ea), current);
    let known = known_after(s2, cache, a, ea, b);
    lemma_one_value(a, ea, b, eb, current, cache);
    lemma_two_entries_hold(a, ea, b, eb, current, cache);
    lemma_evaluation_agrees(s2, s1, cache, known, a, ea, b, eb, eb.ast);
    assert(agrees(
        resolve_ast(s2, cache, seq![b], eb.ast),
        resolve_ast(s2, known, seq![b], eb.ast),
        resolve_ast(s1, known, seq![b], eb.ast),
        cache,
        known,
    ));
}

/// While `x` is under way and the other entry, `y`, has a captured state,
/// every name is resolved without evaluating an expression: to the same
/// result in either scope, and nothing more is captured.
proof fn lemma_entry_with_other_captured(
    s1: Scope,
    s2: Scope,
    cache: CacheModel,
    v: Seq<Seq<char>>,
    x: Seq<char>,
    ex: EntryModel,
    y: Seq<char>,
    ey: EntryModel,
    n: Seq<char>,
)
    requires
        x != y,
        holds_two(s1, x, ex, y, ey),
        holds_two(s2, x, ex, y, ey),
        s1.current == s2.current,
        find_captured(cache, y) is Some,
        v.contains(x),
    ensures
        resolve_entry(s1, cache, v, n) == resolve_entry(s2, cache, v, n),
        resolve_entry(s1, cache, v, n).0 == cache,
{
}

proof fn lemma_evaluation_with_other_captured(
    s1: Scope,
    s2: Scope,
    cache: CacheModel,
    v: Seq<Seq<char>>,
    x: Seq<char>,
    ex: EntryModel,
    y: Seq<char>,
    ey: EntryModel,
    e: Ast,
)
    requires
        x != y,
        holds_two(s1, x, ex, y, ey),
        holds_two(s2, x, ex, y, ey),
        s1.current == s2.current,
        find_captured(cache, y) is Some,
        v.contains(x),
    ensures
        resolve_ast(s1, cache, v, e) == resolve_ast(s2, cache, v, e),
        resolve_ast(s1, cache, v, e).0 == cache,
{
    match e {
        Ast::EqFilter(pos, l, m, r) => {
            lemma_ternary_with_other_captured(s1, s2, cache, v, x, ex, y, ey, *l, *m, *r);
            assert(resolve_operation(s1, cache, v, pos, *l, *m, *r, true) == resolve_operation(
                s2,
                cache,
                v,
                pos,
                *l,
                *m,
                *r,
                true,
            ));
        },
        Ast::Replace(pos, l, m, r) => {
            lemma_ternary_with_other_captured(s1, s2, cache, v, x, ex, y, ey, *l, *m, *r);
            assert(resolve_operation(s1, cache, v, pos, *l, *m, *r, false) == resolve_operation(
                s2,
                cache,
                v,
                pos,
                *l,
                *m,
                *r,
                false,
            ));
        },
        _ => {},
    }
}

proof fn lemma_ternary_with_other_captured(
    s1: Scope,
    s2: Scope,
    cache: CacheModel,
    v: Seq<Seq<char>>,
    x: Seq<char>,
    ex: EntryModel,
    y: Seq<char>,
    ey: EntryModel,
    l: Ast,
    m: Ast,
    r: Ast,
)
    requires
        x != y,
        holds_two(s1, x, ex, y, ey),
        holds_two(s2, x, ex, y, ey),
        s1.current == s2.current,
        find_captured(cache, y) is Some,
        v.contains(x),
    ensures
        resolve_ternary(s1, cache, v, l, m, r) == resolve_ternary(s2, cache, v, l, m, r),
        resolve_ternary(s1, cache, v, l, m, r).0 == cache,
{
    if !l.is_current_state() {
        match compose(l) {
            Ok(path) => match path.capture_entry_name {
                Some(name) => {
                    lemma_entry_with_other_captured(s1, s2, cache, v, x, ex, y, ey, name);
                },
                None => {},
            },
            Err(_) => {},
        }
    }
    assert(resolve_input_source(s1, cache, v, l) == resolve_input_source(s2, cache, v, l));
    assert(resolve_input_source(s1, cache, v, l).0 == cache);
    match compose(r) {
        Ok(path) => match path.capture_entry_name {
            Some(name) => {
                lemma_entry_with_other_captured(s1, s2, cache, v, x, ex, y, ey, name);
            },
            None => {},
        },
        Err(_) => {},
    }
    assert(resolve_capture_entry_path(s1, cache, v, r) == resolve_capture_entry_path(
        s2,
        cache,
        v,
        r,
    ));
    assert(resolve_capture_entry_path(s1, cache, v, r).0 == cache);
}

/// A name with a captured state is resolved to that state, and nothing
/// more is captured.
proof fn lemma_captured_entry(s: Scope, cache: CacheModel, v: Seq<Seq<char>>, n: Seq<char>)
    requires
        find_captured(cache, n) is Some,
    ensures
        resolve_entry(s, cache, v, n).0 == cache,
        resolve_entry(s, cache, v, n).1 is Ok,
{
}

/// The order of two entries of which the one, `y`, has a captured state to
/// begin with: the other is resolved alike before it and after it.
proof fn lemma_order_with_one_captured(
    x: Seq<char>,
    ex: EntryModel,
    y: Seq<char>,
    ey: EntryModel,
    current: Fields,
    cache: CacheModel,
)
    requires
        x != y,
        find_captured(cache, y) is Some,
    ensures
        resolve(seq![(x, ex), (y, ey)], current, cache) == resolve(
            seq![(y, ey), (x, ex)],
            current,
            cache,
        ),
{
    let s1 = scope_of((x, ex), (y, ey), current);
    let s2 = scope_of((y, ey), (x, ex), current);
    let none = Seq::<Seq<char>>::empty();
    lemma_scope_holds_two(x, ex, y, ey, current);
    lemma_resolve_two((x, ex), (y, ey), current, cache);
    lemma_resolve_two((y, ey), (x, ex), current, cache);
    lemma_captured_entry(s2, cache, none, y);
    if find_captured(cache, x) is Some {
        lemma_captured_entry(s1, cache, none, x);
        lemma_captured_entry(s1, cache, none, y);
        lemma_captured_entry(s2, cache, none, x);
    } else {
        assert(seq![x].contains(x)) by {
            assert(seq![x][0] == x);
        }
        lemma_entry_evaluated(s1, cache, x, ex);
        lemma_entry_evaluated(s2, cache, x, ex);
        lemma_evaluation_with_other_captured(s1, s2, cache, seq![x], x, ex, y, ey, ex.ast);
        match resolve_ast(s1, cache, seq![x], ex.ast).1 {
            Ok(state) => {
                lemma_find_after_put(cache, x, state);
                lemma_captured_entry(s1, with_state(cache, x, state), none, y);
            },
            Err(_) => {},
        }
    }
}

/// The order of two entries of which neither has a captured state to begin
/// with.
proof fn lemma_order_of_two_new_entries(
    a: Seq<char>,
    ea: EntryModel,
    b: Seq<char>,
    eb: EntryModel,
    current: Fields,
    cache: CacheModel,
)
    requires
        a != b,
        !refers_to(ea.ast, b),
        find_captured(cache, a) is None,
        find_captured(cache, b) is None,
    ensures
        resolve(seq![(a, ea), (b, eb)], current, cache) is Ok == resolve(
            seq![(b, eb), (a, ea)],
            current,
            cache,
        ) is Ok,
        resolve(seq![(a, ea), (b, eb)], current, cache) is Ok ==> forall|n: Seq<char>|
            captured_state(resolve(seq![(a, ea), (b, eb)], current, cache)->Ok_0, n)
                == captured_state(resolve(seq![(b, eb), (a, ea)], current, cache)->Ok_0, n),
{
    let s1 = scope_of((a, ea), (b, eb), current);
    lemma_evaluations_in_both_orders(a, ea, b, eb, current, cache);
    lemma_first_then_second(a, ea, b, eb, current, cache);
    lemma_second_then_first(a, ea, b, eb, current, cache);
    match resolve_ast(s1, cache, seq![a], ea.ast).1 {
        Ok(state_a) => {
            match resolve_ast(s1, with_state(cache, a, state_a), seq![b], eb.ast).1 {
                Ok(state_b) => {
                    assert forall|n: Seq<char>|
                        captured_state(
                            with_state(with_state(cache, a, state_a), b, state_b),
                            n,
                        ) == captured_state(
                            with_state(with_state(cache, b, state_b), a, state_a),
                            n,
                        ) by {
                        lemma_added_in_either_order(cache, a, state_a, b, state_b, n);
                    }
                },
                Err(_) => {},
            }
        },
        Err(_) => {},
    }
}

/// With both entries under way, an expression that refers to the one of
/// them that is not captured cannot be evaluated.
proof fn lemma_inner_reference_fails(
    s: Scope,
    cache: CacheModel,
    a: Seq<char>,
    ea: EntryModel,
    b: Seq<char>,
    eb: EntryModel,
    e: Ast,
)
    requires
        a != b,
        holds_two(s, a, ea, b, eb),
        find_captured(cache, a) is None,
        refers_to(e, a),
    ensures
        resolve_ast(s, cache, seq![a, b], e).1 is Err,
{
    let v = seq![a, b];
    assert(v.contains(a)) by {
        assert(v[0] == a);
    }
    match e {
        Ast::EqFilter(pos, l, m, r) => {
            lemma_inner_ternary_fails(s, cache, a, ea, b, eb, *l, *m, *r);
            assert(resolve_operation(s, cache, v, pos, *l, *m, *r, true).1 is Err);
        },
        Ast::Replace(pos, l, m, r) => {
            lemma_inner_ternary_fails(s, cache, a, ea, b, eb, *l, *m, *r);
            assert(resolve_operation(s, cache, v, pos, *l, *m, *r, false).1 is Err);
        },
        _ => {},
    }
}

proof fn lemma_inner_ternary_fails(
    s: Scope,
    cache: CacheModel,
    a: Seq<char>,
    ea: EntryModel,
    b: Seq<char>,
    eb: EntryModel,
    l: Ast,
    m: Ast,
    r: Ast,
)
    requires
        a != b,
        holds_two(s, a, ea, b, eb),
        find_captured(cache, a) is None,
        (!l.is_current_state() && names_entry(l, a)) || (r is Path && names_entry(r, a)),
    ensures
        resolve_ternary(s, cache, seq![a, b], l, m, r).1 is Err,
{
    let v = seq![a, b];
    assert(v.contains(a)) by {
        assert(v[0] == a);
    }
    assert(resolve_entry(s, cache, v, a).1 is Err);
    // With two entries under way no expression is evaluated: what is
    // captured stays as it is.
    let source = resolve_input_source(s, cache, v, l);
    if !l.is_current_state() {
        match compose(l) {
            Ok(path) => match path.capture_entry_name {
                Some(name) => {
                    assert(resolve_entry(s, cache, v, name).0 == cache);
                },
                None => {},
            },
            Err(_) => {},
        }
    }
    assert(source.0 == cache);
}

/// With `a` under way, an expression that refers to `b` cannot be
/// evaluated when the expression of `b` refers back to `a` and neither
/// name is captured.
proof fn lemma_outer_reference_fails(
    s: Scope,
    cache: CacheModel,
    a: Seq<char>,
    ea: EntryModel,
    b: Seq<char>,
    eb: EntryModel,
    e: Ast,
)
    requires
        a != b,
        holds_two(s, a, ea, b, eb),
        find_captured(cache, a) is None,
        find_captured(cache, b) is None,
        refers_to(e, b),
        refers_to(eb.ast, a),
    ensures
        resolve_ast(s, cache, seq![a], e).1 is Err,
{
    let v = seq![a];
    match e {
        Ast::EqFilter(pos, l, m, r) => {
            lemma_outer_ternary_fails(s, cache, a, ea, b, eb, *l, *m, *r);
            assert(resolve_operation(s, cache, v, pos, *l, *m, *r, true).1 is Err);
        },
        Ast::Replace(pos, l, m, r) => {
            lemma_outer_ternary_fails(s, cache, a, ea, b, eb, *l, *m, *r);
            assert(resolve_operation(s, cache, v, pos, *l, *m, *r, false).1 is Err);
        },
        _ => {},
    }
}

/// With `a` under way, `b` cannot be resolved when its expression refers
/// back to `a` and neither name is captured.
proof fn lemma_referred_entry_fails(
    s: Scope,
    cache: CacheModel,
    a: Seq<char>,
    ea: EntryModel,
    b: Seq<char>,
    eb: EntryModel,
)
    requires
        a != b,
        holds_two(s, a, ea, b, eb),
        find_captured(cache, a) is None,
        find_captured(cache, b) is None,
        refers_to(eb.ast, a),
    ensures
        resolve_entry(s, cache, seq![a], b).1 is Err,
{
    let v = seq![a];
    assert(!v.contains(b));
    assert(v.push(b) =~= seq![a, b]);
    lemma_inner_reference_fails(s, cache, a, ea, b, eb, eb.ast);
}

proof fn lemma_outer_source_fails(
    s: Scope,
    cache: CacheModel,
    a: Seq<char>,
    ea: EntryModel,
    b: Seq<char>,
    eb: EntryModel,
    l: Ast,
)
    requires
        a != b,
        holds_two(s, a, ea, b, eb),
        find_captured(cache, a) is None,
        find_captured(cache, b) is None,
        !l.is_current_state() && names_entry(l, b),
        refers_to(eb.ast, a),
    ensures
        resolve_input_source(s, cache, seq![a], l).1 is Err,
{
    lemma_referred_entry_fails(s, cache, a, ea, b, eb);
}

proof fn lemma_outer_value_fails(
    s: Scope,
    cache: CacheModel,
    a: Seq<char>,
    ea: EntryModel,
    b: Seq<char>,
    eb: EntryModel,
    r: Ast,
)
    requires
        a != b,
        holds_two(s, a, ea, b, eb),
        find_captured(cache, a) is None,
        find_captured(cache, b) is None,
        names_entry(r, b),
        refers_to(eb.ast, a),
    ensures
        resolve_capture_entry_path(s, cache, seq![a], r).1 is Err,
{
    lemma_referred_entry_fails(s, cache, a, ea, b, eb);
}

proof fn lemma_outer_ternary_fails(
    s: Scope,
    cache: CacheModel,
    a: Seq<char>,
    ea: EntryModel,
    b: Seq<char>,
    eb: EntryModel,
    l: Ast,
    m: Ast,
    r: Ast,
)
    requires
        a != b,
        holds_two(s, a, ea, b, eb),
        find_captured(cache, a) is None,
        find_captured(cache, b) is None,
        (!l.is_current_state() && names_entry(l, b)) || (r is Path && names_entry(r, b)),
        refers_to(eb.ast, a),
    ensures
        resolve_ternary(s, cache, seq![a], l, m, r).1 is Err,
{
    let v = seq![a];
    if !l.is_current_state() && names_entry(l, b) {
        lemma_outer_source_fails(s, cache, a, ea, b, eb, l);
    } else {
        assert(v.contains(a)) by {
            assert(v[0] == a);
        }
        lemma_same_input_source(s, None, v, s, None, v, cache, s.current, a, ea, b, eb, l);
        assert(resolve_input_source(s, cache, v, l).0 == cache);
        lemma_outer_value_fails(s, cache, a, ea, b, eb, r);
    }
}

/// Two entries that refer to each other, neither with a captured state,
/// cannot be resolved.
proof fn lemma_cycle_of_two_fails(
    a: Seq<char>,
    ea: EntryModel,
    b: Seq<char>,
    eb: EntryModel,
    current: Fields,
    cache: CacheModel,
)
    requires
        a != b,
        find_captured(cache, a) is None,
        find_captured(cache, b) is None,
        refers_to(ea.ast, b),
        refers_to(eb.ast, a),
    ensures
        resolve(seq![(a, ea), (b, eb)], current, cache) is Err,
{
    let s = scope_of((a, ea), (b, eb), current);
    lemma_scope_holds_two(a, ea, b, eb, current);
    lemma_resolve_two((a, ea), (b, eb), current, cache);
    lemma_entry_evaluated(s, cache, a, ea);
    lemma_outer_reference_fails(s, cache, a, ea, b, eb, ea.ast);
}

/// Two capture entries are resolved to the same states in either order,
/// whether the one refers to the other or not: both orders succeed or both
/// fail, and when they succeed every name has the same captured state
/// after the one as after the other.
pub proof fn lemma_order_of_two_entries(
    a: Seq<char>,
    ea: EntryModel,
    b: Seq<char>,
    eb: EntryModel,
    current: Fields,
    cache: CacheModel,
)
    requires
        a != b,
    ensures
        resolve(seq![(a, ea), (b, eb)], current, cache) is Ok == resolve(
            seq![(b, eb), (a, ea)],
            current,
            cache,
        ) is Ok,
        resolve(seq![(a, ea), (b, eb)], current, cache) is Ok ==> forall|n: Seq<char>|
            captured_state(resolve(seq![(a, ea), (b, eb)], current, cache)->Ok_0, n)
                == captured_state(resolve(seq![(b, eb), (a, ea)], current, cache)->Ok_0, n),
{
    if find_captured(cache, b) is Some {
        lemma_order_with_one_captured(a, ea, b, eb, current, cache);
    } else if find_captured(cache, a) is Some {
        lemma_order_with_one_captured(b, eb, a, ea, current, cache);
    } else if !refers_to(ea.ast, b) {
        lemma_order_of_two_new_entries(a, ea, b, eb, current, cache);
    } else if !refers_to(eb.ast, a) {
        lemma_order_of_two_new_entries(b, eb, a, ea, current, cache);
    } else {
        lemma_cycle_of_two_fails(a, ea, b, eb, current, cache);
        lemma_cycle_of_two_fails(b, eb, a, ea, current, cache);
    }
}

} // verus!
