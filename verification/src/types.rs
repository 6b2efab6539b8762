//! The documents that go in and out of the library.
use crate::capture::{Capture, CaptureModel};
use crate::state::{
    find_key, first_index, keys_of, lemma_first_index, lemma_unique_kept, only_at, unique_keys,
    Fields,
};
use vstd::prelude::*;
use vstd::string::*;

pub use crate::state::{NMState, Tree, Value};

verus! {

/// A point in time: seconds since the start of 1970 in UTC, and the
/// nanoseconds into that second.
#[derive(Debug, Clone, Copy, PartialEq, Eq, Structural)]
pub struct TimeStamp {
    pub seconds: i64,
    pub nanoseconds: u32,
}

/// What is recorded about a captured state. The library passes it through.
#[derive(Debug, PartialEq, Eq)]
pub struct MetaInfo {
    pub version: Option<String>,
    pub time_stamp: Option<TimeStamp>,
}

pub struct MetaModel {
    pub version: Option<Seq<char>>,
    pub time_stamp: Option<TimeStamp>,
}

impl View for MetaInfo {
    type V = MetaModel;

    open spec fn view(&self) -> MetaModel {
        MetaModel {
            version: match self.version {
                Some(v) => Some(v@),
                None => None,
            },
            time_stamp: self.time_stamp,
        }
    }
}

impl Clone for MetaInfo {
    fn clone(&self) -> (r: Self)
        ensures
            r@ == self@,
    {
        MetaInfo {
            version: match &self.version {
                Some(v) => Some(v.clone()),
                None => None,
            },
            time_stamp: self.time_stamp,
        }
    }
}

#[derive(Debug, PartialEq, Eq)]
pub struct CapturedState {
    pub state: NMState,
    pub meta_info: Option<MetaInfo>,
}

pub struct CapturedModel {
    pub state: Fields,
    pub meta_info: Option<MetaModel>,
}

impl View for CapturedState {
    type V = CapturedModel;

    open spec fn view(&self) -> CapturedModel {
        CapturedModel {
            state: self.state@,
            meta_info: match self.meta_info {
                Some(m) => Some(m@),
                None => None,
            },
        }
    }
}

impl Clone for CapturedState {
    fn clone(&self) -> (r: Self)
        ensures
            r@ == self@,
    {
        CapturedState {
            state: self.state.clone(),
            meta_info: match &self.meta_info {
                Some(m) => Some(m.clone()),
                None => None,
            },
        }
    }
}

/// The captured states by name, as mathematical values: the entries in
/// order; the state of a name is that of the first entry with the name.
pub type CacheModel = Seq<(Seq<char>, CapturedModel)>;

/// The names of the captured states, in order.
pub open spec fn cache_keys(cache: CacheModel) -> Seq<Seq<char>> {
    Seq::new(cache.len(), |i: int| cache[i].0)
}

/// The index of the captured state of a name.
pub open spec fn find_captured(cache: CacheModel, name: Seq<char>) -> Option<int> {
    first_index(cache_keys(cache), name)
}

/// The captured states with the state of `name` set: in the place of the
/// entry of that name, or as a new entry at the end.
pub open spec fn put_captured(cache: CacheModel, name: Seq<char>, captured: CapturedModel)
    -> CacheModel {
    match find_captured(cache, name) {
        Some(i) => cache.update(i, (name, captured)),
        None => cache.push((name, captured)),
    }
}

/// The captured states by name.
#[derive(Debug, PartialEq, Eq)]
pub struct CapturedStates {
    pub entries: Vec<(String, CapturedState)>,
}

impl View for CapturedStates {
    type V = CacheModel;

    open spec fn view(&self) -> CacheModel {
        Seq::new(self.entries@.len(), |i: int| (self.entries@[i].0@, self.entries@[i].1@))
    }
}

impl Clone for CapturedStates {
    fn clone(&self) -> (r: Self)
        ensures
            r@ == self@,
    {
        let mut out: Vec<(String, CapturedState)> = Vec::new();
        let mut i: usize = 0;
        while i < self.entries.len()
            invariant
                i <= self.entries.len(),
                out.len() == i,
                forall|j: int|
                    0 <= j < i ==> out@[j].0@ == self.entries@[j].0@ && out@[j].1@
                        == self.entries@[j].1@,
            decreases self.entries.len() - i,
        {
            out.push((self.entries[i].0.clone(), self.entries[i].1.clone()));
            i += 1;
        }
        let r = CapturedStates { entries: out };
        proof {
            assert(r@ =~= self@);
        }
        r
    }
}

impl Default for CapturedStates {
    fn default() -> (r: Self)
        ensures
            r@ == Seq::<(Seq<char>, CapturedModel)>::empty(),
    {
        CapturedStates::new()
    }
}

impl CapturedStates {
    /// No name occurs twice among the entries.
    pub open spec fn has_unique_names(&self) -> bool {
        unique_keys(cache_keys(self@))
    }

    pub fn new() -> (r: Self)
        ensures
            r@ == Seq::<(Seq<char>, CapturedModel)>::empty(),
            r.has_unique_names(),
    {
        let r = CapturedStates { entries: Vec::new() };
        proof {
            assert(r@ =~= Seq::<(Seq<char>, CapturedModel)>::empty());
        }
        r
    }

    pub fn len(&self) -> (r: usize)
        ensures
            r == self@.len(),
    {
        self.entries.len()
    }

    pub fn is_empty(&self) -> (r: bool)
        ensures
            r == (self@.len() == 0),
    {
        self.entries.len() == 0
    }

    /// The index of the captured state of a name.
    pub fn find(&self, name: &str) -> (r: Option<usize>)
        ensures
            match r {
                Some(i) => find_captured(self@, name@) == Some(i as int) && i
                    < self.entries.len() && (self.has_unique_names() ==> only_at(
                    cache_keys(self@),
                    name@,
                    i as int,
                )),
                None => find_captured(self@, name@) is None,
            },
    {
        proof {
            assert(keys_of(self.entries@) =~= cache_keys(self@));
        }
        find_key(&self.entries, name)
    }

    /// The captured state of a name.
    pub fn get(&self, name: &str) -> (r: Option<&CapturedState>)
        ensures
            match r {
                Some(captured) => find_captured(self@, name@) matches Some(i) && self@[i].1
                    == captured@ && (self.has_unique_names() ==> only_at(
                    cache_keys(self@),
                    name@,
                    i,
                )),
                None => find_captured(self@, name@) is None,
            },
    {
        match self.find(name) {
            Some(i) => Some(&self.entries[i].1),
            None => None,
        }
    }

    /// Sets the captured state of a name. Where no name occurred twice, none
    /// does after.
    pub fn insert(&mut self, name: String, captured: CapturedState)
        ensures
            final(self)@ == put_captured(old(self)@, name@, captured@),
            old(self).has_unique_names() ==> final(self).has_unique_names(),
    {
        let ghost before = self@;
        proof {
            if self.has_unique_names() {
                lemma_unique_kept(cache_keys(before), name@);
                assert(cache_keys(before.push((name@, captured@))) =~= cache_keys(before).push(
                    name@,
                ));
                if find_captured(before, name@) is Some {
                    let at = find_captured(before, name@)->0;
                    lemma_first_index(cache_keys(before), name@);
                    assert(cache_keys(before.update(at, (name@, captured@))) =~= cache_keys(
                        before,
                    ).update(at, name@));
                }
            }
        }
        match self.find(name.as_str()) {
            Some(i) => {
                self.entries[i] = (name, captured);
                proof {
                    assert(self@ =~= before.update(i as int, (name@, captured@)));
                }
            },
            None => {
                self.entries.push((name, captured));
                proof {
                    assert(self@ =~= before.push((name@, captured@)));
                }
            },
        }
    }
}

/// A policy: the capture expressions by name, and the desired state with
/// its placeholders.
#[derive(Debug, PartialEq, Eq)]
pub struct PolicySpec {
    pub capture: Capture,
    pub desired_state: NMState,
}

pub struct PolicyModel {
    pub capture: CaptureModel,
    pub desired_state: Fields,
}

impl View for PolicySpec {
    type V = PolicyModel;

    open spec fn view(&self) -> PolicyModel {
        PolicyModel { capture: self.capture@, desired_state: self.desired_state@ }
    }
}

/// What a policy generates: the captured states, and the desired state with
/// its placeholders filled in.
#[derive(Debug, PartialEq, Eq)]
pub struct GeneratedState {
    pub cache: CapturedStates,
    pub desired_state: NMState,
}

pub struct GeneratedModel {
    pub cache: CacheModel,
    pub desired_state: Fields,
}

impl View for GeneratedState {
    type V = GeneratedModel;

    open spec fn view(&self) -> GeneratedModel {
        GeneratedModel { cache: self.cache@, desired_state: self.desired_state@ }
    }
}

impl Default for GeneratedState {
    fn default() -> (r: Self)
        ensures
            r@ == (GeneratedModel { cache: Seq::empty(), desired_state: Seq::empty() }),
    {
        GeneratedState::new()
    }
}

impl Default for PolicySpec {
    fn default() -> (r: Self)
        ensures
            r@ == (PolicyModel { capture: Seq::empty(), desired_state: Seq::empty() }),
    {
        PolicySpec::new()
    }
}

impl GeneratedState {
    pub fn new() -> (r: Self)
        ensures
            r@ == (GeneratedModel { cache: Seq::empty(), desired_state: Seq::empty() }),
    {
        GeneratedState { cache: CapturedStates::new(), desired_state: NMState::new() }
    }
}

impl PolicySpec {
    pub fn new() -> (r: Self)
        ensures
            r@ == (PolicyModel { capture: Seq::empty(), desired_state: Seq::empty() }),
    {
        PolicySpec { capture: Capture::new(), desired_state: NMState::new() }
    }
}

} // verus!
