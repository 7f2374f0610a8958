//! Identifiers of points, and maps keyed by them.

use std::collections::HashMap;

use vstd::hash_map::StringHashMap;
use vstd::prelude::*;
use vstd::std_specs::convert::FromSpecImpl;

verus! {

/// The identifier of a point, chosen by the user: a number or a string.
#[derive(Debug, PartialEq, Eq, Hash)]
pub enum ExternalId {
    /// A number.
    Num(i64),
    /// A string.
    Str(String),
}

/// What an identifier is, apart from how it is stored.
pub enum IdView {
    /// A number.
    Num(i64),
    /// A string.
    Str(Seq<char>),
}

impl View for ExternalId {
    type V = IdView;

    open spec fn view(&self) -> IdView {
        match self {
            ExternalId::Num(n) => IdView::Num(*n),
            ExternalId::Str(s) => IdView::Str(s@),
        }
    }
}

impl Clone for ExternalId {
    fn clone(&self) -> (r: Self)
        ensures
            r@ == self@,
    {
        match self {
            ExternalId::Num(n) => ExternalId::Num(*n),
            ExternalId::Str(s) => ExternalId::Str(s.clone()),
        }
    }
}

impl ExternalId {
    /// The number, if the identifier is one.
    pub fn as_num(&self) -> (r: Option<i64>)
        ensures
            r == (match self@ {
                IdView::Num(n) => Some(n),
                IdView::Str(_) => None,
            }),
    {
        match self {
            ExternalId::Num(n) => Some(*n),
            ExternalId::Str(_) => None,
        }
    }

    /// The string, if the identifier is one.
    pub fn as_str(&self) -> (r: Option<&str>)
        ensures
            match self@ {
                IdView::Num(_) => r is None,
                IdView::Str(s) => r is Some && r->0@ == s,
            },
    {
        match self {
            ExternalId::Num(_) => None,
            ExternalId::Str(s) => Some(s.as_str()),
        }
    }

    /// Whether two identifiers are the same.
    pub fn same(&self, other: &ExternalId) -> (r: bool)
        ensures
            r == (self@ == other@),
    {
        match (self, other) {
            (ExternalId::Num(a), ExternalId::Num(b)) => *a == *b,
            (ExternalId::Str(a), ExternalId::Str(b)) => *a == *b,
            _ => false,
        }
    }
}

impl From<i64> for ExternalId {
    fn from(v: i64) -> (r: Self) {
        ExternalId::Num(v)
    }
}

impl FromSpecImpl<i64> for ExternalId {
    open spec fn obeys_from_spec() -> bool {
        true
    }

    open spec fn from_spec(v: i64) -> Self {
        ExternalId::Num(v)
    }
}

impl From<u64> for ExternalId {
    fn from(v: u64) -> (r: Self) {
        ExternalId::Num(
            #[verifier::truncate]
            (v as i64),
        )
    }
}

impl FromSpecImpl<u64> for ExternalId {
    open spec fn obeys_from_spec() -> bool {
        true
    }

    open spec fn from_spec(v: u64) -> Self {
        ExternalId::Num(v as i64)
    }
}

impl From<i32> for ExternalId {
    fn from(v: i32) -> (r: Self) {
        ExternalId::Num(v as i64)
    }
}

impl FromSpecImpl<i32> for ExternalId {
    open spec fn obeys_from_spec() -> bool {
        true
    }

    open spec fn from_spec(v: i32) -> Self {
        ExternalId::Num(v as i64)
    }
}

impl From<u32> for ExternalId {
    fn from(v: u32) -> (r: Self) {
        ExternalId::Num(v as i64)
    }
}

impl FromSpecImpl<u32> for ExternalId {
    open spec fn obeys_from_spec() -> bool {
        true
    }

    open spec fn from_spec(v: u32) -> Self {
        ExternalId::Num(v as i64)
    }
}

impl From<String> for ExternalId {
    fn from(v: String) -> (r: Self) {
        ExternalId::Str(v)
    }
}

impl FromSpecImpl<String> for ExternalId {
    open spec fn obeys_from_spec() -> bool {
        true
    }

    open spec fn from_spec(v: String) -> Self {
        ExternalId::Str(v)
    }
}

impl<'a> From<&'a str> for ExternalId {
    fn from(v: &'a str) -> (r: Self)
        ensures
            r@ == IdView::Str(v@),
    {
        ExternalId::Str(v.to_owned())
    }
}

impl<'a> FromSpecImpl<&'a str> for ExternalId {
    open spec fn obeys_from_spec() -> bool {
        false
    }

    open spec fn from_spec(v: &'a str) -> Self {
        arbitrary()
    }
}

/// A map from identifiers to numbers.
#[verifier::reject_recursive_types(V)]
pub struct IdMap<V> {
    nums: HashMap<i64, V>,
    strs: StringHashMap<V>,
}

impl<V> View for IdMap<V> {
    type V = Map<IdView, V>;

    closed spec fn view(&self) -> Map<IdView, V> {
        Map::new(
            |id: IdView|
                match id {
                    IdView::Num(n) => self.nums@.contains_key(n),
                    IdView::Str(s) => self.strs@.contains_key(s),
                },
            |id: IdView|
                match id {
                    IdView::Num(n) => self.nums@[n],
                    IdView::Str(s) => self.strs@[s],
                },
        )
    }
}

impl<V: Copy> IdMap<V> {
    /// An empty map.
    pub fn new() -> (r: Self)
        ensures
            r@ == Map::<IdView, V>::empty(),
    {
        let r = IdMap { nums: HashMap::new(), strs: StringHashMap::new() };
        assert(r@ =~= Map::<IdView, V>::empty());
        r
    }

    /// What an identifier leads to.
    pub fn get(&self, id: &ExternalId) -> (r: Option<V>)
        ensures
            r == (if self@.contains_key(id@) {
                Some(self@[id@])
            } else {
                None
            }),
    {
        broadcast use vstd::std_specs::hash::group_hash_axioms;

        match id {
            ExternalId::Num(n) => match self.nums.get(n) {
                Some(x) => Some(*x),
                None => None,
            },
            ExternalId::Str(s) => match self.strs.get(s.as_str()) {
                Some(x) => Some(*x),
                None => None,
            },
        }
    }

    /// Lets an identifier lead to a value.
    pub fn insert(&mut self, id: &ExternalId, value: V)
        ensures
            final(self)@ == old(self)@.insert(id@, value),
    {
        broadcast use vstd::std_specs::hash::group_hash_axioms;

        match id {
            ExternalId::Num(n) => {
                self.nums.insert(*n, value);
            },
            ExternalId::Str(s) => {
                self.strs.insert(s.clone(), value);
            },
        }
        assert(self@ =~= old(self)@.insert(id@, value));
    }

    /// Forgets everything.
    pub fn clear(&mut self)
        ensures
            final(self)@ == Map::<IdView, V>::empty(),
    {
        self.nums.clear();
        self.strs.clear();
        assert(self@ =~= Map::<IdView, V>::empty());
    }
}

} // verus!
