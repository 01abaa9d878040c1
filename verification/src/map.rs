//! A string-keyed table of strings, used for shell variables and for
//! the registered completion programs.

use vstd::prelude::*;
use vstd::hash_map::StringHashMap;

verus! {

/// A finite map from names to string values.
pub struct StringMap {
    m: StringHashMap<String>,
}

impl View for StringMap {
    type V = Map<Seq<char>, Seq<char>>;

    closed spec fn view(&self) -> Map<Seq<char>, Seq<char>> {
        self.m@.map_values(|v: String| v@)
    }
}

/// The value bound to `k`, or the empty string when `k` is unbound.
pub open spec fn lookup_or_empty(m: Map<Seq<char>, Seq<char>>, k: Seq<char>) -> Seq<char> {
    if m.contains_key(k) {
        m[k]
    } else {
        Seq::empty()
    }
}

impl StringMap {
    /// An empty table.
    pub fn new() -> (r: StringMap)
        ensures
            r@ == Map::<Seq<char>, Seq<char>>::empty(),
    {
        let r = StringMap { m: StringHashMap::new() };
        assert(r@ =~= Map::<Seq<char>, Seq<char>>::empty());
        r
    }

    /// Binds `k` to `v`, replacing any earlier binding of `k`.
    pub fn insert(&mut self, k: String, v: String)
        ensures
            final(self)@ == old(self)@.insert(k@, v@),
    {
        self.m.insert(k, v);
        assert(self@ =~= old(self)@.insert(k@, v@));
    }

    /// Removes the binding of `k`, if any.
    pub fn remove(&mut self, k: &str)
        ensures
            final(self)@ == old(self)@.remove(k@),
    {
        self.m.remove(k);
        assert(self@ =~= old(self)@.remove(k@));
    }

    /// The value bound to `k`.
    pub fn get(&self, k: &str) -> (r: Option<&String>)
        ensures
            match r {
                Some(v) => self@.contains_key(k@) && v@ == self@[k@],
                None => !self@.contains_key(k@),
            },
    {
        self.m.get(k)
    }

    /// Whether `k` is bound.
    pub fn contains_key(&self, k: &str) -> (r: bool)
        ensures
            r == self@.contains_key(k@),
    {
        self.m.contains_key(k)
    }

    /// The value bound to `k`, or the empty string.
    pub fn get_or_empty(&self, k: &str) -> (r: String)
        ensures
            r@ == lookup_or_empty(self@, k@),
    {
        match self.m.get(k) {
            Some(v) => v.clone(),
            None => String::new(),
        }
    }
}

} // verus!
