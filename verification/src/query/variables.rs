//! Name/value maps: query variables given by the user and the values that a
//! match captures.
use vstd::prelude::*;
use crate::text::{chars_eq, chars_of};

verus! {

/// Name/value pairs, each name at most once, in the order they were added.
pub struct StringMap {
    entries: Vec<(String, String)>,
}

/// Variables that a query refers to as `$name` or `${name}`.
pub type QueryVariables = StringMap;

/// Values that the capture variables of a query took in one match.
pub type MatchCaptures = StringMap;

pub open spec fn entry_view(e: (String, String)) -> (Seq<char>, Seq<char>) {
    (e.0@, e.1@)
}

pub open spec fn names_distinct(v: Seq<(Seq<char>, Seq<char>)>) -> bool {
    forall|i: int, j: int| 0 <= i < j < v.len() ==> v[i].0 != v[j].0
}

/// The value of `name` in `v`, looking from position `i` on.
pub open spec fn lookup_from(v: Seq<(Seq<char>, Seq<char>)>, name: Seq<char>, i: int) -> Option<
    Seq<char>,
>
    decreases v.len() - i,
{
    if i < 0 || i >= v.len() {
        None
    } else if v[i].0 == name {
        Some(v[i].1)
    } else {
        lookup_from(v, name, i + 1)
    }
}

/// The value of `name` in `v`.
pub open spec fn lookup(v: Seq<(Seq<char>, Seq<char>)>, name: Seq<char>) -> Option<Seq<char>> {
    lookup_from(v, name, 0)
}

/// The value of the last pair named `name`, if any.
pub open spec fn last_value(pairs: Seq<(Seq<char>, Seq<char>)>, name: Seq<char>) -> Option<Seq<char>>
    decreases pairs.len(),
{
    if pairs.len() == 0 {
        None
    } else if pairs.last().0 == name {
        Some(pairs.last().1)
    } else {
        last_value(pairs.drop_last(), name)
    }
}

/// `name` with `value`: replaced in place where `name` is present, added at the end otherwise.
pub open spec fn spec_insert(v: Seq<(Seq<char>, Seq<char>)>, name: Seq<char>, value: Seq<char>) -> Seq<
    (Seq<char>, Seq<char>),
> {
    if exists|i: int| 0 <= i < v.len() && v[i].0 == name {
        let i = choose|i: int| 0 <= i < v.len() && v[i].0 == name;
        v.update(i, (name, value))
    } else {
        v.push((name, value))
    }
}

pub proof fn lemma_lookup_absent(v: Seq<(Seq<char>, Seq<char>)>, name: Seq<char>, i: int)
    requires
        0 <= i,
        forall|j: int| i <= j < v.len() ==> v[j].0 != name,
    ensures
        lookup_from(v, name, i) is None,
    decreases v.len() - i,
{
    if i < v.len() {
        lemma_lookup_absent(v, name, i + 1);
    }
}

pub proof fn lemma_lookup_present(v: Seq<(Seq<char>, Seq<char>)>, name: Seq<char>, k: int, i: int)
    requires
        0 <= i <= k < v.len(),
        v[k].0 == name,
        forall|j: int| i <= j < k ==> v[j].0 != name,
    ensures
        lookup_from(v, name, i) == Some(v[k].1),
    decreases k - i,
{
    if i < k {
        lemma_lookup_present(v, name, k, i + 1);
    }
}

/// Where names are distinct, `lookup` finds the value at the name's only position.
pub proof fn lemma_lookup_distinct(v: Seq<(Seq<char>, Seq<char>)>, name: Seq<char>, k: int)
    requires
        names_distinct(v),
        0 <= k < v.len(),
        v[k].0 == name,
    ensures
        lookup(v, name) == Some(v[k].1),
{
    lemma_lookup_present(v, name, k, 0);
}

/// A read gives back what an insert wrote, and leaves the other names alone.
pub proof fn lemma_lookup_insert(
    v: Seq<(Seq<char>, Seq<char>)>,
    name: Seq<char>,
    value: Seq<char>,
    other: Seq<char>,
)
    requires
        names_distinct(v),
    ensures
        names_distinct(spec_insert(v, name, value)),
        lookup(spec_insert(v, name, value), name) == Some(value),
        other != name ==> lookup(spec_insert(v, name, value), other) == lookup(v, other),
{
    let w = spec_insert(v, name, value);
    if exists|i: int| 0 <= i < v.len() && v[i].0 == name {
        let i = choose|i: int| 0 <= i < v.len() && v[i].0 == name;
        assert(w == v.update(i, (name, value)));
        lemma_lookup_distinct(w, name, i);
        if other != name {
            if exists|j: int| 0 <= j < v.len() && v[j].0 == other {
                let j = choose|j: int| 0 <= j < v.len() && v[j].0 == other;
                lemma_lookup_distinct(w, other, j);
                lemma_lookup_distinct(v, other, j);
            } else {
                lemma_lookup_absent(w, other, 0);
                lemma_lookup_absent(v, other, 0);
            }
        }
    } else {
        assert(w == v.push((name, value)));
        lemma_lookup_distinct(w, name, v.len() as int);
        if other != name {
            if exists|j: int| 0 <= j < v.len() && v[j].0 == other {
                let j = choose|j: int| 0 <= j < v.len() && v[j].0 == other;
                lemma_lookup_distinct(w, other, j);
                lemma_lookup_distinct(v, other, j);
            } else {
                lemma_lookup_absent(w, other, 0);
                lemma_lookup_absent(v, other, 0);
            }
        }
    }
}

impl View for StringMap {
    type V = Seq<(Seq<char>, Seq<char>)>;

    closed spec fn view(&self) -> Self::V {
        self.entries@.map_values(|e: (String, String)| entry_view(e))
    }
}

impl StringMap {
    #[verifier::type_invariant]
    pub open spec fn distinct(self) -> bool {
        names_distinct(self@)
    }

    pub fn new() -> (r: Self)
        ensures
            r@ == Seq::<(Seq<char>, Seq<char>)>::empty(),
    {
        let r = StringMap { entries: Vec::new() };
        assert(r@ =~= Seq::<(Seq<char>, Seq<char>)>::empty());
        r
    }

    pub fn len(&self) -> (r: usize)
        ensures
            r == self@.len(),
    {
        self.entries.len()
    }

    /// The name and value at position `i`.
    pub fn entry(&self, i: usize) -> (r: (&String, &String))
        requires
            i < self@.len(),
        ensures
            r.0@ == self@[i as int].0,
            r.1@ == self@[i as int].1,
    {
        let e = &self.entries[i];
        (&e.0, &e.1)
    }

    /// The position of `name`.
    pub fn position(&self, name: &[char]) -> (r: Option<usize>)
        ensures
            r matches Some(i) ==> i < self@.len() && self@[i as int].0 == name@,
            r is None ==> forall|j: int| 0 <= j < self@.len() ==> self@[j].0 != name@,
    {
        let mut i: usize = 0;
        while i < self.entries.len()
            invariant
                i <= self@.len(),
                self@.len() == self.entries@.len(),
                forall|j: int| 0 <= j < i ==> self@[j].0 != name@,
            decreases self@.len() - i,
        {
            let key = chars_of(self.entries[i].0.as_str());
            if chars_eq(&key, name) {
                return Some(i);
            }
            i = i + 1;
        }
        None
    }

    /// The value of `name`.
    pub fn get(&self, name: &[char]) -> (r: Option<&String>)
        ensures
            r matches Some(v) ==> lookup(self@, name@) == Some(v@),
            r is None ==> lookup(self@, name@) is None,
    {
        proof {
            use_type_invariant(self);
        }
        match self.position(name) {
            Some(i) => {
                proof {
                    lemma_lookup_distinct(self@, name@, i as int);
                }
                Some(&self.entries[i].1)
            },
            None => {
                proof {
                    lemma_lookup_absent(self@, name@, 0);
                }
                None
            },
        }
    }

    /// Sets `name` to `value` and gives back the value it replaced, as `BTreeMap::insert` does.
    pub fn insert(&mut self, name: String, value: String) -> (r: Option<String>)
        ensures
            final(self)@ == spec_insert(old(self)@, name@, value@),
            r matches Some(v) ==> lookup(old(self)@, name@) == Some(v@),
            r is None ==> lookup(old(self)@, name@) is None,
    {
        proof {
            use_type_invariant(&*self);
            lemma_lookup_insert(self@, name@, value@, name@);
        }
        let key = chars_of(name.as_str());
        match self.position(&key) {
            Some(i) => {
                proof {
                    lemma_lookup_distinct(self@, name@, i as int);
                }
                let ghost v0 = self@;
                let previous = self.entries[i].1.clone();
                let mut entries: Vec<(String, String)> = Vec::new();
                std::mem::swap(&mut entries, &mut self.entries);
                entries.set(i, (name, value));
                proof {
                    let j = choose|j: int| 0 <= j < v0.len() && v0[j].0 == name@;
                    assert(j == i);
                    assert(entries@.map_values(|e: (String, String)| entry_view(e)) =~= v0.update(
                        i as int,
                        (name@, value@),
                    ));
                }
                self.entries = entries;
                Some(previous)
            },
            None => {
                proof {
                    lemma_lookup_absent(self@, name@, 0);
                }
                let ghost v0 = self@;
                let mut entries: Vec<(String, String)> = Vec::new();
                std::mem::swap(&mut entries, &mut self.entries);
                entries.push((name, value));
                assert(entries@.map_values(|e: (String, String)| entry_view(e)) =~= v0.push(
                    (name@, value@),
                ));
                self.entries = entries;
                None
            },
        }
    }

    /// A copy of the map.
    pub fn duplicate(&self) -> (r: Self)
        ensures
            r@ == self@,
    {
        let mut entries: Vec<(String, String)> = Vec::new();
        let mut i: usize = 0;
        while i < self.entries.len()
            invariant
                i <= self.entries@.len(),
                entries@.len() == i,
                forall|j: int| 0 <= j < i ==> entry_view(#[trigger] entries@[j]) == entry_view(self.entries@[j]),
            decreases self.entries@.len() - i,
        {
            let e = &self.entries[i];
            entries.push((e.0.clone(), e.1.clone()));
            i = i + 1;
        }
        proof {
            use_type_invariant(self);
            assert(entries@.map_values(|e: (String, String)| entry_view(e)) =~= self@);
        }
        StringMap { entries }
    }

    /// A map from the given pairs; a later pair replaces an earlier one of the same name.
    pub fn from_pairs(pairs: Vec<(String, String)>) -> (r: Self)
        ensures
            forall|name: Seq<char>|
                #[trigger] lookup(r@, name) == last_value(pairs@.map_values(|e: (String, String)| entry_view(e)), name),
    {
        let ghost pv = pairs@.map_values(|e: (String, String)| entry_view(e));
        let mut r = StringMap::new();
        let mut i: usize = 0;
        proof {
            assert(pv.subrange(0, 0) =~= Seq::<(Seq<char>, Seq<char>)>::empty());
            assert forall|name: Seq<char>| #[trigger] lookup(r@, name) == last_value(pv.subrange(0, 0), name) by {
                lemma_lookup_absent(r@, name, 0);
            }
        }
        while i < pairs.len()
            invariant
                i <= pairs@.len(),
                pv == pairs@.map_values(|e: (String, String)| entry_view(e)),
                forall|name: Seq<char>| #[trigger] lookup(r@, name) == last_value(pv.subrange(0, i as int), name),
            decreases pairs@.len() - i,
        {
            let ghost before = r@;
            let ghost key = pairs@[i as int].0@;
            let ghost value = pairs@[i as int].1@;
            proof {
                use_type_invariant(&r);
            }
            r.insert(pairs[i].0.clone(), pairs[i].1.clone());
            proof {
                let next = pv.subrange(0, i + 1);
                assert(next.drop_last() =~= pv.subrange(0, i as int));
                assert(next.last() == (key, value));
                assert forall|name: Seq<char>| #[trigger] lookup(r@, name) == last_value(next, name) by {
                    lemma_lookup_insert(before, key, value, name);
                }
            }
            i = i + 1;
        }
        assert(pv.subrange(0, pairs@.len() as int) =~= pv);
        r
    }
}

} // verus!
