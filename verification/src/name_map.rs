//! A map keyed by names.
use vstd::prelude::*;
use crate::text;

verus! {

/// A map from names to values. Its mathematical content is a `Map` keyed by the names'
/// characters.
#[derive(Debug, Clone, Default)]
pub struct NameMap<V> {
    entries: Vec<(String, V)>,
}

/// The first entry from `from` on with a given name.
spec fn first_entry<V>(entries: Seq<(String, V)>, name: Seq<char>, from: int) -> Option<int>
    decreases entries.len() - from,
{
    if from < 0 || from >= entries.len() {
        None
    } else if entries[from].0@ == name {
        Some(from)
    } else {
        first_entry(entries, name, from + 1)
    }
}

proof fn first_entry_found<V>(entries: Seq<(String, V)>, name: Seq<char>, from: int)
    requires
        0 <= from,
    ensures
        match first_entry(entries, name, from) {
            Some(i) => from <= i < entries.len() && entries[i].0@ == name && forall|j: int|
                from <= j < i ==> (#[trigger] entries[j]).0@ != name,
            None => forall|j: int| from <= j < entries.len() ==> (#[trigger] entries[j]).0@ != name,
        },
    decreases entries.len() - from,
{
    if from < entries.len() && entries[from].0@ != name {
        first_entry_found(entries, name, from + 1);
    }
}

proof fn first_entry_is<V>(entries: Seq<(String, V)>, name: Seq<char>, i: int)
    requires
        0 <= i < entries.len(),
        entries[i].0@ == name,
        forall|j: int| 0 <= j < i ==> (#[trigger] entries[j]).0@ != name,
    ensures
        first_entry(entries, name, 0) == Some(i),
{
    first_entry_found(entries, name, 0);
    match first_entry(entries, name, 0) {
        Some(k) => {
            if k < i {
                assert(entries[k].0@ != name);
            } else if k > i {
                assert(entries[i].0@ != name);
            }
        },
        None => {
            assert(entries[i].0@ != name);
        },
    }
}

impl<V> View for NameMap<V> {
    type V = Map<Seq<char>, V>;

    closed spec fn view(&self) -> Map<Seq<char>, V> {
        Map::new(
            |name: Seq<char>| first_entry(self.entries@, name, 0) is Some,
            |name: Seq<char>| self.entries@[first_entry(self.entries@, name, 0)->0].1,
        )
    }
}

impl<V> NameMap<V> {
    /// The empty map.
    pub fn new() -> (r: Self)
        ensures
            r@ == Map::<Seq<char>, V>::empty(),
    {
        let r = NameMap { entries: Vec::new() };
        assert(r@ =~= Map::<Seq<char>, V>::empty());
        r
    }

    /// A map holds finitely many names.
    pub proof fn finite(&self)
        ensures
            self@.dom().finite(),
    {
        let keys = Seq::new(self.entries@.len(), |i: int| self.entries@[i].0@);
        vstd::seq_lib::seq_to_set_is_finite(keys);
        assert forall|name: Seq<char>| self@.dom().contains(name) implies keys.to_set().contains(
            name,
        ) by {
            first_entry_found(self.entries@, name, 0);
            let i = first_entry(self.entries@, name, 0)->0;
            assert(keys[i] == name);
        }
        assert(self@.dom().subset_of(keys.to_set()));
        vstd::set_lib::lemma_set_subset_finite(keys.to_set(), self@.dom());
    }

    fn position(&self, name: &str) -> (r: Option<usize>)
        ensures
            match r {
                Some(i) => first_entry(self.entries@, name@, 0) == Some(i as int),
                None => first_entry(self.entries@, name@, 0) is None,
            },
    {
        for i in 0..self.entries.len()
            invariant
                forall|j: int| 0 <= j < i ==> (#[trigger] self.entries@[j]).0@ != name@,
        {
            if text::same(self.entries[i].0.as_str(), name) {
                proof {
                    first_entry_is(self.entries@, name@, i as int);
                }
                return Some(i);
            }
        }
        proof {
            first_entry_found(self.entries@, name@, 0);
        }
        None
    }

    /// The value under a name.
    pub fn get(&self, name: &str) -> (r: Option<&V>)
        ensures
            match r {
                Some(v) => self@.contains_key(name@) && *v == self@[name@],
                None => !self@.contains_key(name@),
            },
    {
        match self.position(name) {
            Some(i) => {
                proof {
                    first_entry_found(self.entries@, name@, 0);
                }
                Some(&self.entries[i].1)
            },
            None => None,
        }
    }

    /// Whether a name has a value.
    pub fn contains_key(&self, name: &str) -> (r: bool)
        ensures
            r == self@.contains_key(name@),
    {
        self.position(name).is_some()
    }

    /// Puts a value under a name, in place of the value that it had.
    pub fn insert(&mut self, name: String, value: V)
        ensures
            final(self)@ == old(self)@.insert(name@, value),
    {
        let ghost before = self.entries@;
        let ghost map = self@;
        match self.position(name.as_str()) {
            Some(i) => {
                proof {
                    first_entry_found(before, name@, 0);
                }
                self.entries[i] = (name, value);
            },
            None => {
                proof {
                    first_entry_found(before, name@, 0);
                }
                self.entries.push((name, value));
            },
        }
        proof {
            let after = self.entries@;
            assert forall|k: Seq<char>|
                first_entry(after, k, 0) is Some <==> (k == name@ || first_entry(before, k, 0)
                    is Some) by {
                first_entry_found(before, k, 0);
                first_entry_found(after, k, 0);
                same_names(before, after, name@, k);
            }
            assert forall|k: Seq<char>|
                k != name@ && first_entry(before, k, 0) is Some implies after[first_entry(
                after,
                k,
                0,
            )->0].1 == before[first_entry(before, k, 0)->0].1 by {
                first_entry_found(before, k, 0);
                same_names(before, after, name@, k);
            }
            first_entry_found(after, name@, 0);
            same_names(before, after, name@, name@);
            assert(self@ =~= map.insert(name@, value));
        }
    }
}

/// Overwriting one entry under its own name, or appending one, changes no other lookup.
proof fn same_names<V>(
    before: Seq<(String, V)>,
    after: Seq<(String, V)>,
    name: Seq<char>,
    k: Seq<char>,
)
    requires
        before.len() <= after.len() <= before.len() + 1,
        forall|j: int| 0 <= j < before.len() ==> (#[trigger] after[j]).0@ == before[j].0@,
        forall|j: int|
            0 <= j < before.len() && before[j].0@ != name ==> #[trigger] after[j] == before[j],
        after.len() > before.len() ==> after[before.len() as int].0@ == name && first_entry(
            before,
            name,
            0,
        ) is None,
        after.len() == before.len() ==> first_entry(before, name, 0) is Some,
    ensures
        first_entry(before, k, 0) is Some ==> first_entry(after, k, 0) == first_entry(before, k, 0),
        first_entry(before, k, 0) is None ==> first_entry(after, k, 0) == (if k == name {
            Some(before.len() as int)
        } else {
            None
        }),
{
    first_entry_found(before, k, 0);
    first_entry_found(after, k, 0);
    match first_entry(before, k, 0) {
        Some(i) => {
            first_entry_is(after, k, i);
        },
        None => {
            if k == name {
                first_entry_is(after, k, before.len() as int);
            }
        },
    }
}

} // verus!
