//! A map from names to values that is walked in the order of its names.

use crate::text::{place, place_of, precedes, precedes_irreflexive, precedes_total, precedes_transitive, Place};
use vstd::prelude::*;

verus! {

/// Entries in strictly ascending order of their names.
pub open spec fn ascending<V>(entries: Seq<(Seq<char>, V)>) -> bool {
    forall|i: int, j: int|
        0 <= i < j < entries.len() ==> precedes((#[trigger] entries[i]).0, (#[trigger] entries[j]).0)
}

/// The entry at `i` has the given name.
pub open spec fn named_at<V>(entries: Seq<(Seq<char>, V)>, name: Seq<char>, i: int) -> bool {
    0 <= i < entries.len() && entries[i].0 == name
}

/// The value that stands under a name.
pub open spec fn lookup<V>(entries: Seq<(Seq<char>, V)>, name: Seq<char>) -> Option<V> {
    if exists|i: int| named_at(entries, name, i) {
        Some(entries[choose|i: int| named_at(entries, name, i)].1)
    } else {
        None
    }
}

/// A map whose names are text, each present at most once.
#[derive(Debug)]
pub struct NameMap<V> {
    entries: Vec<(String, V)>,
}

impl<V> View for NameMap<V> {
    type V = Seq<(Seq<char>, V)>;

    closed spec fn view(&self) -> Seq<(Seq<char>, V)> {
        Seq::new(self.entries@.len(), |i: int| (self.entries@[i].0@, self.entries@[i].1))
    }
}

/// In ascending entries, the entry under a name is the one that is found.
pub proof fn lemma_lookup_at<V>(entries: Seq<(Seq<char>, V)>, name: Seq<char>, i: int)
    requires
        ascending(entries),
        named_at(entries, name, i),
    ensures
        lookup(entries, name) == Some(entries[i].1),
{
    let k = choose|k: int| named_at(entries, name, k);
    precedes_irreflexive(name);
}

impl<V> NameMap<V> {
    #[verifier::type_invariant]
    spec fn well_formed(&self) -> bool {
        ascending(self@)
    }

    /// The empty map.
    pub fn new() -> (map: NameMap<V>)
        ensures
            map@ == Seq::<(Seq<char>, V)>::empty(),
    {
        NameMap { entries: Vec::new() }
    }

    /// How many names the map holds.
    pub fn len(&self) -> (count: usize)
        ensures
            count == self@.len(),
            ascending(self@),
    {
        proof {
            use_type_invariant(self);
        }
        self.entries.len()
    }

    /// The name at a position.
    pub fn name_at(&self, i: usize) -> (name: &String)
        requires
            i < self@.len(),
        ensures
            name@ == self@[i as int].0,
    {
        &self.entries[i].0
    }

    /// The value at a position.
    pub fn value_at(&self, i: usize) -> (value: &V)
        requires
            i < self@.len(),
        ensures
            *value == self@[i as int].1,
    {
        &self.entries[i].1
    }

    /// The first position whose name does not precede `name`.
    fn position(&self, name: &str) -> (at: usize)
        ensures
            at <= self@.len(),
            ascending(self@),
            forall|i: int| 0 <= i < at ==> precedes((#[trigger] self@[i]).0, name@),
            at < self@.len() ==> !precedes(self@[at as int].0, name@),
            forall|i: int| at < i < self@.len() ==> precedes(name@, (#[trigger] self@[i]).0),
            (exists|i: int| named_at(self@, name@, i)) <==> named_at(self@, name@, at as int),
    {
        proof {
            use_type_invariant(self);
        }
        let mut at: usize = 0;
        while at < self.entries.len() && place(self.entries[at].0.as_str(), name) == Place::Before
            invariant
                at <= self.entries@.len(),
                forall|i: int| 0 <= i < at ==> precedes((#[trigger] self@[i]).0, name@),
            decreases self.entries@.len() - at,
        {
            assert(place_of(self@[at as int].0, name@) == Place::Before);
            at = at + 1;
        }
        proof {
            if at < self@.len() {
                precedes_irreflexive(name@);
                precedes_total(self@[at as int].0, name@);
                assert(place_of(self@[at as int].0, name@) != Place::Before);
                assert forall|i: int| at < i < self@.len() implies precedes(
                    name@,
                    (#[trigger] self@[i]).0,
                ) by {
                    assert(precedes(self@[at as int].0, self@[i].0));
                    if self@[at as int].0 != name@ {
                        precedes_transitive(name@, self@[at as int].0, self@[i].0);
                    }
                }
            }
            assert forall|i: int| #[trigger] named_at(self@, name@, i) implies i == at by {
                precedes_irreflexive(name@);
            }
        }
        at
    }

    /// The value under a name.
    pub fn get(&self, name: &str) -> (found: Option<&V>)
        ensures
            match found {
                Some(value) => lookup(self@, name@) == Some(*value),
                None => lookup(self@, name@) is None,
            },
    {
        let at: usize = self.position(name);
        if at < self.entries.len() && place(self.entries[at].0.as_str(), name) == Place::Same {
            proof {
                lemma_lookup_at(self@, name@, at as int);
            }
            Some(&self.entries[at].1)
        } else {
            None
        }
    }

    /// Puts a value under a name, in place of what stood there before.
    pub fn insert(&mut self, name: String, value: V)
        ensures
            ascending(final(self)@),
            forall|other: Seq<char>| #[trigger]
                lookup(final(self)@, other) == (if other == name@ {
                    Some(value)
                } else {
                    lookup(old(self)@, other)
                }),
    {
        let at: usize = self.position(name.as_str());
        let replace: bool = at < self.entries.len() && place(
            self.entries[at].0.as_str(),
            name.as_str(),
        ) == Place::Same;
        let ghost before = self@;
        let ghost key = name@;
        let mut entries: Vec<(String, V)> = Vec::new();
        std::mem::swap(&mut entries, &mut self.entries);
        let ghost old_entries = entries@;
        if replace {
            entries.set(at, (name, value));
        } else {
            entries.insert(at, (name, value));
        }
        let ghost after = Seq::new(entries@.len(), |i: int| (entries@[i].0@, entries@[i].1));
        proof {
            assert(before == Seq::new(
                old_entries.len(),
                |i: int| (old_entries[i].0@, old_entries[i].1),
            ));
            if replace {
                assert(after == before.update(at as int, (key, value)));
            } else {
                assert(after == before.insert(at as int, (key, value)));
                if at < before.len() {
                    precedes_total(before[at as int].0, key);
                }
            }
            assert(ascending(after));
            assert forall|other: Seq<char>| #[trigger]
                lookup(after, other) == (if other == key {
                    Some(value)
                } else {
                    lookup(before, other)
                }) by {
                if other == key {
                    lemma_lookup_at(after, other, at as int);
                } else if exists|i: int| named_at(before, other, i) {
                    let i = choose|i: int| named_at(before, other, i);
                    let moved = if !replace && i >= at {
                        i + 1
                    } else {
                        i
                    };
                    lemma_lookup_at(before, other, i);
                    assert(named_at(after, other, moved));
                    lemma_lookup_at(after, other, moved);
                } else if exists|i: int| named_at(after, other, i) {
                    let i = choose|i: int| named_at(after, other, i);
                    let moved = if !replace && i > at {
                        i - 1
                    } else {
                        i
                    };
                    assert(named_at(before, other, moved));
                }
            }
        }
        self.entries = entries;
        assert(self@ == after);
    }

    /// Takes the value under a name out.
    pub fn remove(&mut self, name: &str) -> (removed: Option<V>)
        ensures
            removed == lookup(old(self)@, name@),
            ascending(final(self)@),
            forall|other: Seq<char>| #[trigger]
                lookup(final(self)@, other) == (if other == name@ {
                    None
                } else {
                    lookup(old(self)@, other)
                }),
    {
        let at: usize = self.position(name);
        let ghost before = self@;
        if !(at < self.entries.len() && place(self.entries[at].0.as_str(), name) == Place::Same) {
            return None;
        }
        let mut entries: Vec<(String, V)> = Vec::new();
        std::mem::swap(&mut entries, &mut self.entries);
        let ghost old_entries = entries@;
        let (_name, value): (String, V) = entries.remove(at);
        let ghost after = Seq::new(entries@.len(), |i: int| (entries@[i].0@, entries@[i].1));
        proof {
            assert(before == Seq::new(
                old_entries.len(),
                |i: int| (old_entries[i].0@, old_entries[i].1),
            ));
            assert(after == before.remove(at as int));
            lemma_lookup_at(before, name@, at as int);
            precedes_irreflexive(name@);
            assert forall|other: Seq<char>| #[trigger]
                lookup(after, other) == (if other == name@ {
                    None
                } else {
                    lookup(before, other)
                }) by {
                if exists|i: int| named_at(after, other, i) {
                    let i = choose|i: int| named_at(after, other, i);
                    let moved = if i >= at {
                        i + 1
                    } else {
                        i
                    };
                    assert(named_at(before, other, moved));
                    lemma_lookup_at(before, other, moved);
                    lemma_lookup_at(after, other, i);
                    assert(before[moved].0 == other);
                } else if other != name@ && exists|i: int| named_at(before, other, i) {
                    let i = choose|i: int| named_at(before, other, i);
                    let moved = if i > at {
                        i - 1
                    } else {
                        i
                    };
                    assert(named_at(after, other, moved));
                }
            }
        }
        self.entries = entries;
        assert(self@ == after);
        Some(value)
    }

    /// The entries in the order of their names.
    pub fn into_entries(self) -> (entries: Vec<(String, V)>)
        ensures
            entries@.len() == self@.len(),
            forall|i: int|
                0 <= i < self@.len() ==> (#[trigger] entries@[i]).0@ == self@[i].0 && entries@[i].1
                    == self@[i].1,
            ascending(self@),
    {
        proof {
            use_type_invariant(&self);
        }
        self.entries
    }

    /// The map of entries that are in the order of their names.
    pub fn from_entries(entries: Vec<(String, V)>) -> (map: NameMap<V>)
        requires
            ascending(Seq::new(entries@.len(), |i: int| (entries@[i].0@, entries@[i].1))),
        ensures
            map@ == Seq::new(entries@.len(), |i: int| (entries@[i].0@, entries@[i].1)),
    {
        NameMap { entries }
    }

    /// The values in the order of their names.
    pub fn into_values(self) -> (values: Vec<V>)
        ensures
            values@ == Seq::new(self@.len(), |i: int| self@[i].1),
            ascending(self@),
    {
        proof {
            use_type_invariant(&self);
        }
        let ghost all = self@;
        let mut rest: Vec<(String, V)> = self.entries;
        let mut reversed: Vec<V> = Vec::new();
        while rest.len() > 0
            invariant
                rest@.len() + reversed@.len() == all.len(),
                forall|i: int| 0 <= i < rest@.len() ==> (#[trigger] rest@[i]).1 == all[i].1,
                forall|i: int|
                    0 <= i < reversed@.len() ==> #[trigger] reversed@[i] == all[all.len() - 1 - i].1,
            decreases rest@.len(),
        {
            let ghost last = rest@[rest@.len() - 1];
            if let Some((_name, value)) = rest.pop() {
                reversed.push(value);
            }
        }
        let mut values: Vec<V> = Vec::new();
        while reversed.len() > 0
            invariant
                values@.len() + reversed@.len() == all.len(),
                forall|i: int| 0 <= i < values@.len() ==> #[trigger] values@[i] == all[i].1,
                forall|i: int|
                    0 <= i < reversed@.len() ==> #[trigger] reversed@[i] == all[all.len() - 1 - i].1,
            decreases reversed@.len(),
        {
            if let Some(value) = reversed.pop() {
                values.push(value);
            }
        }
        assert(values@ == Seq::new(all.len(), |i: int| all[i].1));
        values
    }
}

impl<V: Clone> Clone for NameMap<V> {
    fn clone(&self) -> (copy: NameMap<V>)
        ensures
            copy@.len() == self@.len(),
            forall|i: int|
                0 <= i < self@.len() ==> (#[trigger] copy@[i]).0 == self@[i].0 && cloned(
                    self@[i].1,
                    copy@[i].1,
                ),
    {
        proof {
            use_type_invariant(self);
        }
        let mut entries: Vec<(String, V)> = Vec::new();
        for i in 0..self.entries.len()
            invariant
                entries@.len() == i,
                forall|j: int|
                    0 <= j < i ==> (#[trigger] entries@[j]).0@ == self.entries@[j].0@ && cloned(
                        self.entries@[j].1,
                        entries@[j].1,
                    ),
        {
            entries.push((self.entries[i].0.clone(), self.entries[i].1.clone()));
        }
        let ghost views = Seq::new(entries@.len(), |i: int| (entries@[i].0@, entries@[i].1));
        assert forall|i: int, j: int| 0 <= i < j < views.len() implies precedes(
            (#[trigger] views[i]).0,
            (#[trigger] views[j]).0,
        ) by {
            assert(precedes(self@[i].0, self@[j].0));
            assert(entries@[i].0@ == self.entries@[i].0@ && entries@[j].0@ == self.entries@[j].0@);
        }
        let copy: NameMap<V> = NameMap { entries };
        assert forall|i: int| 0 <= i < self@.len() implies (#[trigger] copy@[i]).0 == self@[i].0
            && cloned(self@[i].1, copy@[i].1) by {
            assert(entries@[i].0@ == self.entries@[i].0@);
        }
        copy
    }
}

/// Two ascending lists of entries that give every name the same value are the same list.
pub proof fn law_entries_determined<V>(a: Seq<(Seq<char>, V)>, b: Seq<(Seq<char>, V)>)
    requires
        ascending(a),
        ascending(b),
        forall|name: Seq<char>| #[trigger] lookup(a, name) == lookup(b, name),
    ensures
        a == b,
    decreases a.len(),
{
    assert forall|i: int| 0 <= i < a.len() implies exists|j: int|
        named_at(b, (#[trigger] a[i]).0, j) by {
        assert(named_at(a, a[i].0, i));
        assert(lookup(a, a[i].0) == lookup(b, a[i].0));
    }
    assert forall|i: int| 0 <= i < b.len() implies exists|j: int|
        named_at(a, (#[trigger] b[i]).0, j) by {
        assert(named_at(b, b[i].0, i));
        assert(lookup(a, b[i].0) == lookup(b, b[i].0));
    }
    if a.len() == 0 {
        if b.len() > 0 {
            assert(named_at(b, b[0].0, 0));
        }
        assert(a == b);
    } else {
        let j0 = choose|j: int| named_at(b, a[0].0, j);
        let i0 = choose|i: int| named_at(a, b[0].0, i);
        precedes_irreflexive(a[0].0);
        if j0 != 0 {
            assert(precedes(b[0].0, b[j0].0));
            if i0 != 0 {
                assert(precedes(a[0].0, a[i0].0));
                precedes_transitive(a[0].0, b[0].0, a[0].0);
            }
        }
        assert(a[0].0 == b[0].0);
        lemma_lookup_at(a, a[0].0, 0);
        lemma_lookup_at(b, b[0].0, 0);
        assert(lookup(a, a[0].0) == lookup(b, a[0].0));
        let ra = a.drop_first();
        let rb = b.drop_first();
        assert forall|name: Seq<char>| #[trigger] lookup(ra, name) == lookup(rb, name) by {
            lemma_lookup_drop_first(a, name);
            lemma_lookup_drop_first(b, name);
            assert(lookup(a, name) == lookup(b, name));
        }
        law_entries_determined(ra, rb);
        assert(a == seq![a[0]] + ra);
        assert(b == seq![b[0]] + rb);
    }
}

proof fn lemma_lookup_drop_first<V>(entries: Seq<(Seq<char>, V)>, name: Seq<char>)
    requires
        ascending(entries),
        entries.len() > 0,
    ensures
        ascending(entries.drop_first()),
        lookup(entries.drop_first(), name) == (if name == entries[0].0 {
            None
        } else {
            lookup(entries, name)
        }),
{
    let rest = entries.drop_first();
    precedes_irreflexive(name);
    if exists|i: int| named_at(rest, name, i) {
        let i = choose|i: int| named_at(rest, name, i);
        lemma_lookup_at(rest, name, i);
        assert(named_at(entries, name, i + 1));
        lemma_lookup_at(entries, name, i + 1);
        assert(precedes(entries[0].0, entries[i + 1].0));
    } else if name != entries[0].0 && exists|i: int| named_at(entries, name, i) {
        let i = choose|i: int| named_at(entries, name, i);
        assert(named_at(rest, name, i - 1));
    }
}

} // verus!
