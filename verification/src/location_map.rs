//! A map keyed by location names.
//!
//! Location names are strings; a `LocationMap` holds at most one entry per
//! name and is viewed as a finite `Map` from the name's characters to the
//! stored value.

use vstd::prelude::*;

verus! {

/// An association list from location names to values, in which no name
/// occurs twice.
pub struct LocationMap<T> {
    entries: Vec<(String, T)>,
}

/// No name occurs twice among the entries.
pub open spec fn names_distinct<T>(entries: Seq<(String, T)>) -> bool {
    forall|i: int, j: int|
        0 <= i < entries.len() && 0 <= j < entries.len() && i != j ==> #[trigger] entries[i].0@
            != #[trigger] entries[j].0@
}

/// The map that a sequence of entries with distinct names stands for.
pub open spec fn entries_map<T>(entries: Seq<(String, T)>) -> Map<Seq<char>, T> {
    Map::new(
        |k: Seq<char>| exists|i: int| 0 <= i < entries.len() && entries[i].0@ == k,
        |k: Seq<char>|
            entries[choose|i: int| 0 <= i < entries.len() && entries[i].0@ == k].1,
    )
}

/// With distinct names, the entry at `i` gives the map's value at its name.
proof fn lemma_entries_map_at<T>(entries: Seq<(String, T)>, i: int)
    requires
        names_distinct(entries),
        0 <= i < entries.len(),
    ensures
        entries_map(entries).dom().contains(entries[i].0@),
        entries_map(entries)[entries[i].0@] == entries[i].1,
{
    let k = entries[i].0@;
    assert(0 <= i < entries.len() && entries[i].0@ == k);
    let j = choose|j: int| 0 <= j < entries.len() && entries[j].0@ == k;
    assert(j == i);
}

/// Appending an entry with a fresh name inserts it into the map.
proof fn lemma_entries_map_push<T>(entries: Seq<(String, T)>, k: String, v: T)
    requires
        names_distinct(entries),
        !entries_map(entries).dom().contains(k@),
    ensures
        names_distinct(entries.push((k, v))),
        entries_map(entries.push((k, v))) =~= entries_map(entries).insert(k@, v),
{
    let e2 = entries.push((k, v));
    assert forall|i: int| 0 <= i < entries.len() implies entries[i].0@ != k@ by {
        if entries[i].0@ == k@ {
            assert(entries_map(entries).dom().contains(k@));
        }
    }
    assert(names_distinct(e2));
    assert forall|key: Seq<char>|
        #[trigger] entries_map(entries).insert(k@, v).dom().contains(key) implies entries_map(
        e2,
    ).dom().contains(key) by {
        if key == k@ {
            assert(e2[entries.len() as int].0@ == key);
        } else {
            let i = choose|i: int| 0 <= i < entries.len() && entries[i].0@ == key;
            assert(e2[i].0@ == key);
        }
    }
    assert forall|key: Seq<char>| #[trigger]
        entries_map(e2).dom().contains(key) implies entries_map(entries).insert(
        k@,
        v,
    ).dom().contains(key) && entries_map(e2)[key] == entries_map(entries).insert(k@, v)[key] by {
        let i = choose|i: int| 0 <= i < e2.len() && e2[i].0@ == key;
        lemma_entries_map_at(e2, i);
        if i < entries.len() {
            lemma_entries_map_at(entries, i);
        }
    }
}

/// Replacing the value of the entry at `i` updates the map at its name.
proof fn lemma_entries_map_update<T>(entries: Seq<(String, T)>, i: int, k: String, v: T)
    requires
        names_distinct(entries),
        0 <= i < entries.len(),
        k@ == entries[i].0@,
    ensures
        names_distinct(entries.update(i, (k, v))),
        entries_map(entries.update(i, (k, v))) =~= entries_map(entries).insert(k@, v),
{
    let e2 = entries.update(i, (k, v));
    assert(names_distinct(e2));
    lemma_entries_map_at(entries, i);
    assert forall|key: Seq<char>|
        #[trigger] entries_map(entries).insert(k@, v).dom().contains(key) implies entries_map(
        e2,
    ).dom().contains(key) by {
        let j = choose|j: int| 0 <= j < entries.len() && entries[j].0@ == key;
        if key == k@ {
            assert(e2[i].0@ == key);
        } else {
            assert(e2[j].0@ == key);
        }
    }
    assert forall|key: Seq<char>| #[trigger]
        entries_map(e2).dom().contains(key) implies entries_map(entries).insert(
        k@,
        v,
    ).dom().contains(key) && entries_map(e2)[key] == entries_map(entries).insert(k@, v)[key] by {
        let j = choose|j: int| 0 <= j < e2.len() && e2[j].0@ == key;
        lemma_entries_map_at(e2, j);
        lemma_entries_map_at(entries, j);
    }
}

/// Removing the entry at `i` removes its name from the map.
proof fn lemma_entries_map_remove<T>(entries: Seq<(String, T)>, i: int)
    requires
        names_distinct(entries),
        0 <= i < entries.len(),
    ensures
        names_distinct(entries.remove(i)),
        entries_map(entries.remove(i)) =~= entries_map(entries).remove(entries[i].0@),
{
    let k = entries[i].0@;
    let e2 = entries.remove(i);
    assert forall|a: int, b: int|
        0 <= a < e2.len() && 0 <= b < e2.len() && a != b implies #[trigger] e2[a].0@
        != #[trigger] e2[b].0@ by {
        let a1 = if a < i { a } else { a + 1 };
        let b1 = if b < i { b } else { b + 1 };
        assert(e2[a] == entries[a1]);
        assert(e2[b] == entries[b1]);
    }
    assert forall|key: Seq<char>|
        #[trigger] entries_map(entries).remove(k).dom().contains(key) implies entries_map(
        e2,
    ).dom().contains(key) by {
        let j = choose|j: int| 0 <= j < entries.len() && entries[j].0@ == key;
        assert(j != i);
        let j2 = if j < i { j } else { j - 1 };
        assert(e2[j2] == entries[j]);
    }
    assert forall|key: Seq<char>| #[trigger]
        entries_map(e2).dom().contains(key) implies entries_map(entries).remove(
        k,
    ).dom().contains(key) && entries_map(e2)[key] == entries_map(entries).remove(k)[key] by {
        let j = choose|j: int| 0 <= j < e2.len() && e2[j].0@ == key;
        let j1 = if j < i { j } else { j + 1 };
        assert(e2[j] == entries[j1]);
        lemma_entries_map_at(e2, j);
        lemma_entries_map_at(entries, j1);
    }
}

impl<T> View for LocationMap<T> {
    type V = Map<Seq<char>, T>;

    closed spec fn view(&self) -> Map<Seq<char>, T> {
        entries_map(self.entries@)
    }
}

impl<T> LocationMap<T> {
    #[verifier::type_invariant]
    spec fn distinct_names(self) -> bool {
        names_distinct(self.entries@)
    }

    /// An empty map.
    pub fn new() -> (m: Self)
        ensures
            m@ == Map::<Seq<char>, T>::empty(),
    {
        let m = LocationMap { entries: Vec::new() };
        assert(m@ =~= Map::<Seq<char>, T>::empty());
        m
    }

    /// The position of the entry for `name`, if there is one.
    fn position(&self, name: &String) -> (r: Option<usize>)
        ensures
            match r {
                Some(i) => i < self.entries.len() && self.entries@[i as int].0@ == name@,
                None => !self@.dom().contains(name@),
            },
    {
        let mut i: usize = 0;
        while i < self.entries.len()
            invariant
                i <= self.entries.len(),
                forall|j: int| 0 <= j < i ==> self.entries@[j].0@ != name@,
            decreases self.entries.len() - i,
        {
            if self.entries[i].0 == *name {
                return Some(i);
            }
            i = i + 1;
        }
        None
    }

    /// The number of names in the map.
    pub fn len(&self) -> (n: usize)
        ensures
            n == self@.dom().len(),
    {
        proof {
            use_type_invariant(self);
            lemma_names_len(self.entries@);
        }
        self.entries.len()
    }

    /// Whether `name` has an entry.
    pub fn contains_key(&self, name: &String) -> (b: bool)
        ensures
            b == self@.dom().contains(name@),
    {
        match self.position(name) {
            Some(_) => true,
            None => false,
        }
    }

    /// The value stored under `name`, if any.
    pub fn get(&self, name: &String) -> (r: Option<&T>)
        ensures
            match r {
                Some(v) => self@.dom().contains(name@) && *v == self@[name@],
                None => !self@.dom().contains(name@),
            },
    {
        proof {
            use_type_invariant(self);
        }
        match self.position(name) {
            Some(i) => {
                proof {
                    lemma_entries_map_at(self.entries@, i as int);
                }
                Some(&self.entries[i].1)
            },
            None => None,
        }
    }

    /// Stores `value` under `name`, replacing what was stored there.
    pub fn insert(&mut self, name: String, value: T)
        ensures
            final(self)@ == old(self)@.insert(name@, value),
    {
        proof {
            use_type_invariant(&*self);
        }
        match self.position(&name) {
            Some(i) => {
                proof {
                    lemma_entries_map_update(self.entries@, i as int, name, value);
                }
                let mut entries = Vec::new();
                std::mem::swap(&mut entries, &mut self.entries);
                entries.set(i, (name, value));
                self.entries = entries;
            },
            None => {
                proof {
                    lemma_entries_map_push(self.entries@, name, value);
                }
                let mut entries = Vec::new();
                std::mem::swap(&mut entries, &mut self.entries);
                entries.push((name, value));
                self.entries = entries;
            },
        }
    }

    /// Takes out the value stored under `name`, if any.
    pub fn remove(&mut self, name: &String) -> (r: Option<T>)
        ensures
            match r {
                Some(v) => old(self)@.dom().contains(name@) && v == old(self)@[name@],
                None => !old(self)@.dom().contains(name@),
            },
            final(self)@ == old(self)@.remove(name@),
    {
        proof {
            use_type_invariant(&*self);
        }
        match self.position(name) {
            Some(i) => {
                proof {
                    lemma_entries_map_at(self.entries@, i as int);
                    lemma_entries_map_remove(self.entries@, i as int);
                }
                let mut entries = Vec::new();
                std::mem::swap(&mut entries, &mut self.entries);
                let (_, v) = entries.remove(i);
                self.entries = entries;
                Some(v)
            },
            None => {
                proof {
                    assert(old(self)@.remove(name@) =~= old(self)@);
                }
                None
            },
        }
    }

    /// The names in the map, each once, in no promised order.
    pub fn keys(&self) -> (ks: Vec<String>)
        ensures
            ks@.len() == self@.dom().len(),
            forall|i: int, j: int|
                0 <= i < ks@.len() && 0 <= j < ks@.len() && i != j ==> #[trigger] ks@[i]@
                    != #[trigger] ks@[j]@,
            forall|k: Seq<char>| #[trigger]
                self@.dom().contains(k) <==> exists|i: int| 0 <= i < ks@.len() && ks@[i]@ == k,
    {
        proof {
            use_type_invariant(self);
            lemma_names_len(self.entries@);
        }
        let mut ks: Vec<String> = Vec::new();
        let mut i: usize = 0;
        while i < self.entries.len()
            invariant
                i <= self.entries.len(),
                ks@.len() == i,
                forall|j: int| 0 <= j < i ==> #[trigger] ks@[j]@ == self.entries@[j].0@,
            decreases self.entries.len() - i,
        {
            ks.push(self.entries[i].0.clone());
            i = i + 1;
        }
        proof {
            assert forall|a: int, b: int|
                0 <= a < ks@.len() && 0 <= b < ks@.len() && a != b implies #[trigger] ks@[a]@
                != #[trigger] ks@[b]@ by {
                assert(ks@[a]@ == self.entries@[a].0@);
                assert(ks@[b]@ == self.entries@[b].0@);
            }
            assert forall|k: Seq<char>| #[trigger]
                self@.dom().contains(k) <==> exists|i: int| 0 <= i < ks@.len() && ks@[i]@ == k by {
                if self@.dom().contains(k) {
                    let j = choose|j: int|
                        0 <= j < self.entries@.len() && self.entries@[j].0@ == k;
                    assert(ks@[j]@ == k);
                }
                if exists|i: int| 0 <= i < ks@.len() && ks@[i]@ == k {
                    let j = choose|j: int| 0 <= j < ks@.len() && ks@[j]@ == k;
                    assert(self.entries@[j].0@ == k);
                }
            }
        }
        ks
    }
}

/// The map of entries with distinct names has as many names as entries.
proof fn lemma_names_len<T>(entries: Seq<(String, T)>)
    requires
        names_distinct(entries),
    ensures
        entries_map(entries).dom().finite(),
        entries_map(entries).dom().len() == entries.len(),
    decreases entries.len(),
{
    if entries.len() == 0 {
        assert(entries_map(entries).dom() =~= Set::<Seq<char>>::empty());
    } else {
        let last = entries.len() - 1;
        let init = entries.drop_last();
        assert(names_distinct(init));
        lemma_names_len(init);
        assert(entries =~= init.push(entries[last]));
        assert(!entries_map(init).dom().contains(entries[last].0@)) by {
            if entries_map(init).dom().contains(entries[last].0@) {
                let j = choose|j: int| 0 <= j < init.len() && init[j].0@ == entries[last].0@;
                assert(entries[j].0@ == entries[last].0@);
            }
        }
        lemma_entries_map_push(init, entries[last].0, entries[last].1);
        assert(entries_map(entries).dom() =~= entries_map(init).dom().insert(entries[last].0@));
    }
}

} // verus!
