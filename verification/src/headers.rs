//! The headers of a record: a map from names to values.

use vstd::prelude::*;

verus! {

/// A map from header names to header values. Names are case-sensitive. A name occurs once:
/// inserting a name that is there replaces its value.
#[derive(Debug)]
pub struct Headers {
    entries: Vec<(String, String)>,
}

/// Whether the name `k` stands at index `i` of `entries`.
spec fn names_at(entries: Seq<(String, String)>, i: int, k: Seq<char>) -> bool {
    0 <= i < entries.len() && entries[i].0@ == k
}

/// An index at which the name `k` stands in `entries`.
spec fn index_of(entries: Seq<(String, String)>, k: Seq<char>) -> int {
    choose|i: int| names_at(entries, i, k)
}

/// The map that `entries` stand for when no name occurs twice.
spec fn entries_map(entries: Seq<(String, String)>) -> Map<Seq<char>, Seq<char>> {
    Map::new(
        |k: Seq<char>| exists|i: int| names_at(entries, i, k),
        |k: Seq<char>| entries[index_of(entries, k)].1@,
    )
}

/// No name stands at two indices of `entries`.
spec fn distinct_names(entries: Seq<(String, String)>) -> bool {
    forall|i: int, j: int|
        0 <= i < j < entries.len() ==> (#[trigger] entries[i]).0@ != (#[trigger] entries[j]).0@
}

impl View for Headers {
    type V = Map<Seq<char>, Seq<char>>;

    closed spec fn view(&self) -> Map<Seq<char>, Seq<char>> {
        entries_map(self.entries@)
    }
}

impl Headers {
    /// No name occurs twice.
    #[verifier::type_invariant]
    spec fn well_formed(self) -> bool {
        distinct_names(self.entries@)
    }

    /// A map without headers.
    pub fn new() -> (h: Headers)
        ensures
            h@ == Map::<Seq<char>, Seq<char>>::empty(),
    {
        let h = Headers { entries: Vec::new() };
        assert(h@ =~= Map::<Seq<char>, Seq<char>>::empty());
        h
    }

    /// The index of `name`, if the map holds it.
    fn position(&self, name: &String) -> (r: Option<usize>)
        ensures
            match r {
                Some(i) => names_at(self.entries@, i as int, name@),
                None => forall|i: int| !names_at(self.entries@, i, name@),
            },
    {
        let mut i: usize = 0;
        while i < self.entries.len()
            invariant
                i <= self.entries@.len(),
                forall|k: int| 0 <= k < i ==> !names_at(self.entries@, k, name@),
            decreases self.entries@.len() - i,
        {
            if self.entries[i].0 == *name {
                return Some(i);
            }
            i += 1;
        }
        None
    }

    /// Sets the value of `name` to `value`, whether or not the map held the name.
    pub fn insert(&mut self, name: String, value: String)
        ensures
            final(self)@ == old(self)@.insert(name@, value@),
    {
        proof {
            use_type_invariant(&*self);
        }
        let ghost before = self.entries@;
        let found = self.position(&name);
        let mut entries: Vec<(String, String)> = Vec::new();
        core::mem::swap(&mut self.entries, &mut entries);
        match found {
            Some(i) => {
                entries.set(i, (name, value));
                assert(distinct_names(entries@)) by {
                    assert forall|a: int, b: int| 0 <= a < b < entries@.len() implies (
                    #[trigger] entries@[a]).0@ != (#[trigger] entries@[b]).0@ by {
                        assert(before[a].0@ != before[b].0@);
                    }
                }
                self.entries = entries;
                proof {
                    let after = self.entries@;
                    assert forall|k: Seq<char>, j: int|
                        names_at(after, j, k) <==> names_at(before, j, k) by {}
                    assert forall|k: Seq<char>| #[trigger]
                        entries_map(after).contains_key(k) implies entries_map(after)[k]
                        == entries_map(before).insert(name@, value@)[k] by {
                        let j = index_of(after, k);
                        let j0 = index_of(before, k);
                        assert(names_at(after, j, k));
                        assert(names_at(before, j, k));
                        assert(names_at(before, j0, k));
                        assert(j == j0);
                    }
                    assert(entries_map(after) =~= entries_map(before).insert(name@, value@));
                }
            },
            None => {
                entries.push((name, value));
                assert(distinct_names(entries@)) by {
                    assert forall|i: int, j: int| 0 <= i < j < entries@.len() implies (
                    #[trigger] entries@[i]).0@ != (#[trigger] entries@[j]).0@ by {
                        assert(!names_at(before, i, name@));
                        if j < before.len() {
                            assert(before[i].0@ != before[j].0@);
                        }
                    }
                }
                self.entries = entries;
                proof {
                    let after = self.entries@;
                    let last = before.len() as int;
                    assert(names_at(after, last, name@));
                    assert forall|k: Seq<char>, j: int|
                        names_at(after, j, k) <==> (names_at(before, j, k) || (j == last && k
                            == name@)) by {}
                    assert forall|k: Seq<char>| #[trigger]
                        entries_map(after).contains_key(k) implies entries_map(after)[k]
                        == entries_map(before).insert(name@, value@)[k] by {
                        let j = index_of(after, k);
                        assert(names_at(after, j, k));
                        if k != name@ {
                            let j0 = index_of(before, k);
                            assert(names_at(before, j, k));
                            assert(names_at(before, j0, k));
                            assert(j == j0);
                        }
                    }
                    assert(entries_map(after) =~= entries_map(before).insert(name@, value@));
                }
            },
        }
    }

    /// The value of `name`, if the map holds it.
    pub fn get(&self, name: &str) -> (r: Option<&String>)
        ensures
            match r {
                Some(value) => self@.contains_key(name@) && self@[name@] == value@,
                None => !self@.contains_key(name@),
            },
    {
        proof {
            use_type_invariant(self);
        }
        let key = name.to_owned();
        match self.position(&key) {
            Some(i) => {
                proof {
                    let j = index_of(self.entries@, name@);
                    assert(names_at(self.entries@, i as int, name@));
                    assert(names_at(self.entries@, j, name@));
                    assert(j == i);
                }
                Some(&self.entries[i].1)
            },
            None => None,
        }
    }

    /// Whether the map holds `name`.
    pub fn contains_key(&self, name: &str) -> (r: bool)
        ensures
            r == self@.contains_key(name@),
    {
        self.get(name).is_some()
    }

    /// The number of names in the map.
    pub fn len(&self) -> (n: usize)
        ensures
            self@.dom().finite(),
            n == self@.dom().len(),
    {
        proof {
            use_type_invariant(self);
            lemma_names_counted(self.entries@);
        }
        self.entries.len()
    }

    /// Whether the map holds no name.
    pub fn is_empty(&self) -> (r: bool)
        ensures
            r == (self@ == Map::<Seq<char>, Seq<char>>::empty()),
    {
        proof {
            use_type_invariant(self);
            lemma_names_counted(self.entries@);
            if self.entries@.len() == 0 {
                assert(self@ =~= Map::<Seq<char>, Seq<char>>::empty());
            }
        }
        self.entries.len() == 0
    }

    /// The headers as a list that holds each name once.
    pub fn entries(&self) -> (list: &Vec<(String, String)>)
        ensures
            list@.len() == self@.dom().len(),
            forall|i: int|
                0 <= i < list@.len() ==> self@.contains_key((#[trigger] list@[i]).0@)
                    && self@[list@[i].0@] == list@[i].1@,
            forall|i: int, j: int|
                0 <= i < j < list@.len() ==> (#[trigger] list@[i]).0@ != (#[trigger] list@[j]).0@,
            forall|name: Seq<char>|
                self@.contains_key(name) ==> exists|i: int|
                    0 <= i < list@.len() && (#[trigger] list@[i]).0@ == name,
    {
        proof {
            use_type_invariant(self);
            lemma_names_counted(self.entries@);
            let entries = self.entries@;
            assert forall|i: int| 0 <= i < entries.len() implies self@.contains_key(
                (#[trigger] entries[i]).0@,
            ) && self@[entries[i].0@] == entries[i].1@ by {
                let k = entries[i].0@;
                assert(names_at(entries, i, k));
                let j = index_of(entries, k);
                assert(names_at(entries, j, k));
                assert(j == i);
            }
            assert forall|name: Seq<char>| self@.contains_key(name) implies exists|i: int|
                0 <= i < entries.len() && (#[trigger] entries[i]).0@ == name by {
                let i = choose|i: int| names_at(entries, i, name);
                assert(entries[i].0@ == name);
            }
        }
        &self.entries
    }
}

/// A list in which no name occurs twice stands for a map of as many names as it is long.
proof fn lemma_names_counted(entries: Seq<(String, String)>)
    requires
        distinct_names(entries),
    ensures
        entries_map(entries).dom().finite(),
        entries_map(entries).dom().len() == entries.len(),
    decreases entries.len(),
{
    if entries.len() == 0 {
        assert(entries_map(entries).dom() =~= Set::<Seq<char>>::empty());
    } else {
        let before = entries.drop_last();
        let name = entries.last().0@;
        assert(distinct_names(before)) by {
            assert forall|i: int, j: int| 0 <= i < j < before.len() implies (
            #[trigger] before[i]).0@ != (#[trigger] before[j]).0@ by {
                assert(before[i] == entries[i] && before[j] == entries[j]);
            }
        }
        lemma_names_counted(before);
        assert(!entries_map(before).dom().contains(name)) by {
            if entries_map(before).dom().contains(name) {
                let i = choose|i: int| names_at(before, i, name);
                assert(entries[i].0@ == entries[entries.len() - 1].0@);
            }
        }
        assert(entries_map(entries).dom() =~= entries_map(before).dom().insert(name)) by {
            assert forall|k: Seq<char>| entries_map(entries).dom().contains(k) implies #[trigger]
                entries_map(before).dom().insert(name).contains(k) by {
                let i = choose|i: int| names_at(entries, i, k);
                if i < before.len() {
                    assert(names_at(before, i, k));
                }
            }
            assert forall|k: Seq<char>| #[trigger]
                entries_map(before).dom().insert(name).contains(k) implies entries_map(
                entries,
            ).dom().contains(k) by {
                if k == name {
                    assert(names_at(entries, entries.len() - 1, k));
                } else {
                    let i = choose|i: int| names_at(before, i, k);
                    assert(names_at(entries, i, k));
                }
            }
        }
    }
}

} // verus!
