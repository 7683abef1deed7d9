//! A map from paths to values that keeps its paths in order.

use crate::text::{compare, Order};
#[allow(unused_imports)]
use crate::text::{law_order_irreflexive, law_order_transitive, lex_lt, strictly_sorted};
use vstd::prelude::*;

verus! {

/// A map keyed by paths. The paths are kept sorted, and none occurs twice.
#[derive(Debug)]
pub struct PathMap<V> {
    entries: Vec<(String, V)>,
}

/// Where a path is, or would have to be put.
enum Slot {
    Taken(usize),
    Free(usize),
}

impl<V> PathMap<V> {
    /// The paths of the map, in the order in which they are kept.
    pub closed spec fn paths(self) -> Seq<Seq<char>> {
        self.entries@.map_values(|entry: (String, V)| entry.0@)
    }

    /// The values of the map, in the order of their paths.
    pub closed spec fn values(self) -> Seq<V> {
        self.entries@.map_values(|entry: (String, V)| entry.1)
    }

    /// The paths are in order, so each occurs once.
    pub open spec fn wf(self) -> bool {
        strictly_sorted(self.paths()) && self.paths().len() == self.values().len()
    }

    /// A map without paths.
    pub fn new() -> (map: Self)
        ensures
            map.wf(),
            map@ == Map::<Seq<char>, V>::empty(),
            map.paths().len() == 0,
    {
        let map = PathMap { entries: Vec::new() };
        assert(map@ =~= Map::<Seq<char>, V>::empty());
        map
    }

    /// The number of paths.
    pub fn len(&self) -> (len: usize)
        ensures
            len == self.paths().len(),
    {
        self.entries.len()
    }

    /// The path at a place in the order.
    pub fn path_at(&self, i: usize) -> (path: &String)
        requires
            i < self.paths().len(),
        ensures
            path@ == self.paths()[i as int],
    {
        &self.entries[i].0
    }

    /// Finds the place of a path.
    fn slot(&self, path: &str) -> (slot: Slot)
        requires
            self.wf(),
        ensures
            match slot {
                Slot::Taken(i) => i < self.paths().len() && self.paths()[i as int] == path@,
                Slot::Free(i) => {
                    &&& i <= self.paths().len()
                    &&& forall|j: int| 0 <= j < i ==> lex_lt(#[trigger] self.paths()[j], path@)
                    &&& forall|j: int|
                        i <= j < self.paths().len() ==> lex_lt(path@, #[trigger] self.paths()[j])
                },
            },
    {
        let mut i: usize = 0;
        while i < self.entries.len()
            invariant
                self.wf(),
                i <= self.entries.len(),
                self.entries.len() == self.paths().len(),
                forall|j: int| 0 <= j < i ==> lex_lt(#[trigger] self.paths()[j], path@),
            decreases self.entries.len() - i,
        {
            assert(self.paths()[i as int] == self.entries@[i as int].0@);
            match compare(self.entries[i].0.as_str(), path) {
                Order::Before => {
                    i = i + 1;
                },
                Order::Same => {
                    return Slot::Taken(i);
                },
                Order::After => {
                    assert forall|j: int| i <= j < self.paths().len() implies lex_lt(
                        path@,
                        #[trigger] self.paths()[j],
                    ) by {
                        if i < j {
                            law_order_transitive(path@, self.paths()[i as int], self.paths()[j]);
                        }
                    }
                    return Slot::Free(i);
                },
            }
        }
        Slot::Free(i)
    }

    /// Adds a path that the map does not hold yet.
    pub fn insert_new(&mut self, path: String, value: V)
        requires
            old(self).wf(),
            !old(self)@.contains_key(path@),
        ensures
            final(self).wf(),
            final(self)@ == old(self)@.insert(path@, value),
    {
        let ghost before = *self;
        match self.slot(path.as_str()) {
            Slot::Taken(i) => {
                assert(before.paths().contains(path@));
            },
            Slot::Free(i) => {
                self.entries.insert(i, (path, value));
                proof {
                    lemma_inserted(before, *self, i as int, path, value);
                }
            },
        }
    }
}

impl<V: Copy> PathMap<V> {
    /// The value at a place in the order.
    pub fn value_at(&self, i: usize) -> (value: V)
        requires
            i < self.values().len(),
        ensures
            value == self.values()[i as int],
    {
        self.entries[i].1
    }

    /// The value kept for a path.
    pub fn get(&self, path: &str) -> (value: Option<V>)
        requires
            self.wf(),
        ensures
            match value {
                Some(v) => self@.contains_key(path@) && self@[path@] == v,
                None => !self@.contains_key(path@),
            },
    {
        match self.slot(path) {
            Slot::Taken(i) => {
                proof {
                    lemma_entry(*self, i as int);
                }
                assert(self.values()[i as int] == self.entries@[i as int].1);
                Some(self.entries[i].1)
            },
            Slot::Free(i) => {
                proof {
                    if self.paths().contains(path@) {
                        let j = choose|j: int|
                            0 <= j < self.paths().len() && self.paths()[j] == path@;
                        law_order_irreflexive(path@);
                        assert(lex_lt(self.paths()[j], path@) || lex_lt(path@, self.paths()[j]));
                    }
                }
                None
            },
        }
    }
}

impl<V> View for PathMap<V> {
    type V = Map<Seq<char>, V>;

    /// The map as a mathematical map.
    open spec fn view(&self) -> Map<Seq<char>, V> {
        Map::new(
            |path: Seq<char>| self.paths().contains(path),
            |path: Seq<char>| self.values()[self.paths().index_of(path)],
        )
    }
}

/// The value that stands beside a path is the one that the map gives for it.
pub proof fn lemma_entry<V>(map: PathMap<V>, i: int)
    requires
        map.wf(),
        0 <= i < map.paths().len(),
    ensures
        map@.contains_key(map.paths()[i]),
        map@[map.paths()[i]] == map.values()[i],
{
    let path = map.paths()[i];
    assert(map.paths().contains(path));
    let k = map.paths().index_of(path);
    assert(0 <= k < map.paths().len() && map.paths()[k] == path);
    law_order_irreflexive(path);
    if k < i {
        assert(lex_lt(map.paths()[k], map.paths()[i]));
    } else if i < k {
        assert(lex_lt(map.paths()[i], map.paths()[k]));
    }
}

/// Putting an entry into its place extends the map by that entry.
proof fn lemma_inserted<V>(before: PathMap<V>, after: PathMap<V>, i: int, path: String, value: V)
    requires
        before.wf(),
        0 <= i <= before.paths().len(),
        forall|j: int| 0 <= j < i ==> lex_lt(#[trigger] before.paths()[j], path@),
        forall|j: int| i <= j < before.paths().len() ==> lex_lt(path@, #[trigger] before.paths()[j]),
        after.entries@ == before.entries@.insert(i, (path, value)),
    ensures
        after.wf(),
        after@ == before@.insert(path@, value),
{
    let n = before.paths().len();
    assert(before.entries@.len() == n);
    assert(after.paths().len() == n + 1);
    assert forall|j: int| 0 <= j < after.paths().len() implies #[trigger] after.paths()[j] == (if j
        < i {
        before.paths()[j]
    } else if j == i {
        path@
    } else {
        before.paths()[j - 1]
    }) && after.values()[j] == (if j < i {
        before.values()[j]
    } else if j == i {
        value
    } else {
        before.values()[j - 1]
    }) by {}
    assert(strictly_sorted(after.paths())) by {
        assert forall|a: int, b: int| 0 <= a < b < after.paths().len() implies lex_lt(
            after.paths()[a],
            after.paths()[b],
        ) by {}
    }
    assert forall|p: Seq<char>| after@.contains_key(p) == before@.insert(path@, value).contains_key(
        p,
    ) by {
        if after.paths().contains(p) {
            let j = choose|j: int| 0 <= j < after.paths().len() && after.paths()[j] == p;
            if j < i {
                assert(before.paths()[j] == p);
            } else if j > i {
                assert(before.paths()[j - 1] == p);
            }
        }
        if before.paths().contains(p) {
            let j = choose|j: int| 0 <= j < before.paths().len() && before.paths()[j] == p;
            if j < i {
                assert(after.paths()[j] == p);
            } else {
                assert(after.paths()[j + 1] == p);
            }
        }
        assert(after.paths()[i] == path@);
    }
    assert forall|p: Seq<char>| after@.contains_key(p) implies #[trigger] after@[p]
        == before@.insert(path@, value)[p] by {
        let j = choose|j: int| 0 <= j < after.paths().len() && after.paths()[j] == p;
        lemma_entry(after, j);
        law_order_irreflexive(path@);
        if j < i {
            lemma_entry(before, j);
        } else if j > i {
            lemma_entry(before, j - 1);
        }
    }
    assert(after@ =~= before@.insert(path@, value));
}

} // verus!
