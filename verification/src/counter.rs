use crate::keyed::{
    as_map, distinct_keys, has_key, lemma_as_map_at, lemma_as_map_empty, lemma_as_map_has_key,
    lemma_as_map_push, lemma_as_map_update,
};
use vstd::prelude::*;

verus! {

/// How often `key` was counted in `m`: zero for a key that `m` does not hold.
pub open spec fn count_of(m: Map<Seq<char>, nat>, key: Seq<char>) -> nat {
    if m.contains_key(key) {
        m[key]
    } else {
        0
    }
}

/// `m` after `key` was counted once more.
pub open spec fn bump(m: Map<Seq<char>, nat>, key: Seq<char>) -> Map<Seq<char>, nat> {
    m.insert(key, count_of(m, key) + 1)
}

/// A list of names and counts as plain values.
pub open spec fn entry_views(entries: Seq<(String, u32)>) -> Seq<(Seq<char>, nat)> {
    entries.map_values(|e: (String, u32)| (e.0@, e.1 as nat))
}

/// Counts per name. The names are kept in the order in which they first
/// came; no name occurs twice.
#[derive(Debug)]
pub struct Counter {
    pub entries: Vec<(String, u32)>,
}

impl View for Counter {
    type V = Map<Seq<char>, nat>;

    open spec fn view(&self) -> Map<Seq<char>, nat> {
        as_map(self.pairs())
    }
}

impl Counter {
    /// The entries as names and numbers.
    pub open spec fn pairs(&self) -> Seq<(Seq<char>, nat)> {
        entry_views(self.entries@)
    }

    /// No name occurs twice.
    pub open spec fn wf(&self) -> bool {
        distinct_keys(self.pairs())
    }

    /// A counter that has counted nothing.
    pub fn new() -> (c: Counter)
        ensures
            c.wf(),
            c@ == Map::<Seq<char>, nat>::empty(),
    {
        let c = Counter { entries: Vec::new() };
        proof {
            lemma_as_map_empty(c.pairs());
        }
        c
    }

    /// Whether nothing was counted.
    pub fn is_empty(&self) -> (b: bool)
        ensures
            b == (self@ == Map::<Seq<char>, nat>::empty()),
    {
        proof {
            lemma_as_map_empty(self.pairs());
        }
        self.entries.len() == 0
    }

    /// The position of the entry for `key`.
    pub fn find(&self, key: &String) -> (r: Option<usize>)
        ensures
            match r {
                Some(i) => i < self.entries.len() && self.pairs()[i as int].0 == key@,
                None => !has_key(self.pairs(), key@),
            },
    {
        let mut i: usize = 0;
        while i < self.entries.len()
            invariant
                i <= self.entries.len(),
                forall|j: int| 0 <= j < i ==> (#[trigger] self.pairs()[j]).0 != key@,
            decreases self.entries.len() - i,
        {
            if self.entries[i].0 == *key {
                return Some(i);
            }
            i += 1;
        }
        None
    }

    /// The count of `key`.
    pub fn get(&self, key: &String) -> (n: u32)
        requires
            self.wf(),
        ensures
            n == count_of(self@, key@),
    {
        proof {
            lemma_as_map_has_key(self.pairs(), key@);
        }
        match self.find(key) {
            Some(i) => {
                proof {
                    lemma_as_map_at(self.pairs(), i as int);
                }
                self.entries[i].1
            },
            None => 0,
        }
    }

    /// Files `count` under `key`, in place of what was filed there.
    pub fn insert(&mut self, key: String, count: u32)
        requires
            old(self).wf(),
        ensures
            final(self).wf(),
            final(self)@ == old(self)@.insert(key@, count as nat),
    {
        let ghost before = self.pairs();
        match self.find(&key) {
            Some(i) => {
                self.entries[i].1 = count;
                proof {
                    lemma_as_map_update(before, i as int, count as nat);
                    assert(self.pairs() =~= before.update(i as int, (before[i as int].0, count as nat)));
                }
            },
            None => {
                self.entries.push((key, count));
                proof {
                    lemma_as_map_push(before, key@, count as nat);
                    assert(self.pairs() =~= before.push((key@, count as nat)));
                }
            },
        }
    }

    /// Counts `key` once more.
    pub fn increment(&mut self, key: String)
        requires
            old(self).wf(),
            count_of(old(self)@, key@) < u32::MAX,
        ensures
            final(self).wf(),
            final(self)@ == bump(old(self)@, key@),
    {
        let ghost before = self.pairs();
        proof {
            lemma_as_map_has_key(before, key@);
        }
        match self.find(&key) {
            Some(i) => {
                proof {
                    lemma_as_map_at(before, i as int);
                    lemma_as_map_update(before, i as int, (before[i as int].1 + 1) as nat);
                }
                self.entries[i].1 += 1;
                assert(self.pairs() =~= before.update(
                    i as int,
                    (before[i as int].0, (before[i as int].1 + 1) as nat),
                ));
            },
            None => {
                self.entries.push((key, 1));
                proof {
                    lemma_as_map_push(before, key@, 1);
                    assert(self.pairs() =~= before.push((key@, 1nat)));
                }
            },
        }
    }
}

} // verus!
