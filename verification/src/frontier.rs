//! The priority frontier that drives a traversal.
//!
//! A mutable min-priority structure keyed by vertex index: push, pop the
//! entry of globally minimal weight, look a priority up, and change the
//! priority of a pending key. Each key appears at most once; the view is the
//! finite map from pending keys to their elements.

use vstd::prelude::*;

use crate::assoc::lemma_map_of_contains;
use crate::assoc::lemma_map_of_index;
use crate::assoc::lemma_map_of_len;
use crate::assoc::lemma_map_of_push;
use crate::assoc::lemma_map_of_remove;
use crate::assoc::lemma_map_of_update;
use crate::assoc::lemma_unique_push;
use crate::assoc::map_of;
use crate::assoc::unique_keys;

verus! {

/// A tentative distance record: the best known total weight from the source
/// and the predecessor vertex that achieved it.
#[derive(Clone, Copy)]
pub struct PriorityElement {
    pub weight: usize,
    pub previous: usize,
}

impl PriorityElement {
    pub fn new(weight: usize, previous: usize) -> (r: Self)
        ensures
            r.weight == weight,
            r.previous == previous,
    {
        Self { weight, previous }
    }
}

/// The set of vertices with a known tentative distance, awaiting expansion.
pub struct PriorityFrontier {
    entries: Vec<(usize, PriorityElement)>,
}

impl View for PriorityFrontier {
    type V = Map<int, PriorityElement>;

    closed spec fn view(&self) -> Map<int, PriorityElement> {
        map_of(self.entries@)
    }
}

impl PriorityFrontier {
    /// Pending keys are pairwise distinct.
    pub closed spec fn wf(&self) -> bool {
        unique_keys(self.entries@)
    }

    /// An empty frontier.
    pub fn new() -> (r: Self)
        ensures
            r.wf(),
            r@ == Map::<int, PriorityElement>::empty(),
    {
        Self { entries: Vec::new() }
    }

    /// The number of pending keys.
    pub fn len(&self) -> (r: usize)
        requires
            self.wf(),
        ensures
            r == self@.dom().len(),
            self@.dom().finite(),
    {
        proof {
            lemma_map_of_len(self.entries@);
        }
        self.entries.len()
    }

    /// Add a key that is not yet pending.
    pub fn push(&mut self, key: usize, element: PriorityElement)
        requires
            old(self).wf(),
            !old(self)@.dom().contains(key as int),
        ensures
            final(self).wf(),
            final(self)@ == old(self)@.insert(key as int, element),
    {
        proof {
            lemma_unique_push(self.entries@, (key, element));
            lemma_map_of_push(self.entries@, (key, element));
        }
        self.entries.push((key, element));
    }

    /// Remove and return an entry of globally minimal weight.
    pub fn pop(&mut self) -> (r: (usize, PriorityElement))
        requires
            old(self).wf(),
            old(self)@.dom().len() > 0,
        ensures
            final(self).wf(),
            old(self)@.dom().contains(r.0 as int),
            old(self)@[r.0 as int] == r.1,
            final(self)@ == old(self)@.remove(r.0 as int),
            forall|k: int| old(self)@.dom().contains(k) ==> r.1.weight <= old(self)@[k].weight,
    {
        proof {
            lemma_map_of_len(self.entries@);
        }
        let ghost s = self.entries@;
        let mut best: usize = 0;
        let mut i: usize = 1;
        while i < self.entries.len()
            invariant
                self.entries@ == s,
                0 < i <= s.len(),
                0 <= best < i,
                forall|j: int| 0 <= j < i ==> s[best as int].1.weight <= (#[trigger] s[j]).1.weight,
            decreases s.len() - i,
        {
            if self.entries[i].1.weight < self.entries[best].1.weight {
                best = i;
            }
            i = i + 1;
        }
        proof {
            lemma_map_of_index(s, best as int);
            lemma_map_of_remove(s, best as int);
            assert forall|k: int| map_of(s).dom().contains(k) implies s[best as int].1.weight <= map_of(
                s,
            )[k].weight by {
                lemma_map_of_contains(s, k);
                let j = choose|j: int| 0 <= j < s.len() && (#[trigger] s[j]).0 as int == k;
                lemma_map_of_index(s, j);
            }
        }
        let entry = self.entries.remove(best);
        entry
    }

    /// Look up the tentative element of a key, if it is pending.
    pub fn get_priority(&self, key: usize) -> (r: Option<PriorityElement>)
        requires
            self.wf(),
        ensures
            match r {
                Some(e) => self@.dom().contains(key as int) && self@[key as int] == e,
                None => !self@.dom().contains(key as int),
            },
    {
        let ghost s = self.entries@;
        let mut i: usize = 0;
        while i < self.entries.len()
            invariant
                self.entries@ == s,
                unique_keys(s),
                0 <= i <= s.len(),
                forall|j: int| 0 <= j < i ==> (#[trigger] s[j]).0 != key,
            decreases s.len() - i,
        {
            if self.entries[i].0 == key {
                proof {
                    lemma_map_of_index(s, i as int);
                }
                return Some(self.entries[i].1);
            }
            i = i + 1;
        }
        proof {
            lemma_map_of_contains(s, key as int);
        }
        None
    }

    /// Replace the element of a pending key.
    pub fn change_priority(&mut self, key: usize, element: PriorityElement)
        requires
            old(self).wf(),
            old(self)@.dom().contains(key as int),
        ensures
            final(self).wf(),
            final(self)@ == old(self)@.insert(key as int, element),
    {
        let ghost s = self.entries@;
        proof {
            lemma_map_of_contains(s, key as int);
        }
        let mut i: usize = 0;
        while i < self.entries.len()
            invariant
                self.entries@ == s,
                unique_keys(s),
                map_of(s) == old(self)@,
                0 <= i <= s.len(),
                exists|j: int| i <= j < s.len() && (#[trigger] s[j]).0 == key,
            decreases s.len() - i,
        {
            if self.entries[i].0 == key {
                proof {
                    lemma_map_of_update(s, i as int, element);
                    assert(s.update(i as int, (s[i as int].0, element)) =~= s.update(
                        i as int,
                        (key, element),
                    ));
                }
                self.entries[i] = (key, element);
                return ;
            }
            i = i + 1;
        }
        proof {
            let j = choose|j: int| i <= j < s.len() && (#[trigger] s[j]).0 == key;
            assert(false);
        }
    }
}

} // verus!
