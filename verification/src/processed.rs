//! The files that one run has inlined so far.
//!
//! A file is entered before its text is inlined and never leaves, so no file
//! is inlined twice and a cycle of imports comes to an end. Files count as
//! the same where their paths have the same segments.

use crate::path::{same_segments, segments, split_path};
use crate::text::{to_chars, views_of};
use vstd::prelude::*;

verus! {

/// The set of the files inlined so far.
pub struct ProcessedSet {
    keys: Vec<Vec<Vec<char>>>,
}

/// The keys of `keys`, in order.
pub open spec fn key_views(keys: Seq<Vec<Vec<char>>>) -> Seq<Seq<Seq<char>>> {
    Seq::new(keys.len(), |k: int| views_of(keys[k]@))
}

impl View for ProcessedSet {
    type V = Set<Seq<Seq<char>>>;

    closed spec fn view(&self) -> Set<Seq<Seq<char>>> {
        key_views(self.keys@).to_set()
    }
}

impl ProcessedSet {
    /// The empty set.
    pub fn new() -> (set: Self)
        ensures
            set@ == Set::<Seq<Seq<char>>>::empty(),
    {
        let set = ProcessedSet { keys: Vec::new() };
        assert(set@ =~= Set::<Seq<Seq<char>>>::empty());
        set
    }

    /// The set is finite.
    pub proof fn lemma_finite(&self)
        ensures
            self@.finite(),
    {
        vstd::seq_lib::seq_to_set_is_finite(key_views(self.keys@));
    }

    /// Whether the file at `path` is in the set.
    pub fn contains(&self, path: &str) -> (b: bool)
        ensures
            b == self@.contains(segments(path@)),
    {
        let chars = to_chars(path);
        let key = split_path(chars.as_slice());
        self.has_key(&key)
    }

    /// Whether `key` is in the set.
    fn has_key(&self, key: &Vec<Vec<char>>) -> (b: bool)
        ensures
            b == self@.contains(views_of(key@)),
    {
        let mut i: usize = 0;
        while i < self.keys.len()
            invariant
                i <= self.keys@.len(),
                forall|j: int| 0 <= j < i ==> key_views(self.keys@)[j] != views_of(key@),
            decreases self.keys@.len() - i,
        {
            if same_segments(&self.keys[i], key) {
                assert(key_views(self.keys@)[i as int] == views_of(key@));
                return true;
            }
            i += 1;
        }
        false
    }

    /// Puts the file at `path` into the set, and says whether it was new.
    pub fn insert(&mut self, path: &str) -> (added: bool)
        ensures
            final(self)@ == old(self)@.insert(segments(path@)),
            added == !old(self)@.contains(segments(path@)),
    {
        let chars = to_chars(path);
        let key = split_path(chars.as_slice());
        if self.has_key(&key) {
            assert(self@.insert(segments(path@)) =~= self@);
            return false;
        }
        proof {
            let before = key_views(self.keys@);
            let after = key_views(self.keys@.push(key));
            assert(after =~= before.push(views_of(key@)));
            vstd::seq_lib::seq_to_set_is_finite(before);
            assert(after.to_set() =~= before.to_set().insert(views_of(key@))) by {
                assert forall|x: Seq<Seq<char>>| after.to_set().contains(x) <==> before.to_set().insert(
                    views_of(key@),
                ).contains(x) by {
                    if after.contains(x) {
                        let i = after.index_of(x);
                        if i < before.len() {
                            assert(before[i] == x);
                        }
                    }
                    if before.contains(x) {
                        let i = before.index_of(x);
                        assert(after[i] == x);
                    }
                    if x == views_of(key@) {
                        assert(after[before.len() as int] == x);
                    }
                }
            }
        }
        self.keys.push(key);
        true
    }
}

} // verus!
