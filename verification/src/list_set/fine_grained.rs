//! Sorted singly linked list set, searched from the head by stepping node to node.
use super::sorted_list::{self, lemma_contains_equiv, lemma_sorted_distinct, seq_of, strictly_sorted, Node};
use crate::order::{contains_equiv, is_total_order, without_equiv};
use vstd::prelude::*;

verus! {

/// Set kept as a strictly increasing singly linked list.
///
/// Values that compare equal count as one: the set holds at most one of them.
#[derive(Debug)]
pub struct FineGrainedListSet<T> {
    head: Option<Box<Node<T>>>,
}

impl<T> FineGrainedListSet<T> {
    /// The elements in list order.
    pub closed spec fn elements(&self) -> Seq<T> {
        seq_of(self.head)
    }

    /// Creates a new list.
    pub fn new() -> (set: Self)
        ensures
            set.elements() == Seq::<T>::empty(),
            set@ == Set::<T>::empty(),
    {
        let set = Self { head: None };
        assert(set@ =~= Set::<T>::empty());
        set
    }

    /// An iterator visiting all elements, smallest first.
    pub fn iter(&self) -> (it: Iter<'_, T>)
        ensures
            it@ == self.elements(),
    {
        Iter { cursor: &self.head }
    }
}

impl<T> View for FineGrainedListSet<T> {
    type V = Set<T>;

    open spec fn view(&self) -> Set<T> {
        self.elements().to_set()
    }
}

impl<T: Ord> FineGrainedListSet<T> {
    /// The list is strictly increasing.
    pub open spec fn wf(&self) -> bool {
        strictly_sorted(self.elements())
    }

    /// Iteration visits every element of the set exactly once, smallest first: the elements
    /// in list order are strictly increasing, distinct, and as many as the set has.
    pub proof fn lemma_iteration_order(&self)
        requires
            is_total_order::<T>(),
            self.wf(),
        ensures
            self.elements().no_duplicates(),
            self.elements().to_set() == self@,
            self.elements().len() == self@.len(),
    {
        lemma_sorted_distinct(self.elements());
    }

    /// Whether a value equal to `key` is in the set.
    pub fn contains(&self, key: &T) -> (found: bool)
        requires
            is_total_order::<T>(),
            self.wf(),
        ensures
            found == contains_equiv(self@, *key),
    {
        proof {
            lemma_contains_equiv(self.elements(), *key);
        }
        let (found, _cursor, _pos) = sorted_list::find(&self.head, key);
        found
    }

    /// Adds `key`; returns `false` and changes nothing when a value equal to it is there.
    pub fn insert(&mut self, key: T) -> (inserted: bool)
        requires
            is_total_order::<T>(),
            old(self).wf(),
        ensures
            final(self).wf(),
            inserted == !contains_equiv(old(self)@, key),
            final(self)@ == if inserted {
                old(self)@.insert(key)
            } else {
                old(self)@
            },
    {
        proof {
            lemma_contains_equiv(self.elements(), key);
        }
        let inserted = sorted_list::insert(&mut self.head, key);
        if inserted {
            assert(self@ =~= old(self)@.insert(key));
        } else {
            assert(self@ =~= old(self)@);
        }
        inserted
    }

    /// Removes the value equal to `key`; returns whether there was one.
    pub fn remove(&mut self, key: &T) -> (removed: bool)
        requires
            is_total_order::<T>(),
            old(self).wf(),
        ensures
            final(self).wf(),
            removed == contains_equiv(old(self)@, *key),
            final(self)@ == without_equiv(old(self)@, *key),
    {
        proof {
            lemma_contains_equiv(self.elements(), *key);
        }
        let removed = sorted_list::remove(&mut self.head, key);
        assert(self@ =~= without_equiv(old(self)@, *key));
        removed
    }
}

impl<T> Default for FineGrainedListSet<T> {
    fn default() -> (set: Self)
        ensures
            set.elements() == Seq::<T>::empty(),
            set@ == Set::<T>::empty(),
    {
        Self::new()
    }
}

/// Iterator over the elements of a [`FineGrainedListSet`], smallest first.
#[derive(Debug)]
pub struct Iter<'l, T> {
    cursor: &'l Option<Box<Node<T>>>,
}

impl<'l, T> View for Iter<'l, T> {
    type V = Seq<T>;

    /// The elements not visited yet.
    closed spec fn view(&self) -> Seq<T> {
        seq_of(*self.cursor)
    }
}

impl<'l, T> Iter<'l, T> {
    /// The next element, or `None` when all have been visited.
    pub fn next(&mut self) -> (item: Option<&'l T>)
        ensures
            old(self)@.len() == 0 ==> item is None && final(self)@ == old(self)@,
            old(self)@.len() > 0 ==> item == Some(&old(self)@[0]) && final(self)@
                == old(self)@.drop_first(),
    {
        match self.cursor {
            None => None,
            Some(node) => {
                assert(seq_of(*self.cursor) =~= seq![node.data] + seq_of(node.next));
                assert(seq_of(node.next) =~= seq_of(*self.cursor).drop_first());
                self.cursor = &node.next;
                Some(&node.data)
            },
        }
    }
}

} // verus!
