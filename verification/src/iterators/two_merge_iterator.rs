//! Merging two streams, the first of which wins where both hold a key.

use vstd::prelude::*;
use crate::block::Entry;
use crate::error::Error;
use crate::iterators::{lemma_merge_two_head, lemma_merge_two_skip, merge_two, StorageIterator};
use crate::key::{key_equal, key_less, key_lt, lemma_key_lt_irreflexive};

verus! {

/// Merges two iterators of different types into one. If the two iterators have the same key, only
/// produce the key once and prefer the entry from A.
pub struct TwoMergeIterator<A: StorageIterator, B: StorageIterator> {
    a: A,
    b: B,
    choose_a: bool,
}

/// Whether the merged stream takes its first pair from `a`: `a` is not
/// exhausted, and `b` is or does not start with a smaller key.
pub open spec fn takes_first(a: Seq<Entry>, b: Seq<Entry>) -> bool {
    a.len() > 0 && (b.len() == 0 || !key_lt(b[0].0, a[0].0))
}

impl<A: StorageIterator, B: StorageIterator> TwoMergeIterator<A, B> {
    /// The stream of the first iterator.
    pub closed spec fn first(&self) -> Seq<Entry> {
        self.a.remaining()
    }

    /// The stream of the second iterator.
    pub closed spec fn second(&self) -> Seq<Entry> {
        self.b.remaining()
    }

    fn pick_first(a: &A, b: &B) -> (r: bool)
        requires
            a.inv(),
            b.inv(),
        ensures
            r == takes_first(a.remaining(), b.remaining()),
    {
        if !a.is_valid() {
            return false;
        }
        if !b.is_valid() {
            return true;
        }
        !key_less(b.key(), a.key())
    }

    /// Merges `a` and `b`.
    pub fn create(a: A, b: B) -> (it: Self)
        requires
            a.inv(),
            b.inv(),
        ensures
            it.inv(),
            it.first() == a.remaining(),
            it.second() == b.remaining(),
            it.remaining() == merge_two(a.remaining(), b.remaining()),
            it.infallible() == (a.infallible() && b.infallible()),
    {
        let choose_a = Self::pick_first(&a, &b);
        TwoMergeIterator { a, b, choose_a }
    }
}

impl<A: StorageIterator, B: StorageIterator> StorageIterator for TwoMergeIterator<A, B> {
    closed spec fn inv(&self) -> bool {
        &&& self.a.inv()
        &&& self.b.inv()
        &&& self.choose_a == takes_first(self.a.remaining(), self.b.remaining())
    }

    closed spec fn remaining(&self) -> Seq<Entry> {
        merge_two(self.a.remaining(), self.b.remaining())
    }

    closed spec fn infallible(&self) -> bool {
        self.a.infallible() && self.b.infallible()
    }

    fn value(&self) -> (v: &[u8]) {
        proof {
            lemma_merge_two_head(self.a.remaining(), self.b.remaining());
        }
        if self.choose_a {
            self.a.value()
        } else {
            self.b.value()
        }
    }

    fn key(&self) -> (k: &[u8]) {
        proof {
            lemma_merge_two_head(self.a.remaining(), self.b.remaining());
        }
        if self.choose_a {
            self.a.key()
        } else {
            self.b.key()
        }
    }

    fn is_valid(&self) -> (b: bool) {
        proof {
            lemma_merge_two_head(self.a.remaining(), self.b.remaining());
        }
        if self.choose_a {
            true
        } else {
            self.b.is_valid()
        }
    }

    fn next(&mut self) -> (r: Result<(), Error>) {
        let ghost a0 = self.a.remaining();
        let ghost b0 = self.b.remaining();
        proof {
            lemma_merge_two_head(a0, b0);
            lemma_merge_two_skip(a0, b0);
            if a0.len() > 0 {
                lemma_key_lt_irreflexive(a0[0].0);
            }
        }
        let both = self.choose_a && self.b.is_valid() && key_equal(self.a.key(), self.b.key());
        let moved = if self.choose_a {
            self.a.next()
        } else {
            self.b.next()
        };
        if let Err(e) = moved {
            self.choose_a = Self::pick_first(&self.a, &self.b);
            return Err(e);
        }
        if both {
            if let Err(e) = self.b.next() {
                self.choose_a = Self::pick_first(&self.a, &self.b);
                return Err(e);
            }
        }
        self.choose_a = Self::pick_first(&self.a, &self.b);
        Ok(())
    }
}

} // verus!
