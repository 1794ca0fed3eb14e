//! Merging any number of streams, of which the one with the smallest
//! index wins where several hold a key.

use vstd::prelude::*;
use crate::block::Entry;
use crate::error::Error;
use crate::iterators::{
    all_past_key, is_front, lemma_merge_all_empty, lemma_merge_all_head, lemma_merge_all_skip,
    merge_all, past_key, StorageIterator,
};
use crate::key::{key_equal, key_less, key_lt};
use crate::table::copy_bytes;

verus! {

/// Merge multiple iterators of the same type. If the same key occurs multiple times in some
/// iterators, prefer the one with smaller index.
pub struct MergeIterator<I: StorageIterator> {
    iters: Vec<I>,
    /// The iterator that holds the current pair, or the number of
    /// iterators when all are exhausted.
    current: usize,
}

/// The streams of the iterators, in order.
pub open spec fn streams_of<I: StorageIterator>(iters: Seq<I>) -> Seq<Seq<Entry>> {
    Seq::new(iters.len(), |i: int| iters[i].remaining())
}

/// Every iterator is in a consistent state.
pub open spec fn all_inv<I: StorageIterator>(iters: Seq<I>) -> bool {
    forall|i: int| 0 <= i < iters.len() ==> (#[trigger] iters[i]).inv()
}

/// No iterator can fail.
pub open spec fn all_infallible<I: StorageIterator>(iters: Seq<I>) -> bool {
    forall|i: int| 0 <= i < iters.len() ==> (#[trigger] iters[i]).infallible()
}

impl<I: StorageIterator> MergeIterator<I> {
    /// The streams of the merged iterators, in order.
    pub closed spec fn streams(&self) -> Seq<Seq<Entry>> {
        streams_of(self.iters@)
    }

    /// The first of the iterators whose current key is smallest.
    fn find_front(iters: &Vec<I>) -> (c: usize)
        requires
            all_inv(iters@),
        ensures
            is_front(streams_of(iters@), c as int),
    {
        let n = iters.len();
        let ghost streams = streams_of(iters@);
        let mut best: usize = n;
        let mut i: usize = 0;
        while i < n
            invariant
                i <= n,
                n == iters@.len(),
                streams == streams_of(iters@),
                all_inv(iters@),
                best == n || best < i,
                best == n ==> forall|j: int| 0 <= j < i ==> (#[trigger] streams[j]).len() == 0,
                best < n ==> {
                    &&& streams[best as int].len() > 0
                    &&& forall|j: int|
                        0 <= j < i && (#[trigger] streams[j]).len() > 0 ==> {
                            &&& j < best ==> key_lt(streams[best as int][0].0, streams[j][0].0)
                            &&& j > best ==> !key_lt(streams[j][0].0, streams[best as int][0].0)
                        }
                },
            decreases n - i,
        {
            assert(iters@[i as int].inv());
            assert(streams[i as int] == iters@[i as int].remaining());
            if iters[i].is_valid() {
                if best == n {
                    best = i;
                } else {
                    assert(iters@[best as int].inv());
                    assert(streams[best as int] == iters@[best as int].remaining());
                    if key_less(iters[i].key(), iters[best].key()) {
                        proof {
                            let mine = streams[i as int][0].0;
                            let theirs = streams[best as int][0].0;
                            assert forall|j: int|
                                0 <= j < i && (#[trigger] streams[j]).len() > 0 implies key_lt(
                                mine,
                                streams[j][0].0,
                            ) by {
                                if j < best {
                                    crate::key::lemma_key_lt_transitive(
                                        mine,
                                        theirs,
                                        streams[j][0].0,
                                    );
                                } else if j > best {
                                    crate::key::lemma_key_lt_le(mine, theirs, streams[j][0].0);
                                }
                            }
                        }
                        best = i;
                    }
                }
            }
            i += 1;
        }
        best
    }

    /// Merges `iters`.  Over no iterators at all the result is exhausted
    /// from the start.
    pub fn create(iters: Vec<I>) -> (it: Self)
        requires
            all_inv(iters@),
        ensures
            it.inv(),
            it.streams() == streams_of(iters@),
            it.remaining() == merge_all(streams_of(iters@)),
            it.infallible() == all_infallible(iters@),
    {
        let current = Self::find_front(&iters);
        MergeIterator { iters, current }
    }
}

impl<I: StorageIterator> StorageIterator for MergeIterator<I> {
    closed spec fn inv(&self) -> bool {
        &&& all_inv(self.iters@)
        &&& is_front(streams_of(self.iters@), self.current as int)
    }

    closed spec fn remaining(&self) -> Seq<Entry> {
        merge_all(streams_of(self.iters@))
    }

    closed spec fn infallible(&self) -> bool {
        all_infallible(self.iters@)
    }

    fn value(&self) -> (v: &[u8]) {
        proof {
            lemma_merge_all_empty(streams_of(self.iters@));
            lemma_merge_all_head(streams_of(self.iters@), self.current as int);
            assert(self.iters@[self.current as int].inv());
        }
        self.iters[self.current].value()
    }

    fn key(&self) -> (k: &[u8]) {
        proof {
            lemma_merge_all_empty(streams_of(self.iters@));
            lemma_merge_all_head(streams_of(self.iters@), self.current as int);
            assert(self.iters@[self.current as int].inv());
        }
        self.iters[self.current].key()
    }

    fn is_valid(&self) -> (b: bool) {
        proof {
            lemma_merge_all_empty(streams_of(self.iters@));
        }
        self.current < self.iters.len()
    }

    fn next(&mut self) -> (r: Result<(), Error>) {
        let ghost before = streams_of(self.iters@);
        let ghost was_infallible = all_infallible(self.iters@);
        proof {
            lemma_merge_all_empty(before);
            lemma_merge_all_head(before, self.current as int);
            lemma_merge_all_skip(before);
            assert(self.iters@[self.current as int].inv());
        }
        let key = copy_bytes(self.iters[self.current].key());
        let n = self.iters.len();
        let mut failed: Option<Error> = None;
        let mut i: usize = 0;
        while i < n && failed.is_none()
            invariant
                i <= n,
                n == self.iters@.len(),
                n == before.len(),
                all_inv(self.iters@),
                was_infallible ==> all_infallible(self.iters@) && failed is None,
                failed is None ==> forall|j: int|
                    0 <= j < i ==> (#[trigger] self.iters@[j]).remaining() == past_key(
                        before[j],
                        key@,
                    ),
                failed is None ==> forall|j: int|
                    i <= j < n ==> (#[trigger] self.iters@[j]).remaining() == before[j],
            decreases n - i + (if failed is None { 1int } else { 0int }),
        {
            assert(self.iters@[i as int].inv());
            let here = self.iters[i].is_valid() && key_equal(self.iters[i].key(), key.as_slice());
            if here {
                let ghost others = self.iters@;
                let moved = self.iters[i].next();
                assert(forall|j: int| 0 <= j < n && j != i ==> self.iters@[j] == others[j]);
                if let Err(e) = moved {
                    failed = Some(e);
                }
            }
            if failed.is_none() {
                i += 1;
            }
        }
        self.current = Self::find_front(&self.iters);
        match failed {
            Some(e) => Err(e),
            None => {
                assert(streams_of(self.iters@) =~= all_past_key(before, key@));
                Ok(())
            },
        }
    }
}

} // verus!
