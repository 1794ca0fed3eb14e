//! Iterators over sorted streams of key-value pairs, and what merging
//! such streams means.

pub mod concat_iterator;
pub mod laws;
pub mod merge_iterator;
pub mod two_merge_iterator;

use vstd::prelude::*;
use crate::block::Entry;
use crate::error::Error;
use crate::key::{
    key_lt, lemma_key_lt_asymmetric, lemma_key_lt_irreflexive, lemma_key_lt_transitive,
    lemma_key_trichotomy,
};
use crate::wire::MAX_FIELD_LEN;

verus! {

/// A cursor over a stream of key-value pairs.
pub trait StorageIterator: Sized {
    /// The cursor is in a consistent state.
    spec fn inv(&self) -> bool;

    /// The pairs that the cursor has not passed yet, the current one
    /// first.
    spec fn remaining(&self) -> Seq<Entry>;

    /// No step that lies ahead can fail.
    spec fn infallible(&self) -> bool;

    /// Get the current value.
    fn value(&self) -> (v: &[u8])
        requires
            self.inv(),
            self.remaining().len() > 0,
        ensures
            v@ == self.remaining()[0].1,
            v@.len() <= MAX_FIELD_LEN,
    ;

    /// Get the current key.
    fn key(&self) -> (k: &[u8])
        requires
            self.inv(),
            self.remaining().len() > 0,
        ensures
            k@ == self.remaining()[0].0,
            k@.len() <= MAX_FIELD_LEN,
    ;

    /// Check if the current iterator is valid.
    fn is_valid(&self) -> (b: bool)
        requires
            self.inv(),
        ensures
            b == (self.remaining().len() > 0),
    ;

    /// Move to the next position.
    fn next(&mut self) -> (r: Result<(), Error>)
        requires
            old(self).inv(),
            old(self).remaining().len() > 0,
        ensures
            final(self).inv(),
            r is Ok ==> final(self).remaining() == old(self).remaining().skip(1),
            old(self).infallible() ==> r is Ok && final(self).infallible(),
    ;
}

/// The keys of the stream grow strictly from pair to pair.
pub open spec fn strictly_sorted(s: Seq<Entry>) -> bool {
    forall|i: int, j: int| 0 <= i < j < s.len() ==> key_lt(#[trigger] s[i].0, #[trigger] s[j].0)
}

/// The value stored under `key` in the stream, if any: that of the first
/// pair with this key.
pub open spec fn lookup(s: Seq<Entry>, key: Seq<u8>) -> Option<Seq<u8>>
    decreases s.len(),
{
    if s.len() == 0 {
        None
    } else if s[0].0 == key {
        Some(s[0].1)
    } else {
        lookup(s.skip(1), key)
    }
}

/// The streams `a` and `b` merged by key.  Where both hold a key, the
/// pair of `a` is taken and that of `b` dropped.
pub open spec fn merge_two(a: Seq<Entry>, b: Seq<Entry>) -> Seq<Entry>
    decreases a.len() + b.len(),
{
    if a.len() == 0 {
        b
    } else if b.len() == 0 {
        a
    } else if key_lt(a[0].0, b[0].0) {
        seq![a[0]] + merge_two(a.skip(1), b)
    } else if key_lt(b[0].0, a[0].0) {
        seq![b[0]] + merge_two(a, b.skip(1))
    } else {
        seq![a[0]] + merge_two(a.skip(1), b.skip(1))
    }
}

/// The streams merged by key.  Where several hold a key, the pair of the
/// stream with the smallest index is taken and the others dropped.
pub open spec fn merge_all(streams: Seq<Seq<Entry>>) -> Seq<Entry>
    decreases streams.len(),
{
    if streams.len() == 0 {
        Seq::empty()
    } else {
        merge_two(streams[0], merge_all(streams.skip(1)))
    }
}

/// `s` without its first pair if that pair has the key `key`.
pub open spec fn past_key(s: Seq<Entry>, key: Seq<u8>) -> Seq<Entry> {
    if s.len() > 0 && s[0].0 == key {
        s.skip(1)
    } else {
        s
    }
}

/// Every stream moved past the key `key`.
pub open spec fn all_past_key(streams: Seq<Seq<Entry>>, key: Seq<u8>) -> Seq<Seq<Entry>> {
    Seq::new(streams.len(), |i: int| past_key(streams[i], key))
}

/// `c` is the stream that the merged stream takes its first pair from:
/// the first of the streams whose first key is smallest.  When every
/// stream is exhausted, `c` is the number of streams.
pub open spec fn is_front(streams: Seq<Seq<Entry>>, c: int) -> bool {
    if c == streams.len() {
        forall|j: int| 0 <= j < streams.len() ==> (#[trigger] streams[j]).len() == 0
    } else {
        &&& 0 <= c < streams.len()
        &&& streams[c].len() > 0
        &&& forall|j: int|
            0 <= j < streams.len() && (#[trigger] streams[j]).len() > 0 ==> {
                &&& j < c ==> key_lt(streams[c][0].0, streams[j][0].0)
                &&& j > c ==> !key_lt(streams[j][0].0, streams[c][0].0)
            }
    }
}

/// The merged stream is exhausted exactly when both streams are, and
/// otherwise starts with the smaller first pair, that of `a` on a tie.
pub proof fn lemma_merge_two_head(a: Seq<Entry>, b: Seq<Entry>)
    ensures
        merge_two(a, b).len() == 0 <==> a.len() == 0 && b.len() == 0,
        a.len() > 0 && (b.len() == 0 || !key_lt(b[0].0, a[0].0)) ==> merge_two(a, b).len() > 0
            && merge_two(a, b)[0] == a[0],
        b.len() > 0 && (a.len() == 0 || key_lt(b[0].0, a[0].0)) ==> merge_two(a, b).len() > 0
            && merge_two(a, b)[0] == b[0],
{
    if a.len() > 0 && b.len() > 0 {
        lemma_key_lt_asymmetric(a[0].0, b[0].0);
    }
}

/// Dropping the first pair of the merged stream is moving both streams
/// past its key.
pub proof fn lemma_merge_two_skip(a: Seq<Entry>, b: Seq<Entry>)
    requires
        merge_two(a, b).len() > 0,
    ensures
        merge_two(a, b).skip(1) == merge_two(
            past_key(a, merge_two(a, b)[0].0),
            past_key(b, merge_two(a, b)[0].0),
        ),
{
    let m = merge_two(a, b);
    if a.len() == 0 {
    } else if b.len() == 0 {
    } else {
        lemma_key_lt_asymmetric(a[0].0, b[0].0);
        lemma_key_lt_irreflexive(a[0].0);
        lemma_key_lt_irreflexive(b[0].0);
        lemma_key_trichotomy(a[0].0, b[0].0);
        if key_lt(a[0].0, b[0].0) {
            assert(m.skip(1) =~= merge_two(a.skip(1), b));
        } else if key_lt(b[0].0, a[0].0) {
            assert(m.skip(1) =~= merge_two(a, b.skip(1)));
        } else {
            assert(m.skip(1) =~= merge_two(a.skip(1), b.skip(1)));
        }
    }
}

/// Merging a stream with an equally long one that has the same keys
/// gives the first stream: its values survive.
pub proof fn lemma_merge_two_same_keys(a: Seq<Entry>, b: Seq<Entry>)
    requires
        a.len() == b.len(),
        forall|i: int| 0 <= i < a.len() ==> a[i].0 == b[i].0,
    ensures
        merge_two(a, b) == a,
    decreases a.len(),
{
    if a.len() > 0 {
        lemma_key_lt_irreflexive(a[0].0);
        assert forall|i: int| 0 <= i < a.skip(1).len() implies a.skip(1)[i].0 == b.skip(1)[i].0 by {
            assert(a[i + 1].0 == b[i + 1].0);
        }
        lemma_merge_two_same_keys(a.skip(1), b.skip(1));
        assert(seq![a[0]] + a.skip(1) =~= a);
    }
}

/// The merged stream is exhausted exactly when every stream is.
pub proof fn lemma_merge_all_empty(streams: Seq<Seq<Entry>>)
    ensures
        merge_all(streams).len() == 0 <==> forall|j: int|
            0 <= j < streams.len() ==> (#[trigger] streams[j]).len() == 0,
    decreases streams.len(),
{
    if streams.len() > 0 {
        let rest = streams.skip(1);
        lemma_merge_all_empty(rest);
        lemma_merge_two_head(streams[0], merge_all(rest));
        if merge_all(streams).len() == 0 {
            assert forall|j: int| 0 <= j < streams.len() implies (#[trigger] streams[j]).len()
                == 0 by {
                if j > 0 {
                    assert(rest[j - 1] == streams[j]);
                }
            }
        } else if forall|j: int| 0 <= j < streams.len() ==> (#[trigger] streams[j]).len() == 0 {
            assert forall|j: int| 0 <= j < rest.len() implies (#[trigger] rest[j]).len() == 0 by {
                assert(rest[j] == streams[j + 1]);
            }
        }
    }
}

/// The merged stream starts with the first pair of the front stream.
pub proof fn lemma_merge_all_head(streams: Seq<Seq<Entry>>, c: int)
    requires
        is_front(streams, c),
        c < streams.len(),
    ensures
        merge_all(streams).len() > 0,
        merge_all(streams)[0] == streams[c][0],
    decreases streams.len(),
{
    let rest = streams.skip(1);
    let tail = merge_all(rest);
    lemma_merge_all_empty(rest);
    lemma_merge_two_head(streams[0], tail);
    if c == 0 {
        if tail.len() > 0 {
            let j = choose|j: int| 0 <= j < rest.len() && (#[trigger] rest[j]).len() > 0;
            lemma_front_exists(rest);
            let d = choose|d: int| is_front(rest, d) && d < rest.len();
            lemma_merge_all_head(rest, d);
            assert(rest[d] == streams[d + 1]);
            assert(streams[d + 1].len() > 0);
        }
    } else {
        assert(is_front(rest, c - 1)) by {
            assert(rest[c - 1] == streams[c]);
            assert forall|j: int| 0 <= j < rest.len() && (#[trigger] rest[j]).len() > 0 implies {
                &&& j < c - 1 ==> key_lt(rest[c - 1][0].0, rest[j][0].0)
                &&& j > c - 1 ==> !key_lt(rest[j][0].0, rest[c - 1][0].0)
            } by {
                assert(rest[j] == streams[j + 1]);
            }
        }
        lemma_merge_all_head(rest, c - 1);
        assert(rest[c - 1] == streams[c]);
    }
}

/// Unless every stream is exhausted, some stream is the front.
pub proof fn lemma_front_exists(streams: Seq<Seq<Entry>>)
    requires
        exists|j: int| 0 <= j < streams.len() && (#[trigger] streams[j]).len() > 0,
    ensures
        exists|c: int| is_front(streams, c) && c < streams.len(),
    decreases streams.len(),
{
    let n = streams.len() as int;
    let init = streams.take(n - 1);
    let last = streams[n - 1];
    if exists|j: int| 0 <= j < init.len() && (#[trigger] init[j]).len() > 0 {
        lemma_front_exists(init);
        let c = choose|c: int| is_front(init, c) && c < init.len();
        assert(init[c] == streams[c]);
        if last.len() > 0 && key_lt(last[0].0, streams[c][0].0) {
            assert(is_front(streams, n - 1)) by {
                assert forall|j: int| 0 <= j < n && (#[trigger] streams[j]).len() > 0 implies {
                    &&& j < n - 1 ==> key_lt(last[0].0, streams[j][0].0)
                } by {
                    if j < n - 1 {
                        assert(init[j] == streams[j]);
                        if j < c {
                            lemma_key_lt_transitive(last[0].0, streams[c][0].0, streams[j][0].0);
                        } else if j > c {
                            lemma_key_trichotomy(streams[c][0].0, streams[j][0].0);
                            if streams[c][0].0 != streams[j][0].0 {
                                lemma_key_lt_transitive(
                                    last[0].0,
                                    streams[c][0].0,
                                    streams[j][0].0,
                                );
                            }
                        }
                    }
                }
            }
        } else {
            assert(is_front(streams, c)) by {
                assert forall|j: int| 0 <= j < n && (#[trigger] streams[j]).len() > 0 implies {
                    &&& j < c ==> key_lt(streams[c][0].0, streams[j][0].0)
                    &&& j > c ==> !key_lt(streams[j][0].0, streams[c][0].0)
                } by {
                    if j < n - 1 {
                        assert(init[j] == streams[j]);
                    }
                }
            }
        }
    } else {
        assert(last.len() > 0) by {
            let j = choose|j: int| 0 <= j < streams.len() && (#[trigger] streams[j]).len() > 0;
            if j < n - 1 {
                assert(init[j] == streams[j]);
            }
        }
        assert(is_front(streams, n - 1)) by {
            assert forall|j: int| 0 <= j < n && (#[trigger] streams[j]).len() > 0 implies j == n
                - 1 by {
                if j < n - 1 {
                    assert(init[j] == streams[j]);
                }
            }
        }
    }
}

/// Dropping the first pair of the merged stream is moving every stream
/// past its key.
pub proof fn lemma_merge_all_skip(streams: Seq<Seq<Entry>>)
    requires
        merge_all(streams).len() > 0,
    ensures
        merge_all(streams).skip(1) == merge_all(all_past_key(streams, merge_all(streams)[0].0)),
    decreases streams.len(),
{
    let key = merge_all(streams)[0].0;
    let a = streams[0];
    let rest = streams.skip(1);
    let tail = merge_all(rest);
    lemma_merge_two_head(a, tail);
    lemma_merge_two_skip(a, tail);
    let moved = all_past_key(streams, key);
    assert(moved.skip(1) =~= all_past_key(rest, key)) by {
        assert forall|i: int| 0 <= i < rest.len() implies moved.skip(1)[i] == all_past_key(
            rest,
            key,
        )[i] by {
            assert(rest[i] == streams[i + 1]);
        }
    }
    assert(moved[0] == past_key(a, key));
    if tail.len() > 0 && tail[0].0 == key {
        lemma_merge_all_skip(rest);
    } else {
        // No stream of the rest starts with the key, so none of them moves.
        assert(past_key(tail, key) == tail);
        assert(all_past_key(rest, key) =~= rest) by {
            assert forall|i: int| 0 <= i < rest.len() implies past_key(rest[i], key)
                == rest[i] by {
                if rest[i].len() > 0 && rest[i][0].0 == key {
                    lemma_head_key_bound(rest, i);
                    if a.len() > 0 {
                        lemma_key_trichotomy(a[0].0, tail[0].0);
                    }
                }
            }
        }
    }
}

/// No stream starts with a key below that of the merged stream.
pub proof fn lemma_head_key_bound(streams: Seq<Seq<Entry>>, i: int)
    requires
        0 <= i < streams.len(),
        streams[i].len() > 0,
    ensures
        merge_all(streams).len() > 0,
        !key_lt(streams[i][0].0, merge_all(streams)[0].0),
    decreases streams.len(),
{
    let a = streams[0];
    let rest = streams.skip(1);
    let tail = merge_all(rest);
    lemma_merge_two_head(a, tail);
    if i == 0 {
        lemma_key_lt_irreflexive(a[0].0);
        if tail.len() > 0 {
            lemma_key_lt_asymmetric(a[0].0, tail[0].0);
        }
    } else {
        assert(rest[i - 1] == streams[i]);
        lemma_head_key_bound(rest, i - 1);
        if a.len() > 0 && !key_lt(tail[0].0, a[0].0) {
            if key_lt(streams[i][0].0, a[0].0) {
                lemma_key_trichotomy(a[0].0, tail[0].0);
                if a[0].0 != tail[0].0 {
                    lemma_key_lt_transitive(streams[i][0].0, a[0].0, tail[0].0);
                }
            }
        }
    }
}

} // verus!
