//! What merging does to lookups: a merged stream answers every lookup
//! as the streams it was merged from would, asked in order of priority.

use vstd::prelude::*;
use crate::block::Entry;
use crate::iterators::{lookup, merge_all, merge_two, strictly_sorted};
use crate::key::{
    key_lt, lemma_key_lt_asymmetric, lemma_key_lt_irreflexive, lemma_key_lt_transitive,
    lemma_key_trichotomy,
};

verus! {

/// Every key of the stream lies above `x`.
pub open spec fn all_keys_above(s: Seq<Entry>, x: Seq<u8>) -> bool {
    forall|i: int| 0 <= i < s.len() ==> key_lt(x, (#[trigger] s[i]).0)
}

/// The first of two answers, if there is one, else the second.
pub open spec fn or_else(first: Option<Seq<u8>>, second: Option<Seq<u8>>) -> Option<Seq<u8>> {
    match first {
        Some(v) => Some(v),
        None => second,
    }
}

/// The value stored under `key` in the first of the streams that holds
/// the key at all.
pub open spec fn first_hit(streams: Seq<Seq<Entry>>, key: Seq<u8>) -> Option<Seq<u8>>
    decreases streams.len(),
{
    if streams.len() == 0 {
        None
    } else {
        or_else(lookup(streams[0], key), first_hit(streams.skip(1), key))
    }
}

/// What a reader is shown for an answer: a tombstone reads as no value.
pub open spec fn visible(answer: Option<Seq<u8>>) -> Option<Seq<u8>> {
    match answer {
        Some(v) => if v.len() == 0 {
            None
        } else {
            Some(v)
        },
        None => None,
    }
}

/// Every stream is strictly sorted.
pub open spec fn all_sorted(streams: Seq<Seq<Entry>>) -> bool {
    forall|i: int| 0 <= i < streams.len() ==> strictly_sorted(#[trigger] streams[i])
}

/// A stream is strictly sorted exactly when its first key lies below all
/// others and the rest is strictly sorted.
pub proof fn lemma_sorted_cons(e: Entry, rest: Seq<Entry>)
    ensures
        strictly_sorted(seq![e] + rest) <==> all_keys_above(rest, e.0) && strictly_sorted(rest),
{
    let s = seq![e] + rest;
    if strictly_sorted(s) {
        assert forall|i: int| 0 <= i < rest.len() implies key_lt(e.0, (#[trigger] rest[i]).0) by {
            assert(s[0] == e && s[i + 1] == rest[i]);
        }
        assert forall|i: int, j: int| 0 <= i < j < rest.len() implies key_lt(
            #[trigger] rest[i].0,
            #[trigger] rest[j].0,
        ) by {
            assert(s[i + 1] == rest[i] && s[j + 1] == rest[j]);
        }
    }
    if all_keys_above(rest, e.0) && strictly_sorted(rest) {
        assert forall|i: int, j: int| 0 <= i < j < s.len() implies key_lt(
            #[trigger] s[i].0,
            #[trigger] s[j].0,
        ) by {
            assert(s[j] == rest[j - 1]);
            if i > 0 {
                assert(s[i] == rest[i - 1]);
            }
        }
    }
}

/// The rest of a strictly sorted stream is strictly sorted and lies above
/// the first key.
pub proof fn lemma_sorted_rest(s: Seq<Entry>)
    requires
        strictly_sorted(s),
        s.len() > 0,
    ensures
        strictly_sorted(s.skip(1)),
        all_keys_above(s.skip(1), s[0].0),
{
    assert(seq![s[0]] + s.skip(1) =~= s);
    lemma_sorted_cons(s[0], s.skip(1));
}

/// A key below all keys of a stream is not in the stream.
pub proof fn lemma_lookup_below(s: Seq<Entry>, x: Seq<u8>, key: Seq<u8>)
    requires
        all_keys_above(s, x),
        key == x || key_lt(key, x),
    ensures
        lookup(s, key) is None,
    decreases s.len(),
{
    if s.len() > 0 {
        assert(key_lt(x, s[0].0));
        if key != x {
            lemma_key_lt_transitive(key, x, s[0].0);
        }
        lemma_key_lt_irreflexive(key);
        assert forall|i: int| 0 <= i < s.skip(1).len() implies key_lt(
            x,
            (#[trigger] s.skip(1)[i]).0,
        ) by {
            assert(s.skip(1)[i] == s[i + 1]);
        }
        lemma_lookup_below(s.skip(1), x, key);
    }
}

/// Keys above `x` stay above any smaller key.
pub proof fn lemma_above_smaller(s: Seq<Entry>, x: Seq<u8>, y: Seq<u8>)
    requires
        all_keys_above(s, x),
        key_lt(y, x),
    ensures
        all_keys_above(s, y),
{
    assert forall|i: int| 0 <= i < s.len() implies key_lt(y, (#[trigger] s[i]).0) by {
        lemma_key_lt_transitive(y, x, s[i].0);
    }
}

/// Merging streams whose keys lie above `x` gives a stream whose keys lie
/// above `x`.
pub proof fn lemma_merge_two_above(a: Seq<Entry>, b: Seq<Entry>, x: Seq<u8>)
    requires
        all_keys_above(a, x),
        all_keys_above(b, x),
    ensures
        all_keys_above(merge_two(a, b), x),
    decreases a.len() + b.len(),
{
    if a.len() > 0 && b.len() > 0 {
        assert(key_lt(x, a[0].0) && key_lt(x, b[0].0));
        assert forall|i: int| 0 <= i < a.skip(1).len() implies key_lt(
            x,
            (#[trigger] a.skip(1)[i]).0,
        ) by {
            assert(a.skip(1)[i] == a[i + 1]);
        }
        assert forall|i: int| 0 <= i < b.skip(1).len() implies key_lt(
            x,
            (#[trigger] b.skip(1)[i]).0,
        ) by {
            assert(b.skip(1)[i] == b[i + 1]);
        }
        let m = merge_two(a, b);
        if key_lt(a[0].0, b[0].0) {
            lemma_merge_two_above(a.skip(1), b, x);
            let rest = merge_two(a.skip(1), b);
            assert forall|i: int| 0 <= i < m.len() implies key_lt(x, (#[trigger] m[i]).0) by {
                if i > 0 {
                    assert(m[i] == rest[i - 1]);
                }
            }
        } else if key_lt(b[0].0, a[0].0) {
            lemma_merge_two_above(a, b.skip(1), x);
            let rest = merge_two(a, b.skip(1));
            assert forall|i: int| 0 <= i < m.len() implies key_lt(x, (#[trigger] m[i]).0) by {
                if i > 0 {
                    assert(m[i] == rest[i - 1]);
                }
            }
        } else {
            lemma_merge_two_above(a.skip(1), b.skip(1), x);
            let rest = merge_two(a.skip(1), b.skip(1));
            assert forall|i: int| 0 <= i < m.len() implies key_lt(x, (#[trigger] m[i]).0) by {
                if i > 0 {
                    assert(m[i] == rest[i - 1]);
                }
            }
        }
    }
}

/// Merging two strictly sorted streams gives a strictly sorted stream,
/// which answers every lookup as the first stream does, or, where the
/// first does not hold the key, as the second does.
pub proof fn lemma_merge_two_lookup(a: Seq<Entry>, b: Seq<Entry>, key: Seq<u8>)
    requires
        strictly_sorted(a),
        strictly_sorted(b),
    ensures
        strictly_sorted(merge_two(a, b)),
        lookup(merge_two(a, b), key) == or_else(lookup(a, key), lookup(b, key)),
    decreases a.len() + b.len(),
{
    if a.len() > 0 && b.len() > 0 {
        lemma_sorted_rest(a);
        lemma_sorted_rest(b);
        lemma_key_lt_irreflexive(a[0].0);
        lemma_key_lt_asymmetric(a[0].0, b[0].0);
        lemma_key_trichotomy(a[0].0, b[0].0);
        let m = merge_two(a, b);
        if key_lt(a[0].0, b[0].0) {
            let rest = merge_two(a.skip(1), b);
            lemma_merge_two_lookup(a.skip(1), b, key);
            assert(all_keys_above(b, a[0].0)) by {
                assert(seq![b[0]] + b.skip(1) =~= b);
                lemma_above_smaller(b.skip(1), b[0].0, a[0].0);
                assert forall|i: int| 0 <= i < b.len() implies key_lt(
                    a[0].0,
                    (#[trigger] b[i]).0,
                ) by {
                    if i > 0 {
                        assert(b[i] == b.skip(1)[i - 1]);
                    }
                }
            }
            lemma_merge_two_above(a.skip(1), b, a[0].0);
            lemma_sorted_cons(a[0], rest);
            assert(m.skip(1) =~= rest);
        } else if key_lt(b[0].0, a[0].0) {
            let rest = merge_two(a, b.skip(1));
            lemma_merge_two_lookup(a, b.skip(1), key);
            assert(all_keys_above(a, b[0].0)) by {
                lemma_above_smaller(a.skip(1), a[0].0, b[0].0);
                assert forall|i: int| 0 <= i < a.len() implies key_lt(
                    b[0].0,
                    (#[trigger] a[i]).0,
                ) by {
                    if i > 0 {
                        assert(a[i] == a.skip(1)[i - 1]);
                    }
                }
            }
            lemma_merge_two_above(a, b.skip(1), b[0].0);
            lemma_sorted_cons(b[0], rest);
            assert(m.skip(1) =~= rest);
            if key == b[0].0 {
                lemma_lookup_below(a, b[0].0, key);
            }
        } else {
            let rest = merge_two(a.skip(1), b.skip(1));
            lemma_merge_two_lookup(a.skip(1), b.skip(1), key);
            lemma_merge_two_above(a.skip(1), b.skip(1), a[0].0);
            lemma_sorted_cons(a[0], rest);
            assert(m.skip(1) =~= rest);
        }
    }
}

/// Merging strictly sorted streams gives a strictly sorted stream, which
/// answers every lookup as the first of the streams that holds the key.
pub proof fn lemma_merge_all_lookup(streams: Seq<Seq<Entry>>, key: Seq<u8>)
    requires
        all_sorted(streams),
    ensures
        strictly_sorted(merge_all(streams)),
        lookup(merge_all(streams), key) == first_hit(streams, key),
    decreases streams.len(),
{
    if streams.len() > 0 {
        let rest = streams.skip(1);
        assert forall|i: int| 0 <= i < rest.len() implies strictly_sorted(#[trigger] rest[i]) by {
            assert(rest[i] == streams[i + 1]);
        }
        lemma_merge_all_lookup(rest, key);
        assert(strictly_sorted(streams[0]));
        lemma_merge_two_lookup(streams[0], merge_all(rest), key);
    }
}

/// A stream followed by another answers every lookup as the first does,
/// or, where the first does not hold the key, as the second does.
pub proof fn lemma_concat_lookup(a: Seq<Entry>, b: Seq<Entry>, key: Seq<u8>)
    ensures
        lookup(a + b, key) == or_else(lookup(a, key), lookup(b, key)),
    decreases a.len(),
{
    if a.len() == 0 {
        assert(a + b =~= b);
    } else {
        assert((a + b).skip(1) =~= a.skip(1) + b);
        lemma_concat_lookup(a.skip(1), b, key);
    }
}

/// Merging no streams at all gives the empty stream.
pub proof fn lemma_merge_all_of_nothing()
    ensures
        merge_all(Seq::<Seq<Entry>>::empty()).len() == 0,
{
}

/// Merging two streams that hold the same keys, pair by pair, gives the
/// first of them: the values of the stream with the lower index survive.
pub proof fn lemma_merge_all_same_keys(a: Seq<Entry>, b: Seq<Entry>)
    requires
        a.len() == b.len(),
        forall|i: int| 0 <= i < a.len() ==> a[i].0 == b[i].0,
    ensures
        merge_all(seq![a, b]) == a,
{
    let streams = seq![a, b];
    assert(streams.skip(1) =~= seq![b]);
    assert(seq![b].skip(1) =~= Seq::<Seq<Entry>>::empty());
    assert(merge_all(seq![b]) == merge_two(b, merge_all(seq![b].skip(1))));
    assert(merge_all(seq![b]) =~= b);
    crate::iterators::lemma_merge_two_same_keys(a, b);
}

} // verus!
