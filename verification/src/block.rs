//! Data blocks: a run of key-value pairs, each stored as two
//! length-prefixed byte strings.

use vstd::prelude::*;
use crate::error::{Error, FormatError};
use crate::wire::{
    field_encoding, lemma_encoding_of_parse_field, lemma_field_encoding_len,
    lemma_parse_field_of_encoding, parse_field, read_field, write_field, MAX_FIELD_LEN,
};

verus! {

/// A key with its value; an empty value marks the key as deleted.
pub type Entry = (Seq<u8>, Seq<u8>);

/// The views of a sequence of key-value pairs, in order.
pub open spec fn entries_view(es: Seq<(Vec<u8>, Vec<u8>)>) -> Seq<Entry> {
    es.map_values(|e: (Vec<u8>, Vec<u8>)| (e.0@, e.1@))
}

/// Key and value each fit a 16-bit length prefix.
pub open spec fn entry_encodable(e: Entry) -> bool {
    e.0.len() <= MAX_FIELD_LEN && e.1.len() <= MAX_FIELD_LEN
}

/// Every pair of the sequence can be written down.
pub open spec fn entries_encodable(es: Seq<Entry>) -> bool {
    forall|i: int| 0 <= i < es.len() ==> entry_encodable(#[trigger] es[i])
}

/// The record of a pair: the key, then the value, each preceded by its
/// length.
pub open spec fn entry_encoding(e: Entry) -> Seq<u8> {
    field_encoding(e.0) + field_encoding(e.1)
}

/// The number of bytes that the record of a pair takes.
pub open spec fn entry_size(e: Entry) -> nat {
    4 + e.0.len() + e.1.len()
}

/// The number of bytes that the records of the pairs take together.
pub open spec fn entries_size(es: Seq<Entry>) -> nat
    decreases es.len(),
{
    if es.len() == 0 {
        0
    } else {
        entries_size(es.drop_last()) + entry_size(es.last())
    }
}

/// The records of the pairs, one after another.
pub open spec fn encode_entries(es: Seq<Entry>) -> Seq<u8>
    decreases es.len(),
{
    if es.len() == 0 {
        Seq::empty()
    } else {
        entry_encoding(es[0]) + encode_entries(es.skip(1))
    }
}

/// Reads one record from the front of `b`: the pair and the number of
/// bytes it occupied, or `None` when `b` ends inside the record.
pub open spec fn parse_entry(b: Seq<u8>) -> Option<(Entry, int)> {
    match parse_field(b) {
        None => None,
        Some((key, n1)) => match parse_field(b.skip(n1)) {
            None => None,
            Some((value, n2)) => Some(((key, value), n1 + n2)),
        },
    }
}

/// Reads records until `b` is used up; `None` when `b` ends inside a
/// record.
pub open spec fn decode_entries(b: Seq<u8>) -> Option<Seq<Entry>>
    decreases b.len(),
{
    if b.len() == 0 {
        Some(Seq::empty())
    } else {
        match parse_entry(b) {
            None => None,
            Some((e, n)) => if 0 < n <= b.len() {
                match decode_entries(b.skip(n)) {
                    None => None,
                    Some(rest) => Some(seq![e] + rest),
                }
            } else {
                None
            },
        }
    }
}

/// The pairs of a data block: a block holds at least one record and is
/// filled by its records exactly.
pub open spec fn decode_block(b: Seq<u8>) -> Option<Seq<Entry>> {
    if b.len() == 0 {
        None
    } else {
        decode_entries(b)
    }
}

/// A record takes four bytes more than its key and value together.
pub proof fn lemma_entry_encoding_len(e: Entry)
    ensures
        entry_encoding(e).len() == entry_size(e),
{
    lemma_field_encoding_len(e.0);
    lemma_field_encoding_len(e.1);
}

/// A record that was written is read back, whatever follows it.
pub proof fn lemma_parse_entry_of_encoding(e: Entry, rest: Seq<u8>)
    requires
        entry_encodable(e),
    ensures
        parse_entry(entry_encoding(e) + rest) == Some((e, entry_size(e) as int)),
{
    let b = entry_encoding(e) + rest;
    let tail = field_encoding(e.1) + rest;
    lemma_field_encoding_len(e.0);
    lemma_field_encoding_len(e.1);
    assert(b =~= field_encoding(e.0) + tail);
    lemma_parse_field_of_encoding(e.0, tail);
    let n1 = 2 + e.0.len() as int;
    assert(b.skip(n1) =~= tail);
    lemma_parse_field_of_encoding(e.1, rest);
}

/// What was read from the front of `b` is what `b` starts with.
pub proof fn lemma_encoding_of_parse_entry(b: Seq<u8>)
    requires
        parse_entry(b) is Some,
    ensures
        ({
            let (e, n) = parse_entry(b)->0;
            &&& entry_encodable(e)
            &&& n == entry_size(e)
            &&& n <= b.len()
            &&& b.take(n) == entry_encoding(e)
        }),
{
    let (e, n) = parse_entry(b)->0;
    let (key, n1) = parse_field(b)->0;
    let (value, n2) = parse_field(b.skip(n1))->0;
    lemma_encoding_of_parse_field(b);
    lemma_encoding_of_parse_field(b.skip(n1));
    assert(b.skip(n1).take(n2) =~= b.subrange(n1, n1 + n2));
    assert(b.take(n) =~= b.take(n1) + b.subrange(n1, n1 + n2));
}

/// The encoding of a non-empty sequence starts with its first record.
proof fn lemma_encode_entries_step(e: Entry, rest: Seq<Entry>)
    ensures
        encode_entries(seq![e] + rest) == entry_encoding(e) + encode_entries(rest),
{
    let es = seq![e] + rest;
    assert(es[0] == e);
    assert(es.skip(1) =~= rest);
}

/// How a successful decoding of a non-empty region splits into its first
/// record and the decoding of what follows.
proof fn lemma_decode_entries_step(b: Seq<u8>)
    requires
        decode_entries(b) is Some,
        b.len() > 0,
    ensures
        parse_entry(b) is Some,
        ({
            let (e, n) = parse_entry(b)->0;
            &&& 0 < n <= b.len()
            &&& decode_entries(b.skip(n)) is Some
            &&& decode_entries(b)->0 == seq![e] + decode_entries(b.skip(n))->0
        }),
{
}

/// Decoding the encoding of a sequence of pairs gives the sequence back.
pub proof fn lemma_decode_encode_entries(es: Seq<Entry>)
    requires
        entries_encodable(es),
    ensures
        decode_entries(encode_entries(es)) == Some(es),
    decreases es.len(),
{
    if es.len() > 0 {
        let rest = encode_entries(es.skip(1));
        let b = encode_entries(es);
        lemma_parse_entry_of_encoding(es[0], rest);
        lemma_entry_encoding_len(es[0]);
        let n = entry_size(es[0]) as int;
        assert(b.skip(n) =~= rest);
        assert forall|i: int| 0 <= i < es.skip(1).len() implies entry_encodable(
            #[trigger] es.skip(1)[i],
        ) by {
            assert(entry_encodable(es[i + 1]));
        }
        lemma_decode_encode_entries(es.skip(1));
        assert(seq![es[0]] + es.skip(1) =~= es);
    }
}

/// Bytes that decode to a sequence of pairs are the encoding of that
/// sequence, and each pair in it can be written down.
pub proof fn lemma_encode_decode_entries(b: Seq<u8>)
    requires
        decode_entries(b) is Some,
    ensures
        entries_encodable(decode_entries(b)->0),
        encode_entries(decode_entries(b)->0) == b,
        b.len() > 0 ==> decode_entries(b)->0.len() > 0,
    decreases b.len(),
{
    let es = decode_entries(b)->0;
    if b.len() > 0 {
        lemma_decode_entries_step(b);
        let (e, n) = parse_entry(b)->0;
        let rest = decode_entries(b.skip(n))->0;
        lemma_encoding_of_parse_entry(b);
        lemma_encode_decode_entries(b.skip(n));
        lemma_encode_entries_step(e, rest);
        assert(b =~= b.take(n) + b.skip(n));
        assert forall|i: int| 0 <= i < es.len() implies entry_encodable(#[trigger] es[i]) by {
            if i > 0 {
                assert(es[i] == rest[i - 1]);
            }
        }
    } else {
        assert(es.len() == 0);
        assert(b =~= Seq::<u8>::empty());
    }
}

/// Encoding distributes over appending one more pair.
pub proof fn lemma_encode_entries_push(es: Seq<Entry>, e: Entry)
    ensures
        encode_entries(es.push(e)) == encode_entries(es) + entry_encoding(e),
    decreases es.len(),
{
    if es.len() == 0 {
        assert(es.push(e).skip(1) =~= Seq::<Entry>::empty());
        assert(encode_entries(es.push(e)) =~= entry_encoding(e) + encode_entries(
            es.push(e).skip(1),
        ));
        assert(encode_entries(es.push(e)) =~= encode_entries(es) + entry_encoding(e));
    } else {
        lemma_encode_entries_push(es.skip(1), e);
        assert(es.push(e).skip(1) =~= es.skip(1).push(e));
        assert(encode_entries(es.push(e)) =~= encode_entries(es) + entry_encoding(e));
    }
}

/// The encoding of a sequence of pairs is as long as their records
/// together.
pub proof fn lemma_encode_entries_len(es: Seq<Entry>)
    ensures
        encode_entries(es).len() == entries_size(es),
    decreases es.len(),
{
    if es.len() > 0 {
        lemma_encode_entries_len(es.drop_last());
        lemma_encode_entries_push(es.drop_last(), es.last());
        lemma_entry_encoding_len(es.last());
        assert(es.drop_last().push(es.last()) =~= es);
    }
}

/// A decoded data block.
#[derive(Debug, Clone, PartialEq, Eq)]
pub struct Block {
    /// The pairs of the block, in the order in which they are stored.
    pub entries: Vec<(Vec<u8>, Vec<u8>)>,
}

impl View for Block {
    type V = Seq<Entry>;

    open spec fn view(&self) -> Seq<Entry> {
        entries_view(self.entries@)
    }
}

/// Appends the records of the pairs to `buf`.
pub fn write_entries(entries: &[(Vec<u8>, Vec<u8>)], buf: &mut Vec<u8>)
    requires
        entries_encodable(entries_view(entries@)),
    ensures
        final(buf)@ == old(buf)@ + encode_entries(entries_view(entries@)),
{
    let ghost es = entries_view(entries@);
    let mut i: usize = 0;
    assert(es.take(0) =~= Seq::<Entry>::empty());
    assert(buf@ =~= old(buf)@ + encode_entries(es.take(0)));
    while i < entries.len()
        invariant
            i <= entries@.len(),
            es == entries_view(entries@),
            entries_encodable(es),
            buf@ == old(buf)@ + encode_entries(es.take(i as int)),
        decreases entries@.len() - i,
    {
        let entry = &entries[i];
        let ghost before = buf@;
        assert(es[i as int] == (entry.0@, entry.1@));
        assert(entry_encodable(es[i as int]));
        write_field(buf, entry.0.as_slice());
        write_field(buf, entry.1.as_slice());
        proof {
            lemma_encode_entries_push(es.take(i as int), es[i as int]);
            assert(es.take(i + 1) =~= es.take(i as int).push(es[i as int]));
            assert(buf@ =~= before + entry_encoding(es[i as int]));
            assert(buf@ =~= old(buf)@ + encode_entries(es.take(i + 1)));
        }
        i += 1;
    }
    assert(es.take(i as int) =~= es);
}

impl Block {
    /// The bytes of the block: the records of its pairs.
    pub fn encode(&self) -> (out: Vec<u8>)
        requires
            entries_encodable(self@),
        ensures
            out@ == encode_entries(self@),
    {
        let mut out: Vec<u8> = Vec::new();
        write_entries(self.entries.as_slice(), &mut out);
        assert(out@ =~= encode_entries(self@));
        out
    }

    /// Decodes a data block: the pairs whose records fill `data` exactly.
    /// Fails with [`FormatError::Truncated`] when `data` is empty or ends
    /// inside a record.
    pub fn decode(data: &[u8]) -> (r: Result<Block, Error>)
        ensures
            match r {
                Ok(block) => decode_block(data@) == Some(block@),
                Err(e) => decode_block(data@) is None && e == Error::Format(FormatError::Truncated),
            },
    {
        if data.len() == 0 {
            return Err(Error::Format(FormatError::Truncated));
        }
        let mut entries: Vec<(Vec<u8>, Vec<u8>)> = Vec::new();
        let mut pos: usize = 0;
        assert(data@.skip(0) =~= data@);
        assert(entries_view(entries@) =~= Seq::<Entry>::empty());
        while pos < data.len()
            invariant
                pos <= data@.len(),
                decode_entries(data@) == match decode_entries(data@.skip(pos as int)) {
                    None => None::<Seq<Entry>>,
                    Some(rest) => Some(entries_view(entries@) + rest),
                },
            decreases data@.len() - pos,
        {
            let ghost rest = data@.skip(pos as int);
            let (key, after_key) = match read_field(data, pos) {
                Some(found) => found,
                None => {
                    return Err(Error::Format(FormatError::Truncated));
                },
            };
            assert(rest.skip(after_key - pos) =~= data@.skip(after_key as int));
            let (value, after_value) = match read_field(data, after_key) {
                Some(found) => found,
                None => {
                    return Err(Error::Format(FormatError::Truncated));
                },
            };
            proof {
                let n = after_value - pos;
                assert(parse_entry(rest) == Some(((key@, value@), n)));
                assert(rest.skip(n) =~= data@.skip(after_value as int));
                let prev = entries_view(entries@);
                assert(entries_view(entries@.push((key, value))) =~= prev.push((key@, value@)));
                if decode_entries(data@.skip(after_value as int)) is Some {
                    let tail = decode_entries(data@.skip(after_value as int))->0;
                    assert(prev + (seq![(key@, value@)] + tail) =~= prev.push((key@, value@))
                        + tail);
                }
            }
            entries.push((key, value));
            pos = after_value;
        }
        assert(data@.skip(pos as int) =~= Seq::<u8>::empty());
        assert(entries_view(entries@) + Seq::<Entry>::empty() =~= entries_view(entries@));
        Ok(Block { entries })
    }
}

} // verus!
