//! The record codec: a self-delimiting binary encoding for write-ahead-log
//! records `(crc, key, value?)` and table entries `(key, value?)`.
//!
//! The byte format itself is produced and consumed by `bincode` with its
//! standard configuration and is treated as a black box: the two spec names
//! [`record_enc`] and [`entry_enc`] stand for the encodings, and the trusted
//! wrappers below state the two facts every caller needs: an encoder returns
//! exactly the named byte string, and a decoder applied to a byte stream that
//! starts with a named encoding returns that record and consumes exactly it.

use vstd::prelude::*;
use crate::bytes::opt_view;

verus! {

/// The view of one table entry: a key and an optional payload, `None`
/// denoting a tombstone.
pub struct EntryView {
    pub key: Seq<u8>,
    pub value: Option<Seq<u8>>,
}

/// The view of one log record: a checksum over the entry plus the entry.
pub struct RecordView {
    pub crc: u32,
    pub key: Seq<u8>,
    pub value: Option<Seq<u8>>,
}

/// The bytes that the codec produces for one table entry.
pub uninterp spec fn entry_enc(key: Seq<u8>, value: Option<Seq<u8>>) -> Seq<u8>;

/// The bytes that the codec produces for one log record.
pub uninterp spec fn record_enc(crc: u32, key: Seq<u8>, value: Option<Seq<u8>>) -> Seq<u8>;

/// The concatenated encoding of a sequence of table entries: the contents of
/// a table file.
pub open spec fn entries_enc(es: Seq<EntryView>) -> Seq<u8>
    decreases es.len(),
{
    if es.len() == 0 {
        Seq::empty()
    } else {
        entry_enc(es[0].key, es[0].value) + entries_enc(es.drop_first())
    }
}

/// The concatenated encoding of a sequence of log records: the contents of a
/// write-ahead-log file.
pub open spec fn records_enc(rs: Seq<RecordView>) -> Seq<u8>
    decreases rs.len(),
{
    if rs.len() == 0 {
        Seq::empty()
    } else {
        record_enc(rs[0].crc, rs[0].key, rs[0].value) + records_enc(rs.drop_first())
    }
}

/// Relies on `bincode::encode_to_vec` with the standard configuration: the
/// encoding of a `(Vec<u8>, Option<Vec<u8>>)` pair is a deterministic
/// function of the two values.
#[verifier::external_body]
pub fn encode_entry(key: &Vec<u8>, value: &Option<Vec<u8>>) -> (r: Vec<u8>)
    ensures
        r@ == entry_enc(key@, opt_view(*value)),
{
    bincode::encode_to_vec((key, value), bincode::config::standard()).unwrap()
}

/// Relies on `bincode::encode_to_vec` with the standard configuration: the
/// encoding of a `(u32, Vec<u8>, Option<Vec<u8>>)` triple is a deterministic
/// function of the three values.
#[verifier::external_body]
pub fn encode_record(crc: u32, key: &Vec<u8>, value: &Option<Vec<u8>>) -> (r: Vec<u8>)
    ensures
        r@ == record_enc(crc, key@, opt_view(*value)),
{
    bincode::encode_to_vec((crc, key, value), bincode::config::standard()).unwrap()
}

/// Relies on `bincode::decode_from_slice` with the standard configuration.
/// Decoding reads the slice left to right, consumes at least one and at most
/// all of the remaining bytes on success, and is the inverse of encoding:
/// when the remaining bytes start with the encoding of an entry, decoding
/// returns exactly that entry and consumes exactly its encoding.
#[verifier::external_body]
pub fn decode_entry(data: &Vec<u8>, pos: usize) -> (r: Option<(Vec<u8>, Option<Vec<u8>>, usize)>)
    requires
        pos <= data@.len(),
    ensures
        r matches Some(t) ==> 0 < t.2 && pos + t.2 <= data@.len(),
        r is None ==> forall|k: Seq<u8>, v: Option<Seq<u8>>|
            !entry_enc(k, v).is_prefix_of(data@.skip(pos as int)),
        r matches Some(t) ==> forall|k: Seq<u8>, v: Option<Seq<u8>>|
            entry_enc(k, v).is_prefix_of(data@.skip(pos as int)) ==> t.0@ == k && opt_view(t.1)
                == v && t.2 == entry_enc(k, v).len(),
{
    match bincode::decode_from_slice::<(Vec<u8>, Option<Vec<u8>>), _>(
        &data[pos..],
        bincode::config::standard(),
    ) {
        Ok((t, n)) => Some((t.0, t.1, n)),
        Err(_) => None,
    }
}

/// Relies on `bincode::decode_from_slice` with the standard configuration,
/// exactly as [`decode_entry`] does, for a record triple.  Additionally:
/// on input that is a strict prefix of some record's encoding — what a
/// write torn mid-record leaves behind — decoding reads the same bytes the
/// full encoding would, runs out of input, and fails.
#[verifier::external_body]
pub fn decode_record(data: &Vec<u8>, pos: usize) -> (r: Option<
    (u32, Vec<u8>, Option<Vec<u8>>, usize),
>)
    requires
        pos <= data@.len(),
    ensures
        r matches Some(t) ==> 0 < t.3 && pos + t.3 <= data@.len(),
        r is None ==> forall|c: u32, k: Seq<u8>, v: Option<Seq<u8>>|
            !record_enc(c, k, v).is_prefix_of(data@.skip(pos as int)),
        r matches Some(t) ==> forall|c: u32, k: Seq<u8>, v: Option<Seq<u8>>|
            record_enc(c, k, v).is_prefix_of(data@.skip(pos as int)) ==> t.0 == c && t.1@ == k
                && opt_view(t.2) == v && t.3 == record_enc(c, k, v).len(),
        r matches Some(t) ==> forall|c: u32, k: Seq<u8>, v: Option<Seq<u8>>|
            !(data@.skip(pos as int).len() < record_enc(c, k, v).len() && data@.skip(
                pos as int,
            ) == record_enc(c, k, v).take(data@.skip(pos as int).len() as int)),
{
    match bincode::decode_from_slice::<(u32, Vec<u8>, Option<Vec<u8>>), _>(
        &data[pos..],
        bincode::config::standard(),
    ) {
        Ok((t, n)) => Some((t.0, t.1, t.2, n)),
        Err(_) => None,
    }
}

/// A file of entries splits into the encoding of any entry prefix followed by
/// the encoding of the remaining entries.
pub proof fn lemma_entries_enc_split(es: Seq<EntryView>, i: int)
    requires
        0 <= i <= es.len(),
    ensures
        entries_enc(es) == entries_enc(es.take(i)) + entries_enc(es.skip(i)),
    decreases i,
{
    if i == 0 {
        assert(es.take(0) =~= Seq::<EntryView>::empty());
        assert(es.skip(0) =~= es);
        assert(entries_enc(es.take(0)) + entries_enc(es) =~= entries_enc(es));
    } else {
        assert(es.len() > 0);
        lemma_entries_enc_split(es.drop_first(), i - 1);
        assert(es.take(i).drop_first() =~= es.drop_first().take(i - 1));
        assert(es.drop_first().skip(i - 1) =~= es.skip(i));
        assert(es.take(i).len() == i);
        assert(es.take(i)[0] == es[0]);
        assert(entries_enc(es.take(i)) == entry_enc(es[0].key, es[0].value) + entries_enc(
            es.drop_first().take(i - 1),
        ));
        assert((entry_enc(es[0].key, es[0].value) + entries_enc(es.drop_first().take(i - 1)))
            + entries_enc(es.skip(i)) =~= entry_enc(es[0].key, es[0].value) + (entries_enc(
            es.drop_first().take(i - 1),
        ) + entries_enc(es.skip(i))));
    }
}

/// Appending one entry appends its encoding.
pub proof fn lemma_entries_enc_push(es: Seq<EntryView>, e: EntryView)
    ensures
        entries_enc(es.push(e)) == entries_enc(es) + entry_enc(e.key, e.value),
{
    lemma_entries_enc_split(es.push(e), es.len() as int);
    assert(es.push(e).take(es.len() as int) =~= es);
    assert(es.push(e).skip(es.len() as int) =~= seq![e]);
    assert(seq![e].len() == 1 && seq![e][0] == e);
    assert(seq![e].drop_first() =~= Seq::<EntryView>::empty());
    assert(entries_enc(seq![e]) == entry_enc(e.key, e.value) + entries_enc(
        Seq::<EntryView>::empty(),
    ));
    assert(entry_enc(e.key, e.value) + Seq::<u8>::empty() =~= entry_enc(e.key, e.value));
    assert(entries_enc(es) + entries_enc(seq![e]) =~= entries_enc(es) + entry_enc(e.key, e.value));
}

/// A log of records splits into the encoding of any record prefix followed by
/// the encoding of the remaining records.
pub proof fn lemma_records_enc_split(rs: Seq<RecordView>, i: int)
    requires
        0 <= i <= rs.len(),
    ensures
        records_enc(rs) == records_enc(rs.take(i)) + records_enc(rs.skip(i)),
    decreases i,
{
    if i == 0 {
        assert(rs.take(0) =~= Seq::<RecordView>::empty());
        assert(rs.skip(0) =~= rs);
        assert(records_enc(rs.take(0)) + records_enc(rs) =~= records_enc(rs));
    } else {
        assert(rs.len() > 0);
        lemma_records_enc_split(rs.drop_first(), i - 1);
        assert(rs.take(i).drop_first() =~= rs.drop_first().take(i - 1));
        assert(rs.drop_first().skip(i - 1) =~= rs.skip(i));
        assert(rs.take(i).len() == i);
        assert(rs.take(i)[0] == rs[0]);
        assert(records_enc(rs.take(i)) == record_enc(rs[0].crc, rs[0].key, rs[0].value)
            + records_enc(rs.drop_first().take(i - 1)));
        assert((record_enc(rs[0].crc, rs[0].key, rs[0].value) + records_enc(
            rs.drop_first().take(i - 1),
        )) + records_enc(rs.skip(i)) =~= record_enc(rs[0].crc, rs[0].key, rs[0].value) + (
        records_enc(rs.drop_first().take(i - 1)) + records_enc(rs.skip(i))));
    }
}

/// Appending one record appends its encoding.
pub proof fn lemma_records_enc_push(rs: Seq<RecordView>, r: RecordView)
    ensures
        records_enc(rs.push(r)) == records_enc(rs) + record_enc(r.crc, r.key, r.value),
{
    lemma_records_enc_split(rs.push(r), rs.len() as int);
    assert(rs.push(r).take(rs.len() as int) =~= rs);
    assert(rs.push(r).skip(rs.len() as int) =~= seq![r]);
    assert(seq![r].len() == 1 && seq![r][0] == r);
    assert(seq![r].drop_first() =~= Seq::<RecordView>::empty());
    assert(records_enc(seq![r]) == record_enc(r.crc, r.key, r.value) + records_enc(
        Seq::<RecordView>::empty(),
    ));
    assert(record_enc(r.crc, r.key, r.value) + Seq::<u8>::empty() =~= record_enc(
        r.crc,
        r.key,
        r.value,
    ));
    assert(records_enc(rs) + records_enc(seq![r]) =~= records_enc(rs) + record_enc(
        r.crc,
        r.key,
        r.value,
    ));
}

} // verus!
