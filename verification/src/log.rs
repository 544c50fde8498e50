//! The write-ahead log: an append-only byte stream of checksummed records,
//! with sequential replay into a memtable and truncation to empty.
//!
//! The log is modeled as the full contents of the `wal.log` file.  Opening a
//! log takes the bytes read back from disk; replay parses the longest valid
//! record prefix and tolerates a torn tail.  After replay the log holds the
//! normalized encoding of exactly the records it replayed, so that later
//! appends are recoverable.

use vstd::prelude::*;
use crate::bytes::{dup_bytes, dup_opt, opt_view};
use crate::codec::{
    decode_record, encode_record, lemma_records_enc_push, lemma_records_enc_split, record_enc,
    records_enc, RecordView,
};
use crate::memtable::Memtable;

verus! {

/// One log record: a checksum and the written entry.  A `None` value records
/// a deletion (a tombstone).
pub struct LogEntry {
    pub crc: u32,
    pub key: Vec<u8>,
    pub value: Option<Vec<u8>>,
}

impl View for LogEntry {
    type V = RecordView;

    open spec fn view(&self) -> RecordView {
        RecordView { crc: self.crc, key: self.key@, value: opt_view(self.value) }
    }
}

/// The views of a vector of records.
pub open spec fn record_views(rs: Seq<LogEntry>) -> Seq<RecordView> {
    rs.map_values(|r: LogEntry| r@)
}

/// The 64-bit digest of a key and an optional value: what hashing the two
/// in order produces.  A deterministic function of the two, named so that
/// the checksum recipe can be stated over it.
pub uninterp spec fn entry_digest(key: Seq<u8>, value: Option<Seq<u8>>) -> u64;

/// The CRC-32 of a byte string.
pub uninterp spec fn crc32_of(bytes: Seq<u8>) -> u32;

/// The eight little-endian bytes of a 64-bit value.
pub open spec fn le_bytes64(x: u64) -> Seq<u8> {
    seq![
        (x & 0xff) as u8,
        ((x >> 8) & 0xff) as u8,
        ((x >> 16) & 0xff) as u8,
        ((x >> 24) & 0xff) as u8,
        ((x >> 32) & 0xff) as u8,
        ((x >> 40) & 0xff) as u8,
        ((x >> 48) & 0xff) as u8,
        ((x >> 56) & 0xff) as u8,
    ]
}

/// The checksum that the engine stores with each record: the CRC-32 of the
/// little-endian bytes of the key-and-value digest.  A deterministic
/// function of the two, so a stored checksum can be held against a
/// recomputed one.
pub open spec fn crc_of(key: Seq<u8>, value: Option<Seq<u8>>) -> u32 {
    crc32_of(le_bytes64(entry_digest(key, value)))
}

/// The little-endian bytes of a 64-bit value.
fn u64_le_bytes(x: u64) -> (r: Vec<u8>)
    ensures
        r@ == le_bytes64(x),
{
    let mut r: Vec<u8> = Vec::new();
    r.push((x & 0xff) as u8);
    r.push(((x >> 8) & 0xff) as u8);
    r.push(((x >> 16) & 0xff) as u8);
    r.push(((x >> 24) & 0xff) as u8);
    r.push(((x >> 32) & 0xff) as u8);
    r.push(((x >> 40) & 0xff) as u8);
    r.push(((x >> 48) & 0xff) as u8);
    r.push(((x >> 56) & 0xff) as u8);
    proof {
        assert(r@ =~= le_bytes64(x));
    }
    r
}

/// Relies on `std::hash::DefaultHasher`: `new()` instances are documented
/// to hash identically, so feeding the key and then the value yields a
/// function of the two alone.  The algorithm may change between
/// standard-library releases; a log written by one build and replayed by
/// another then reads as corrupt records, which end replay there.
#[verifier::external_body]
fn digest_entry(key: &Vec<u8>, value: &Option<Vec<u8>>) -> (r: u64)
    ensures
        r == entry_digest(key@, opt_view(*value)),
{
    let mut h = std::hash::DefaultHasher::new();
    std::hash::Hash::hash(key, &mut h);
    std::hash::Hash::hash(value, &mut h);
    std::hash::Hasher::finish(&h)
}

/// Relies on `crc32fast::Hasher`, which computes the CRC-32 of the bytes
/// fed to it.
#[verifier::external_body]
fn crc32_bytes(bytes: &Vec<u8>) -> (r: u32)
    ensures
        r == crc32_of(bytes@),
{
    let mut hasher = crc32fast::Hasher::new();
    hasher.update(bytes);
    hasher.finalize()
}

/// A record whose stored checksum matches recomputation.
pub open spec fn crc_ok(r: RecordView) -> bool {
    r.crc == crc_of(r.key, r.value)
}

/// A torn tail: the empty sequence or a strict prefix of some record's
/// encoding — what a crash mid-append leaves at the end of the log.
pub open spec fn torn_tail(tail: Seq<u8>) -> bool {
    tail.len() == 0 || exists|c: u32, k: Seq<u8>, v: Option<Seq<u8>>|
        tail.len() < record_enc(c, k, v).len() && tail == #[trigger] record_enc(c, k, v).take(
            tail.len() as int,
        )
}

/// Every record's stored checksum matches recomputation.
pub open spec fn all_crc_ok(rs: Seq<RecordView>) -> bool {
    forall|i: int| 0 <= i < rs.len() ==> crc_ok(#[trigger] rs[i])
}

/// The mapping a sequence of records describes when all of them are applied
/// in order, a later write for a key overwriting an earlier one.
pub open spec fn writes_map(rs: Seq<RecordView>) -> Map<Seq<u8>, Option<Seq<u8>>>
    decreases rs.len(),
{
    if rs.len() == 0 {
        Map::empty()
    } else {
        writes_map(rs.drop_last()).insert(rs.last().key, rs.last().value)
    }
}

/// The number of leading records whose checksums all match: a mismatch is
/// treated as a torn tail and ends replay.
pub open spec fn crc_valid_len(rs: Seq<RecordView>) -> nat
    decreases rs.len(),
{
    if rs.len() == 0 {
        0
    } else if !crc_ok(rs[0]) {
        0
    } else {
        1 + crc_valid_len(rs.drop_first())
    }
}

/// The mapping that replaying a sequence of records produces: records are
/// applied in order, later writes for a key overwriting earlier ones, and
/// replay stops at the first record whose checksum does not match.
pub open spec fn replay_map(rs: Seq<RecordView>) -> Map<Seq<u8>, Option<Seq<u8>>> {
    writes_map(rs.take(crc_valid_len(rs) as int))
}

/// The valid prefix never reaches past the sequence.
pub proof fn lemma_crc_valid_len_le(rs: Seq<RecordView>)
    ensures
        crc_valid_len(rs) <= rs.len(),
    decreases rs.len(),
{
    if rs.len() > 0 && crc_ok(rs[0]) {
        lemma_crc_valid_len_le(rs.drop_first());
    }
}

/// The valid prefix is characterized by its first failure: `g` checksums
/// match and either the sequence ends there or the next one fails.
pub proof fn lemma_crc_valid_len_char(rs: Seq<RecordView>, g: int)
    requires
        0 <= g <= rs.len(),
        forall|j: int| 0 <= j < g ==> crc_ok(#[trigger] rs[j]),
        g == rs.len() || !crc_ok(rs[g]),
    ensures
        crc_valid_len(rs) == g,
    decreases rs.len(),
{
    if rs.len() > 0 && g > 0 {
        let rest = rs.drop_first();
        assert(forall|j: int| 0 <= j < rest.len() ==> #[trigger] rest[j] == rs[j + 1]);
        lemma_crc_valid_len_char(rest, g - 1);
    }
}

/// When every checksum matches, replay applies every record.
pub proof fn lemma_replay_map_all_ok(rs: Seq<RecordView>)
    requires
        all_crc_ok(rs),
    ensures
        crc_valid_len(rs) == rs.len(),
        replay_map(rs) == writes_map(rs),
{
    lemma_crc_valid_len_char(rs, rs.len() as int);
    assert(rs.take(rs.len() as int) =~= rs);
}

/// Appending a checksummed record to a fully valid log applies it last.
pub proof fn lemma_replay_map_push(rs: Seq<RecordView>, r: RecordView)
    requires
        all_crc_ok(rs),
        crc_ok(r),
    ensures
        all_crc_ok(rs.push(r)),
        replay_map(rs.push(r)) == replay_map(rs).insert(r.key, r.value),
{
    assert forall|i: int| 0 <= i < rs.push(r).len() implies crc_ok(#[trigger] rs.push(r)[i]) by {
        if i < rs.len() {
            assert(rs.push(r)[i] == rs[i]);
        }
    }
    lemma_replay_map_all_ok(rs);
    lemma_replay_map_all_ok(rs.push(r));
    assert(rs.push(r).drop_last() =~= rs);
    assert(rs.push(r).last() == r);
}

impl LogEntry {
    /// The stored checksum's recipe: digest the key and the value, then
    /// take the CRC-32 of the digest's little-endian bytes.
    pub fn compute_crc(&self) -> (r: u32)
        ensures
            r == crc_of(self.key@, opt_view(self.value)),
    {
        let digest = digest_entry(&self.key, &self.value);
        let bytes = u64_le_bytes(digest);
        crc32_bytes(&bytes)
    }

    /// Whether the stored checksum matches recomputation.
    pub fn check_crc(&self) -> (r: bool)
        ensures
            r == crc_ok(self@),
    {
        self.crc == self.compute_crc()
    }

    /// Store the computed checksum in the record.
    pub fn set_crc(&mut self)
        ensures
            final(self).key == old(self).key,
            final(self).value == old(self).value,
            crc_ok(final(self)@),
    {
        self.crc = self.compute_crc();
    }
}

/// The write-ahead log file.
pub struct Log {
    pub data: Vec<u8>,
}

impl View for Log {
    type V = Seq<u8>;

    open spec fn view(&self) -> Seq<u8> {
        self.data@
    }
}

impl Log {
    /// Open a log over the bytes read from the log file; an absent file reads
    /// as no bytes.
    pub fn new(data: Vec<u8>) -> (r: Log)
        ensures
            r@ == data@,
    {
        Log { data }
    }

    /// The length of the log file in bytes.
    pub fn len(&self) -> (r: usize)
        ensures
            r == self@.len(),
    {
        self.data.len()
    }

    /// The contents of the log file.
    pub fn bytes(&self) -> (r: &Vec<u8>)
        ensures
            r@ == self@,
    {
        &self.data
    }

    /// Append one record; the returned bytes are what must be appended to the
    /// log file on disk.
    pub fn append(&mut self, entry: &LogEntry) -> (bytes: Vec<u8>)
        ensures
            bytes@ == record_enc(entry@.crc, entry@.key, entry@.value),
            final(self)@ == old(self)@ + bytes@,
    {
        let bytes = encode_record(entry.crc, &entry.key, &entry.value);
        self.data.extend_from_slice(bytes.as_slice());
        bytes
    }

    /// Truncate the log to empty.
    pub fn clear(&mut self)
        ensures
            final(self)@ == Seq::<u8>::empty(),
    {
        self.data.clear();
        proof {
            assert(self.data@ =~= Seq::<u8>::empty());
        }
    }

    /// Replay the log into a fresh memtable: parse the longest valid record
    /// prefix, stop at the first record whose checksum does not match, and
    /// normalize the log to hold exactly the replayed records, so neither a
    /// torn tail nor a corrupt record sits beneath later appends.
    pub fn recovery(&mut self) -> (mt: Memtable)
        ensures
            mt.inv(),
            exists|rs: Seq<RecordView>|
                final(self)@ == records_enc(rs) && mt@ == #[trigger] replay_map(rs)
                    && all_crc_ok(rs),
            forall|rs: Seq<RecordView>|
                #![trigger records_enc(rs)]
                old(self)@ == records_enc(rs) ==> mt@ == replay_map(rs) && final(self)@
                    == records_enc(rs.take(crc_valid_len(rs) as int)),
            forall|rs: Seq<RecordView>, tail: Seq<u8>|
                #![trigger records_enc(rs) + tail]
                old(self)@ == records_enc(rs) + tail && torn_tail(tail) ==> mt@ == replay_map(rs)
                    && final(self)@ == records_enc(rs.take(crc_valid_len(rs) as int)),
    {
        let mut recs = parse_records(&self.data);
        let ghost rs_all = record_views(recs@);
        let mut good: usize = 0;
        loop
            invariant
                rs_all == record_views(recs@),
                good <= recs@.len(),
                forall|j: int| 0 <= j < good ==> crc_ok(#[trigger] rs_all[j]),
            ensures
                rs_all == record_views(recs@),
                good <= recs@.len(),
                forall|j: int| 0 <= j < good ==> crc_ok(#[trigger] rs_all[j]),
                good < recs@.len() ==> !crc_ok(rs_all[good as int]),
            decreases recs@.len() - good,
        {
            if good == recs.len() {
                break;
            }
            if !recs[good].check_crc() {
                break;
            }
            good = good + 1;
        }
        proof {
            lemma_crc_valid_len_char(rs_all, good as int);
        }
        recs.truncate(good);
        let ghost rs = record_views(recs@);
        proof {
            assert(rs =~= rs_all.take(good as int));
            assert(all_crc_ok(rs));
        }
        self.data = encode_records(&recs);
        let mut mt = Memtable::new();
        let mut idx: usize = 0;
        while idx < recs.len()
            invariant
                rs == record_views(recs@),
                idx <= recs@.len(),
                mt.inv(),
                mt@ == writes_map(rs.take(idx as int)),
            decreases recs@.len() - idx,
        {
            let ghost pre = rs.take(idx as int);
            let ghost cur = rs.take(idx + 1);
            proof {
                assert(cur.drop_last() =~= pre);
                assert(cur.last() == recs@[idx as int]@);
            }
            mt.insert(dup_bytes(&recs[idx].key), dup_opt(&recs[idx].value));
            idx = idx + 1;
        }
        proof {
            assert(rs.take(rs.len() as int) =~= rs);
            lemma_replay_map_all_ok(rs);
            assert(self.data@ == records_enc(rs) && mt@ == replay_map(rs) && all_crc_ok(rs));
            assert forall|rs0: Seq<RecordView>|
                #![trigger records_enc(rs0)]
                old(self)@ == records_enc(rs0) implies mt@ == replay_map(rs0) && self.data@
                == records_enc(rs0.take(crc_valid_len(rs0) as int)) by {
                assert(rs_all == rs0);
                assert(crc_valid_len(rs0) == good);
                assert(rs == rs0.take(crc_valid_len(rs0) as int));
            }
            assert forall|rs0: Seq<RecordView>, tail: Seq<u8>|
                #![trigger records_enc(rs0) + tail]
                old(self)@ == records_enc(rs0) + tail && torn_tail(tail) implies mt@
                == replay_map(rs0) && self.data@ == records_enc(
                rs0.take(crc_valid_len(rs0) as int),
            ) by {
                assert(rs_all == rs0);
                assert(crc_valid_len(rs0) == good);
                assert(rs == rs0.take(crc_valid_len(rs0) as int));
            }
        }
        mt
    }
}

/// Encode a sequence of records back to back: the contents of a log file
/// holding them.
fn encode_records(recs: &Vec<LogEntry>) -> (r: Vec<u8>)
    ensures
        r@ == records_enc(record_views(recs@)),
{
    let mut r: Vec<u8> = Vec::new();
    let mut idx: usize = 0;
    while idx < recs.len()
        invariant
            idx <= recs@.len(),
            r@ == records_enc(record_views(recs@.take(idx as int))),
        decreases recs@.len() - idx,
    {
        let bytes = encode_record(recs[idx].crc, &recs[idx].key, &recs[idx].value);
        r.extend_from_slice(bytes.as_slice());
        proof {
            let pre = record_views(recs@.take(idx as int));
            let cur = record_views(recs@.take(idx + 1));
            assert(cur.drop_last() =~= pre);
            assert(cur.last() == recs@[idx as int]@);
            lemma_records_enc_push(pre, recs@[idx as int]@);
            assert(cur =~= pre.push(recs@[idx as int]@));
        }
        idx = idx + 1;
    }
    proof {
        assert(recs@.take(recs@.len() as int) =~= recs@);
    }
    r
}

/// Parse the longest prefix of the data that decodes as records.  When the
/// data is the encoding of a record sequence followed by at most a torn
/// tail, the result is exactly that sequence.
fn parse_records(data: &Vec<u8>) -> (r: Vec<LogEntry>)
    ensures
        forall|rs: Seq<RecordView>, tail: Seq<u8>|
            #![trigger records_enc(rs) + tail]
            data@ == records_enc(rs) + tail && torn_tail(tail) ==> record_views(r@) == rs,
        forall|rs: Seq<RecordView>|
            #![trigger records_enc(rs)]
            data@ == records_enc(rs) ==> record_views(r@) == rs,
{
    let mut recs: Vec<LogEntry> = Vec::new();
    let mut pos: usize = 0;
    let dlen: usize = data.len();
    loop
        invariant
            dlen == data@.len(),
            pos <= data@.len(),
            forall|rs: Seq<RecordView>, tail: Seq<u8>|
                #![trigger records_enc(rs) + tail]
                data@ == records_enc(rs) + tail && torn_tail(tail) ==> {
                    &&& recs@.len() <= rs.len()
                    &&& record_views(recs@) == rs.take(recs@.len() as int)
                    &&& pos == records_enc(rs.take(recs@.len() as int)).len()
                },
        ensures
            forall|c: u32, k: Seq<u8>, v: Option<Seq<u8>>|
                !record_enc(c, k, v).is_prefix_of(data@.skip(pos as int)),
        decreases data@.len() - pos,
    {
        match decode_record(data, pos) {
            None => {
                break;
            }
            Some(t) => {
                let ghost old_recs = recs@;
                let ghost old_pos = pos as int;
                let entry = LogEntry { crc: t.0, key: t.1, value: t.2 };
                let ghost ev = entry@;
                recs.push(entry);
                pos = pos + t.3;
                proof {
                    assert forall|rs: Seq<RecordView>, tail: Seq<u8>|
                        #![trigger records_enc(rs) + tail]
                        data@ == records_enc(rs) + tail && torn_tail(tail) implies {
                        &&& recs@.len() <= rs.len()
                        &&& record_views(recs@) == rs.take(recs@.len() as int)
                        &&& pos == records_enc(rs.take(recs@.len() as int)).len()
                    } by {
                        let n = old_recs.len() as int;
                        assert(record_views(old_recs) == rs.take(n));
                        assert(old_pos == records_enc(rs.take(n)).len());
                        lemma_records_enc_split(rs, n);
                        assert(data@.skip(old_pos) =~= records_enc(rs.skip(n)) + tail);
                        if n == rs.len() {
                            assert(rs.skip(n) =~= Seq::<RecordView>::empty());
                            assert(records_enc(rs.skip(n)) == Seq::<u8>::empty());
                            assert(data@.skip(old_pos) =~= tail);
                            if tail.len() != 0 {
                                let (c, k, v) = choose|c: u32, k: Seq<u8>, v: Option<Seq<u8>>|
                                    tail.len() < record_enc(c, k, v).len() && tail
                                        == #[trigger] record_enc(c, k, v).take(tail.len() as int);
                                assert(data@.skip(old_pos).len() < record_enc(c, k, v).len()
                                    && data@.skip(old_pos) == record_enc(c, k, v).take(
                                    data@.skip(old_pos).len() as int,
                                ));
                            }
                            assert(false);
                        }
                        let rest = rs.skip(n);
                        assert(rest[0] == rs[n]);
                        let e = record_enc(rs[n].crc, rs[n].key, rs[n].value);
                        assert(records_enc(rest) == e + records_enc(rest.drop_first()));
                        assert(e.is_prefix_of(data@.skip(old_pos))) by {
                            assert(data@.skip(old_pos).subrange(0, e.len() as int) =~= e);
                        }
                        assert(ev == rs[n]);
                        assert(recs@ =~= old_recs.push(entry));
                        assert(record_views(recs@) =~= record_views(old_recs).push(ev));
                        assert(rs.take(n + 1) =~= rs.take(n).push(rs[n]));
                        lemma_records_enc_push(rs.take(n), rs[n]);
                        assert(record_views(recs@) =~= rs.take(n + 1));
                    }
                }
            }
        }
    }
    proof {
        assert forall|rs: Seq<RecordView>, tail: Seq<u8>|
            #![trigger records_enc(rs) + tail]
            data@ == records_enc(rs) + tail && torn_tail(tail) implies record_views(recs@)
            == rs by {
            let n = recs@.len() as int;
            if n < rs.len() {
                lemma_records_enc_split(rs, n);
                assert(pos == records_enc(rs.take(n)).len());
                assert(data@.skip(pos as int) =~= records_enc(rs.skip(n)) + tail);
                let rest = rs.skip(n);
                assert(rest[0] == rs[n]);
                assert(records_enc(rest) == record_enc(rs[n].crc, rs[n].key, rs[n].value)
                    + records_enc(rest.drop_first()));
                let e = record_enc(rs[n].crc, rs[n].key, rs[n].value);
                assert(e.is_prefix_of(data@.skip(pos as int))) by {
                    assert(data@.skip(pos as int).subrange(0, e.len() as int) =~= e);
                }
                assert(false);
            }
            assert(rs.take(n) =~= rs);
        }
        assert forall|rs: Seq<RecordView>|
            #![trigger records_enc(rs)]
            data@ == records_enc(rs) implies record_views(recs@) == rs by {
            assert(records_enc(rs) + Seq::<u8>::empty() =~= records_enc(rs));
            assert(torn_tail(Seq::<u8>::empty()));
        }
    }
    recs
}

} // verus!
