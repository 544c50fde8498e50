//! The tree coordinator: composes the write-ahead log, the memtable and a
//! table manager, and enforces the write and flush protocol.
//!
//! The coordinator's observable state is a single mapping: the table
//! manager's newest-wins view overlaid by the memtable.  Every write is
//! appended to the log before it enters the memtable, so the log always
//! holds exactly the encoding of the writes the memtable buffers; a flush
//! moves the buffer into the table manager and truncates the log.

use vstd::prelude::*;
use crate::bytes::{dup_bytes, dup_opt, opt_view};
use crate::codec::{lemma_records_enc_push, records_enc, RecordView};
use crate::log::{all_crc_ok, crc_of, crc_ok, lemma_replay_map_push, replay_map, Log, LogEntry};
use crate::memtable::Memtable;
use crate::table_manager::bcat_table_manager::BCATTableManager;
use crate::table_manager::simple_table_manager::SimpleTableManager;
use crate::table_manager::{
    apply_table_op, apply_table_ops, encode_table_data, lemma_union_empty,
    lemma_union_insert_right, lemma_union_lookup, parse_entries, read_view, reencode_tables,
    table_ops_only, take_sorted_prefix, FileOp, Table, TableManager,
};

verus! {

/// The directory as the engine expects it on disk: the contents of the log
/// file and of each table file, keyed by level and id.
#[verifier::ext_equal]
pub struct DiskView {
    pub wal: Seq<u8>,
    pub files: Map<(u8, u64), Seq<u8>>,
}

/// What one emitted op does to the directory.
pub open spec fn apply_dir_op(d: DiskView, op: FileOp) -> DiskView {
    match op {
        FileOp::WalAppend(b) => DiskView { wal: d.wal + b@, files: d.files },
        FileOp::WalWrite(b) => DiskView { wal: b@, files: d.files },
        FileOp::WalTruncate => DiskView { wal: Seq::empty(), files: d.files },
        _ => DiskView { wal: d.wal, files: apply_table_op(d.files, op) },
    }
}

/// What a sequence of emitted ops, applied in order, does to the directory.
pub open spec fn apply_dir_ops(d: DiskView, ops: Seq<FileOp>) -> DiskView
    decreases ops.len(),
{
    if ops.len() == 0 {
        d
    } else {
        apply_dir_ops(apply_dir_op(d, ops[0]), ops.drop_first())
    }
}

/// Ops apply in order across a split of the sequence.
pub proof fn lemma_apply_dir_ops_concat(d: DiskView, a: Seq<FileOp>, b: Seq<FileOp>)
    ensures
        apply_dir_ops(d, a + b) == apply_dir_ops(apply_dir_ops(d, a), b),
    decreases a.len(),
{
    if a.len() == 0 {
        assert(a + b =~= b);
    } else {
        assert((a + b)[0] == a[0]);
        assert((a + b).drop_first() =~= a.drop_first() + b);
        lemma_apply_dir_ops_concat(apply_dir_op(d, a[0]), a.drop_first(), b);
    }
}

/// A single op applies directly.
pub proof fn lemma_apply_dir_ops_one(d: DiskView, op: FileOp)
    ensures
        apply_dir_ops(d, seq![op]) == apply_dir_op(d, op),
{
    assert(seq![op].len() == 1 && seq![op][0] == op);
    assert(seq![op].drop_first() =~= Seq::<FileOp>::empty());
    assert(apply_dir_ops(d, seq![op]) == apply_dir_ops(
        apply_dir_op(d, op),
        Seq::<FileOp>::empty(),
    ));
}

/// Ops that touch only table files leave the log alone and act on the
/// files exactly as the table-file application says.
pub proof fn lemma_apply_dir_ops_table_only(d: DiskView, ops: Seq<FileOp>)
    requires
        table_ops_only(ops),
    ensures
        apply_dir_ops(d, ops).wal == d.wal,
        apply_dir_ops(d, ops).files == apply_table_ops(d.files, ops),
    decreases ops.len(),
{
    if ops.len() > 0 {
        assert(ops[0] is TableWrite || ops[0] is TableRemove);
        assert(forall|i: int|
            0 <= i < ops.drop_first().len() ==> ((#[trigger] ops.drop_first()[i]) == ops[i + 1]));
        lemma_apply_dir_ops_table_only(apply_dir_op(d, ops[0]), ops.drop_first());
    }
}

/// Whether the flush policy holds for a memtable of `mlen` entries and a
/// log of `wlen` bytes.
pub open spec fn flush_due(mlen: int, wlen: int) -> bool {
    mlen >= crate::table_manager::MEMTABLE_FLUSH_THRESHOLD || wlen
        >= crate::table_manager::WAL_FLUSH_THRESHOLD
}

/// The memtable and log state a write leaves behind: the record is appended
/// and the key inserted, and then the engine flushes exactly when the
/// policy holds for the grown buffer and log — flushed to empty when it
/// does, only the insert and the append when it does not.
pub open spec fn write_outcome<TM: TableManager>(
    pre: LSMTree<TM>,
    post: LSMTree<TM>,
    k: Seq<u8>,
    v: Option<Seq<u8>>,
) -> bool {
    let mlen = pre.memtable.spec_len() + (if pre.memtable@.contains_key(k) {
        0int
    } else {
        1int
    });
    let wlen = pre.wal@.len() + crate::codec::record_enc(crc_of(k, v), k, v).len() as int;
    if flush_due(mlen, wlen) {
        post.memtable.spec_len() == 0 && post.wal@.len() == 0
    } else {
        post.memtable@ == pre.memtable@.insert(k, v) && post.memtable.spec_len() == mlen
            && post.wal@ == pre.wal@ + crate::codec::record_enc(crc_of(k, v), k, v)
    }
}

/// The engine: a write-ahead log, a memtable, and a pluggable table
/// manager.  The ghost `pending` sequence is the list of records the log
/// holds, in append order.
pub struct LSMTree<TM: TableManager> {
    pub wal: Log,
    pub memtable: Memtable,
    pub table_manager: TM,
    pub pending: Ghost<Seq<RecordView>>,
}

impl<TM: TableManager> LSMTree<TM> {
    /// The coordinator's invariant: the log holds exactly the encoding of
    /// the pending records, and replaying them rebuilds the memtable.  This
    /// is the durability discipline: every buffered write is already on the
    /// log, so a crash before the next flush loses nothing.
    pub open spec fn inv(&self) -> bool {
        &&& self.table_manager.inv()
        &&& self.memtable.inv()
        &&& self.wal@ == records_enc(self.pending@)
        &&& all_crc_ok(self.pending@)
        &&& self.memtable@ == replay_map(self.pending@)
    }

    /// The mapping the engine observes: the memtable overlays the tables,
    /// and a stored `None` is a tombstone.
    pub open spec fn obs(&self) -> Map<Seq<u8>, Option<Seq<u8>>> {
        self.table_manager.map_view().union_prefer_right(self.memtable@)
    }

    /// The directory the engine expects on disk: the log bytes it models
    /// and the table files its manager holds.
    pub open spec fn disk_of(&self) -> DiskView {
        DiskView { wal: self.wal@, files: self.table_manager.disk_view() }
    }

    /// Open the engine over the bytes read back from the log file and a
    /// table manager already loaded from the directory.  The log's longest
    /// valid record prefix is replayed into the memtable; when the log holds
    /// exactly a sequence of records, replaying reproduces them all.  The
    /// returned op renormalizes the log file on disk so that a torn tail
    /// does not sit beneath later appends.
    pub fn new(wal_bytes: Vec<u8>, table_manager: TM) -> (r: (LSMTree<TM>, Vec<FileOp>))
        requires
            table_manager.inv(),
        ensures
            r.0.inv(),
            r.0.table_manager == table_manager,
            forall|rs: Seq<RecordView>|
                #![trigger records_enc(rs)]
                wal_bytes@ == records_enc(rs) ==> r.0.memtable@ == replay_map(rs),
            forall|rs: Seq<RecordView>, tail: Seq<u8>|
                #![trigger records_enc(rs) + tail]
                wal_bytes@ == records_enc(rs) + tail && crate::log::torn_tail(tail)
                    ==> r.0.memtable@ == replay_map(rs),
            apply_dir_ops(
                DiskView { wal: wal_bytes@, files: table_manager.disk_view() },
                r.1@,
            ) == r.0.disk_of(),
    {
        let mut wal = Log::new(wal_bytes);
        let memtable = wal.recovery();
        let ghost rs = choose|rs: Seq<RecordView>|
            wal@ == records_enc(rs) && memtable@ == #[trigger] replay_map(rs) && all_crc_ok(rs);
        let mut ops: Vec<FileOp> = Vec::new();
        ops.push(FileOp::WalWrite(dup_bytes(wal.bytes())));
        proof {
            let d0 = DiskView { wal: wal_bytes@, files: table_manager.disk_view() };
            assert(ops@ =~= seq![ops@[0]]);
            lemma_apply_dir_ops_one(d0, ops@[0]);
        }
        (LSMTree { wal, memtable, table_manager, pending: Ghost(rs) }, ops)
    }

    /// Read the observed value for a key: the memtable answers when it
    /// buffers the key (a buffered tombstone reads as absent), and the
    /// table manager answers otherwise.
    pub fn get(&mut self, key: &Vec<u8>) -> (r: Option<Vec<u8>>)
        requires
            old(self).inv(),
        ensures
            final(self).inv(),
            final(self).obs() == old(self).obs(),
            final(self).wal == old(self).wal,
            final(self).memtable == old(self).memtable,
            final(self).pending == old(self).pending,
            final(self).disk_of() == old(self).disk_of(),
            opt_view(r) == read_view(old(self).obs(), key@),
    {
        proof {
            lemma_union_lookup(self.table_manager.map_view(), self.memtable@, key@);
        }
        match self.memtable.get(key) {
            Some(stored) => stored,
            None => self.table_manager.read(key),
        }
    }

    /// The shared write path: append the checksummed record to the log,
    /// buffer it in the memtable, and flush when the policy asks for it.
    fn write(&mut self, key: Vec<u8>, value: Option<Vec<u8>>) -> (ops: Vec<FileOp>)
        requires
            old(self).inv(),
        ensures
            final(self).inv(),
            final(self).obs() == old(self).obs().insert(key@, opt_view(value)),
            ops@.len() >= 1,
            ops@[0] matches FileOp::WalAppend(b) ==> b@ == crate::codec::record_enc(
                crate::log::crc_of(key@, opt_view(value)),
                key@,
                opt_view(value),
            ),
            ops@[0] is WalAppend,
            apply_dir_ops(old(self).disk_of(), ops@) == final(self).disk_of(),
            write_outcome(*old(self), *final(self), key@, opt_view(value)),
            !flush_due(
                old(self).memtable.spec_len() + (if old(self).memtable@.contains_key(key@) {
                    0int
                } else {
                    1int
                }),
                old(self).wal@.len() + crate::codec::record_enc(
                    crc_of(key@, opt_view(value)),
                    key@,
                    opt_view(value),
                ).len() as int,
            ) ==> ops@.len() == 1,
    {
        let mut entry = LogEntry { crc: 0, key: dup_bytes(&key), value: dup_opt(&value) };
        entry.set_crc();
        let bytes = self.wal.append(&entry);
        let ghost rec = entry@;
        self.memtable.insert(key, value);
        let ghost pending0 = self.pending@;
        self.pending = Ghost(pending0.push(rec));
        proof {
            lemma_records_enc_push(pending0, rec);
            assert(crc_ok(rec));
            lemma_replay_map_push(pending0, rec);
            assert(self.memtable@ == replay_map(self.pending@));
            lemma_union_insert_right(
                self.table_manager.map_view(),
                old(self).memtable@,
                rec.key,
                rec.value,
            );
        }
        let mut ops: Vec<FileOp> = Vec::new();
        ops.push(FileOp::WalAppend(bytes));
        let ghost base = ops@;
        proof {
            let d0 = old(self).disk_of();
            assert(base =~= seq![base[0]]);
            lemma_apply_dir_ops_one(d0, base[0]);
            assert(apply_dir_op(d0, base[0]) =~= self.disk_of());
        }
        if self.table_manager.should_flush(&self.wal, &self.memtable) {
            let ghost dmid = self.disk_of();
            let mut more = self.flush_memtable();
            let ghost more2 = more@;
            ops.append(&mut more);
            proof {
                assert(ops@ =~= base + more2);
                lemma_apply_dir_ops_concat(old(self).disk_of(), base, more2);
            }
        }
        ops
    }

    /// Write a key with a value.
    pub fn put(&mut self, key: Vec<u8>, value: Vec<u8>) -> (ops: Vec<FileOp>)
        requires
            old(self).inv(),
        ensures
            final(self).inv(),
            final(self).obs() == old(self).obs().insert(key@, Some(value@)),
            ops@.len() >= 1,
            ops@[0] matches FileOp::WalAppend(b) ==> b@ == crate::codec::record_enc(
                crate::log::crc_of(key@, Some(value@)),
                key@,
                Some(value@),
            ),
            ops@[0] is WalAppend,
            apply_dir_ops(old(self).disk_of(), ops@) == final(self).disk_of(),
            write_outcome(*old(self), *final(self), key@, Some(value@)),
            !flush_due(
                old(self).memtable.spec_len() + (if old(self).memtable@.contains_key(key@) {
                    0int
                } else {
                    1int
                }),
                old(self).wal@.len() + crate::codec::record_enc(
                    crc_of(key@, Some(value@)),
                    key@,
                    Some(value@),
                ).len() as int,
            ) ==> ops@.len() == 1,
    {
        self.write(key, Some(value))
    }

    /// Delete a key: a tombstone is written, shadowing every older value
    /// for the key across every lower layer.
    pub fn remove(&mut self, key: &Vec<u8>) -> (ops: Vec<FileOp>)
        requires
            old(self).inv(),
        ensures
            final(self).inv(),
            final(self).obs() == old(self).obs().insert(key@, None),
            ops@.len() >= 1,
            ops@[0] matches FileOp::WalAppend(b) ==> b@ == crate::codec::record_enc(
                crate::log::crc_of(key@, None),
                key@,
                None,
            ),
            ops@[0] is WalAppend,
            apply_dir_ops(old(self).disk_of(), ops@) == final(self).disk_of(),
            write_outcome(*old(self), *final(self), key@, None),
            !flush_due(
                old(self).memtable.spec_len() + (if old(self).memtable@.contains_key(key@) {
                    0int
                } else {
                    1int
                }),
                old(self).wal@.len() + crate::codec::record_enc(
                    crc_of(key@, None),
                    key@,
                    None,
                ).len() as int,
            ) ==> ops@.len() == 1,
    {
        self.write(dup_bytes(key), None)
    }

    /// Flush: hand a snapshot of the memtable to the table manager, then
    /// clear the memtable and truncate the log.  What the engine observes
    /// is unchanged.
    pub fn flush_memtable(&mut self) -> (ops: Vec<FileOp>)
        requires
            old(self).inv(),
        ensures
            final(self).inv(),
            final(self).obs() == old(self).obs(),
            final(self).table_manager.map_view() == old(self).table_manager.map_view()
                .union_prefer_right(old(self).memtable@),
            final(self).memtable.spec_len() == 0,
            final(self).wal@.len() == 0,
            ops@.len() >= 1,
            ops@.last() is WalTruncate,
            apply_dir_ops(old(self).disk_of(), ops@) == final(self).disk_of(),
    {
        let mut ops = self.table_manager.add_table(&self.memtable);
        let ghost tmops = ops@;
        self.memtable.clear();
        self.wal.clear();
        self.pending = Ghost(Seq::empty());
        ops.push(FileOp::WalTruncate);
        proof {
            assert(records_enc(Seq::<RecordView>::empty()) =~= Seq::<u8>::empty());
            lemma_union_empty(self.table_manager.map_view());
            let d0 = old(self).disk_of();
            assert(ops@ =~= tmops + seq![FileOp::WalTruncate]);
            lemma_apply_dir_ops_concat(d0, tmops, seq![FileOp::WalTruncate]);
            lemma_apply_dir_ops_table_only(d0, tmops);
            let d1 = apply_dir_ops(d0, tmops);
            lemma_apply_dir_ops_one(d1, FileOp::WalTruncate);
            assert(apply_dir_op(d1, FileOp::WalTruncate) =~= self.disk_of());
        }
        ops
    }

    /// The number of entries the memtable buffers.
    pub fn memtable_len(&self) -> (r: usize)
        ensures
            r == self.memtable.spec_len(),
    {
        self.memtable.len()
    }

    /// The length of the write-ahead log in bytes.
    pub fn wal_len(&self) -> (r: usize)
        ensures
            r == self.wal@.len(),
    {
        self.wal.len()
    }
}

/// The mapping that a sequence of writes leaves behind, applied in order to
/// a starting mapping; a write of `None` is a deletion.
pub open spec fn apply_writes(
    m: Map<Seq<u8>, Option<Seq<u8>>>,
    ws: Seq<(Seq<u8>, Option<Seq<u8>>)>,
) -> Map<Seq<u8>, Option<Seq<u8>>>
    decreases ws.len(),
{
    if ws.len() == 0 {
        m
    } else {
        apply_writes(m, ws.drop_last()).insert(ws.last().0, ws.last().1)
    }
}

/// The value of the last write to a key in a sequence of writes, if any.
pub open spec fn last_write(ws: Seq<(Seq<u8>, Option<Seq<u8>>)>, k: Seq<u8>) -> Option<
    Option<Seq<u8>>,
>
    decreases ws.len(),
{
    if ws.len() == 0 {
        None
    } else if ws.last().0 == k {
        Some(ws.last().1)
    } else {
        last_write(ws.drop_last(), k)
    }
}

/// Round trip: after any sequence of writes, a key reads back as the value
/// it was last written with — a last write of a value reads as that value,
/// a last write of a tombstone reads as absent, and a key never written
/// reads as it did before.  `put` and `remove` make `obs` take exactly one
/// `apply_writes` step and `get` returns `read_view(obs, key)`, so this law
/// covers every run of the engine, across flushes and compactions.
pub proof fn lemma_round_trip(
    m: Map<Seq<u8>, Option<Seq<u8>>>,
    ws: Seq<(Seq<u8>, Option<Seq<u8>>)>,
    k: Seq<u8>,
)
    ensures
        read_view(apply_writes(m, ws), k) == match last_write(ws, k) {
            Some(v) => v,
            None => read_view(m, k),
        },
    decreases ws.len(),
{
    if ws.len() > 0 {
        lemma_round_trip(m, ws.drop_last(), k);
    }
}

/// Recovery: rebuilding an engine from the files it would leave on disk —
/// each table encoded back to bytes, the log as it stands — observes the
/// same mapping.  Together with `flush_memtable` leaving `obs` unchanged,
/// this is the engine's crash-recovery story: a restart between operations
/// loses no acknowledged write.
pub fn reopen(t: &LSMTree<SimpleTableManager>) -> (r: (
    LSMTree<SimpleTableManager>,
    Vec<FileOp>,
))
    requires
        t.inv(),
    ensures
        r.0.inv(),
        r.0.obs() == t.obs(),
{
    let tables = reencode_tables(&t.table_manager.sstables, 1);
    let tm2 = SimpleTableManager::new(tables);
    let wal_bytes = dup_bytes(t.wal.bytes());
    let (t2, ops) = LSMTree::new(wal_bytes, tm2);
    proof {
        assert(t2.memtable@ == replay_map(t.pending@));
        assert(t2.obs() == t.obs());
    }
    (t2, ops)
}

/// Recovery for the composed manager: rebuilding the engine from the files
/// its three levels would leave on disk — each table encoded back to bytes,
/// the log as it stands — observes the same mapping, with the filter and
/// the cache rebuilt from scratch.
pub fn reopen_bcat(t: &LSMTree<BCATTableManager>) -> (r: (
    LSMTree<BCATTableManager>,
    Vec<FileOp>,
))
    requires
        t.inv(),
    ensures
        r.0.inv(),
        r.0.obs() == t.obs(),
{
    let l1 = reencode_tables(&t.table_manager.tm.tm.sstables, 1);
    let l2 = reencode_tables(&t.table_manager.tm.level2, 2);
    let l3 = match &t.table_manager.tm.level3 {
        Some(t3) => {
            let data = encode_table_data(&t3.entries);
            let parsed = take_sorted_prefix(parse_entries(&data));
            proof {
                assert(crate::table_manager::entry_views(parsed@) == t3.entries_view());
            }
            Some(Table { id: t3.id, entries: parsed })
        }
        None => None,
    };
    proof {
        match &t.table_manager.tm.level3 {
            Some(t3) => {
                assert(l3 matches Some(nt) && nt.map_view() == t3.map_view() && nt.inv());
            }
            None => {
                assert(l3 is None);
            }
        }
        crate::table_manager::lemma_tables_map_congruent(l1@, t.table_manager.tm.tm.sstables@);
        crate::table_manager::lemma_tables_map_congruent(l2@, t.table_manager.tm.level2@);
    }
    let tm2 = BCATTableManager::new(l1, l2, l3);
    proof {
        assert(tm2.map_view() == t.table_manager.map_view());
    }
    let wal_bytes = dup_bytes(t.wal.bytes());
    let (t2, ops) = LSMTree::new(wal_bytes, tm2);
    proof {
        assert(t2.memtable@ == replay_map(t.pending@));
        assert(t2.obs() == t.obs());
    }
    (t2, ops)
}

} // verus!
