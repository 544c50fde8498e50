//! The compacting one-level table manager: the simple manager plus a
//! threshold; when the table count reaches it, every table is merged,
//! newest-wins, into a single fresh table.  Tombstones are preserved by the
//! merge: no older layer exists beneath this level.

use vstd::prelude::*;
use crate::log::Log;
use crate::memtable::Memtable;
use crate::table_manager::simple_table_manager::SimpleTableManager;
use crate::table_manager::{
    apply_table_op, apply_table_ops, encode_table_data, fresh_table_id, lemma_apply_removes,
    lemma_apply_table_ops_concat, lemma_apply_table_ops_one, lemma_level_ids_char,
    lemma_next_id_fresh, lemma_tables_files_dom, lemma_union_empty, level_ids, merge_tables,
    remove_ops, table_ops_only, tables_files, tables_inv, tables_map, FileOp, Table,
    TableManager,
};
use vstd::assert_maps_equal;

verus! {

/// The number of tables that triggers a compaction.
pub const SIMPLE_COMPACT_THRESHOLD: usize = 10;

/// The simple manager with threshold-triggered full compaction.
pub struct SimpleCompactTableManager {
    pub tm: SimpleTableManager,
    pub compact_threshold: usize,
}

impl SimpleCompactTableManager {
    /// Open over the tables loaded from the directory, oldest first, with
    /// the default threshold.
    pub fn new(sstables: Vec<Table>) -> (r: SimpleCompactTableManager)
        requires
            tables_inv(sstables@),
        ensures
            r.inv(),
            r.tm.sstables == sstables,
            r.map_view() == tables_map(sstables@),
            r.compact_threshold == SIMPLE_COMPACT_THRESHOLD,
    {
        SimpleCompactTableManager {
            tm: SimpleTableManager::new(sstables),
            compact_threshold: SIMPLE_COMPACT_THRESHOLD,
        }
    }

    /// Merge every table, oldest first so that newer entries overwrite older
    /// ones, into one fresh table under the next monotonic name.  The output
    /// is written before the inputs are removed, so a crash between mirrored
    /// ops loses no input.  What the level stores is unchanged.
    fn compact(&mut self) -> (ops: Vec<FileOp>)
        requires
            old(self).tm.inv(),
        ensures
            final(self).tm.inv(),
            tables_map(final(self).tm.sstables@) == tables_map(old(self).tm.sstables@),
            final(self).tm.sstables@.len() == 1,
            final(self).compact_threshold == old(self).compact_threshold,
            table_ops_only(ops@),
            apply_table_ops(old(self).tm.disk_view(), ops@) == final(self).tm.disk_view(),
    {
        let ghost m = tables_map(self.tm.sstables@);
        let ghost inputs = self.tm.sstables@;
        let mut merged = Memtable::new();
        merge_tables(&mut merged, &self.tm.sstables);
        proof {
            lemma_union_empty(tables_map(self.tm.sstables@));
        }
        let id = fresh_table_id(&self.tm.sstables);
        let entries = merged.entries;
        let data = encode_table_data(&entries);
        let t = Table { id, entries };
        let ghost tv = t;
        let ghost f0 = tables_files(inputs, 1);
        let mut ops: Vec<FileOp> = Vec::new();
        let write_first = id != u64::MAX || self.tm.sstables.len() == 0;
        if write_first {
            ops.push(FileOp::TableWrite { level: 1, id, data });
            let ghost wop = ops@[0];
            let mut more = remove_ops(&self.tm.sstables, 1);
            let ghost removes = more@;
            ops.append(&mut more);
            proof {
                assert(ops@ =~= seq![wop] + removes);
                lemma_apply_table_ops_concat(f0, seq![wop], removes);
                lemma_apply_table_ops_one(f0, wop);
                let f1 = apply_table_op(f0, wop);
                assert(f1 == f0.insert((1, id), crate::codec::entries_enc(tv.entries_view())));
                lemma_apply_removes(f1, inputs, 1, removes);
                lemma_next_id_fresh(inputs);
                lemma_level_ids_char(inputs, 1);
                lemma_tables_files_dom(inputs, 1);
                assert(seq![tv].len() == 1 && seq![tv][0] == tv);
                assert(seq![tv].drop_last() =~= Seq::<Table>::empty());
                assert(tables_files(seq![tv], 1) == tables_files(Seq::<Table>::empty(), 1)
                    .insert((1, tv.id), crate::codec::entries_enc(tv.entries_view())));
                assert_maps_equal!(
                    f1.remove_keys(level_ids(inputs, 1)),
                    tables_files(seq![tv], 1),
                    k => {
                        if k == (1u8, id) {
                            if level_ids(inputs, 1).contains(k) {
                                let i = choose|i: int| 0 <= i < inputs.len() && k == (1u8, #[trigger] inputs[i].id);
                                assert(false);
                            }
                        }
                    }
                );
                assert(apply_table_ops(f0, ops@) == tables_files(seq![tv], 1));
                assert(table_ops_only(ops@));
            }
        } else {
            // Unreachable with eight-digit decimal names: the whole id space
            // is taken, so no fresh name exists; fall back to removing the
            // inputs before reusing a name.
            ops = remove_ops(&self.tm.sstables, 1);
            let ghost removes = ops@;
            ops.push(FileOp::TableWrite { level: 1, id, data });
            proof {
                let wop = ops@.last();
                assert(ops@ =~= removes + seq![wop]);
                lemma_apply_table_ops_concat(f0, removes, seq![wop]);
                lemma_apply_removes(f0, inputs, 1, removes);
                lemma_tables_files_dom(inputs, 1);
                assert_maps_equal!(
                    f0.remove_keys(level_ids(inputs, 1)),
                    Map::<(u8, u64), Seq<u8>>::empty(),
                    k => {}
                );
                lemma_apply_table_ops_one(Map::<(u8, u64), Seq<u8>>::empty(), wop);
                assert(seq![tv].len() == 1 && seq![tv][0] == tv);
                assert(seq![tv].drop_last() =~= Seq::<Table>::empty());
                assert(tables_files(seq![tv], 1) == tables_files(Seq::<Table>::empty(), 1)
                    .insert((1, tv.id), crate::codec::entries_enc(tv.entries_view())));
                assert(apply_table_op(Map::<(u8, u64), Seq<u8>>::empty(), wop)
                    == Map::<(u8, u64), Seq<u8>>::empty().insert(
                    (1, id),
                    crate::codec::entries_enc(tv.entries_view()),
                ));
                assert(apply_table_ops(f0, ops@) == tables_files(seq![tv], 1));
                assert(table_ops_only(ops@));
            }
        }
        self.tm.sstables.clear();
        self.tm.sstables.push(t);
        proof {
            assert(self.tm.sstables@ =~= seq![tv]);
            assert(self.tm.sstables@.drop_last() =~= Seq::<Table>::empty());
            assert(tables_map(self.tm.sstables@) == tables_map(Seq::<Table>::empty())
                .union_prefer_right(tv.map_view()));
            lemma_union_empty(tv.map_view());
            assert(tv.map_view() == m);
        }
        ops
    }
}

impl TableManager for SimpleCompactTableManager {
    open spec fn inv(&self) -> bool {
        self.tm.inv()
    }

    open spec fn map_view(&self) -> Map<Seq<u8>, Option<Seq<u8>>> {
        self.tm.map_view()
    }

    open spec fn disk_view(&self) -> Map<(u8, u64), Seq<u8>> {
        self.tm.disk_view()
    }

    fn add_table(&mut self, memtable: &Memtable) -> (ops: Vec<FileOp>)
        ensures
            final(self).compact_threshold == old(self).compact_threshold,
            final(self).tm.sstables@.len() == if old(self).tm.sstables@.len() + 1 >= old(
                self,
            ).compact_threshold {
                1int
            } else {
                old(self).tm.sstables@.len() + 1int
            },
    {
        let mut ops = self.tm.add_table(memtable);
        if self.tm.sstables.len() >= self.compact_threshold {
            let ghost ops1 = ops@;
            let mut more = self.compact();
            let ghost ops2 = more@;
            ops.append(&mut more);
            proof {
                assert(ops@ =~= ops1 + ops2);
                lemma_apply_table_ops_concat(old(self).tm.disk_view(), ops1, ops2);
            }
        }
        ops
    }

    fn read(&mut self, key: &Vec<u8>) -> (r: Option<Vec<u8>>)
    {
        self.tm.read(key)
    }

    fn should_flush(&self, wal: &Log, memtable: &Memtable) -> (r: bool)
    {
        self.tm.should_flush(wal, memtable)
    }
}

} // verus!
