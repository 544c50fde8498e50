//! The simple one-level table manager: a single stack of tables, reads
//! newest-first, a new table per flush, no compaction.

use vstd::prelude::*;
use crate::log::Log;
use crate::memtable::Memtable;
use crate::table_manager::{
    apply_table_op, dup_entries, encode_table_data, fresh_table_id, lemma_apply_table_ops_one,
    next_table_id, search_tables, tables_files, tables_inv, tables_map, FileOp, Table,
    TableManager, MEMTABLE_FLUSH_THRESHOLD, WAL_FLUSH_THRESHOLD,
};

verus! {

/// One level of tables; the position in the vector is the age, the last
/// table being the newest.
pub struct SimpleTableManager {
    pub sstables: Vec<Table>,
}

impl SimpleTableManager {
    /// Open over the tables loaded from the directory, oldest first.
    pub fn new(sstables: Vec<Table>) -> (r: SimpleTableManager)
        requires
            tables_inv(sstables@),
        ensures
            r.inv(),
            r.sstables == sstables,
            r.map_view() == tables_map(sstables@),
    {
        SimpleTableManager { sstables }
    }
}

impl TableManager for SimpleTableManager {
    open spec fn inv(&self) -> bool {
        tables_inv(self.sstables@)
    }

    open spec fn map_view(&self) -> Map<Seq<u8>, Option<Seq<u8>>> {
        tables_map(self.sstables@)
    }

    open spec fn disk_view(&self) -> Map<(u8, u64), Seq<u8>> {
        tables_files(self.sstables@, 1)
    }

    fn add_table(&mut self, memtable: &Memtable) -> (ops: Vec<FileOp>)
        ensures
            final(self).sstables@.drop_last() == old(self).sstables@,
            final(self).sstables@.len() == old(self).sstables@.len() + 1,
            final(self).sstables@.last().id == next_table_id(old(self).sstables@),
            final(self).sstables@.last().entries_view() == crate::table_manager::entry_views(
                memtable.entries@,
            ),
            ops@.len() == 1,
            ops@[0] matches FileOp::TableWrite { level, id, data } ==> level == 1 && id
                == next_table_id(old(self).sstables@) && data@ == crate::codec::entries_enc(
                crate::table_manager::entry_views(memtable.entries@),
            ),
            ops@[0] is TableWrite,
    {
        let id = fresh_table_id(&self.sstables);
        let entries = dup_entries(&memtable.entries);
        let data = encode_table_data(&entries);
        let t = Table { id, entries };
        let ghost old_tables = self.sstables@;
        self.sstables.push(t);
        proof {
            assert(self.sstables@.drop_last() =~= old_tables);
            assert(self.sstables@.last() == t);
            assert(t.map_view() == memtable@);
        }
        let mut ops: Vec<FileOp> = Vec::new();
        ops.push(FileOp::TableWrite { level: 1, id, data });
        proof {
            let op = ops@[0];
            assert(ops@ =~= seq![op]);
            lemma_apply_table_ops_one(tables_files(old_tables, 1), op);
            assert(apply_table_op(tables_files(old_tables, 1), op) == tables_files(
                old_tables,
                1,
            ).insert((1, t.id), crate::codec::entries_enc(t.entries_view())));
        }
        ops
    }

    fn read(&mut self, key: &Vec<u8>) -> (r: Option<Vec<u8>>)
    {
        match search_tables(&self.sstables, key) {
            Some(v) => v,
            None => None,
        }
    }

    fn should_flush(&self, wal: &Log, memtable: &Memtable) -> (r: bool)
    {
        memtable.len() >= MEMTABLE_FLUSH_THRESHOLD || wal.len() >= WAL_FLUSH_THRESHOLD
    }
}

} // verus!
