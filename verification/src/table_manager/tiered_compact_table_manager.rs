//! The tiered compacting table manager: three levels of tables.  Flushes
//! land in level 1; when level 1 fills, its tables merge into one new level-2
//! table; when that merge would fill level 2, the existing level-2 tables and
//! the level-3 table first merge into a new single level-3 table.  Reads
//! query level 1 newest-first, then level 2 newest-first, then level 3.

use vstd::prelude::*;
use vstd::assert_maps_equal;
use crate::log::Log;
use crate::memtable::Memtable;
use crate::table_manager::simple_table_manager::SimpleTableManager;
use crate::table_manager::{
    apply_table_op, apply_table_ops, encode_table_data, entries_get, fresh_table_id,
    lemma_apply_removes, lemma_apply_table_ops_concat, lemma_apply_table_ops_one,
    lemma_level_ids_char, lemma_tables_files_dom, lemma_union_assoc, lemma_union_empty,
    lemma_union_lookup, level_ids, merge_tables, merge_table_into, remove_ops, search_tables,
    table_ops_only,
    tables_files, tables_inv, tables_map, FileOp, Table, TableManager,
};

verus! {

/// The per-level table count that triggers a cascade.
pub const TIERED_COMPACT_THRESHOLD: usize = 5;

/// Three levels of tables, cascading compactions upward.
pub struct TieredCompactTableManager {
    /// Level 1: receives flushed memtables.
    pub tm: SimpleTableManager,
    /// Level 2: receives level-1 merges, oldest first.
    pub level2: Vec<Table>,
    /// Level 3: at most one table, holding the oldest data.
    pub level3: Option<Table>,
    /// The per-level table count that triggers a cascade.
    pub compact_threshold: usize,
}

impl TieredCompactTableManager {
    /// The mapping the level-3 table stores, if one exists.
    pub open spec fn l3_map(&self) -> Map<Seq<u8>, Option<Seq<u8>>> {
        match self.level3 {
            Some(t) => t.map_view(),
            None => Map::empty(),
        }
    }

    /// The level-3 file on disk, if one exists.
    pub open spec fn l3_files(&self) -> Map<(u8, u64), Seq<u8>> {
        match self.level3 {
            Some(t) => Map::<(u8, u64), Seq<u8>>::empty().insert(
                (3, t.id),
                crate::codec::entries_enc(t.entries_view()),
            ),
            None => Map::empty(),
        }
    }

    /// Open over the tables loaded from the directory, each level oldest
    /// first, with the default threshold.
    pub fn new(level1: Vec<Table>, level2: Vec<Table>, level3: Option<Table>) -> (r:
        TieredCompactTableManager)
        requires
            tables_inv(level1@),
            tables_inv(level2@),
            level3 matches Some(t) ==> t.inv(),
        ensures
            r.inv(),
            r.tm.sstables == level1,
            r.level2 == level2,
            r.level3 == level3,
            r.map_view() == r.l3_map().union_prefer_right(tables_map(level2@))
                .union_prefer_right(tables_map(level1@)),
            r.compact_threshold == TIERED_COMPACT_THRESHOLD,
    {
        TieredCompactTableManager {
            tm: SimpleTableManager::new(level1),
            level2,
            level3,
            compact_threshold: TIERED_COMPACT_THRESHOLD,
        }
    }

    /// Merge the level-2 tables and the level-3 table, oldest first, into a
    /// single new level-3 table.  What the three levels store together is
    /// unchanged.
    fn merge_into_level3(&mut self) -> (ops: Vec<FileOp>)
        requires
            old(self).inv(),
        ensures
            final(self).inv(),
            final(self).l3_map() == old(self).l3_map().union_prefer_right(
                tables_map(old(self).level2@),
            ),
            final(self).level2@.len() == 0,
            final(self).tm == old(self).tm,
            final(self).compact_threshold == old(self).compact_threshold,
            table_ops_only(ops@),
            apply_table_ops(old(self).disk_view(), ops@) == final(self).disk_view(),
    {
        let mut merged = Memtable::new();
        match &self.level3 {
            Some(t) => {
                merge_table_into(&mut merged, t);
                proof {
                    lemma_union_empty(t.map_view());
                }
            }
            None => {
                proof {
                    lemma_union_empty(Map::<Seq<u8>, Option<Seq<u8>>>::empty());
                }
            }
        }
        proof {
            assert(merged@ == old(self).l3_map());
        }
        merge_tables(&mut merged, &self.level2);
        let entries = merged.entries;
        let data = encode_table_data(&entries);
        let t3 = Table { id: 0, entries };
        proof {
            assert(t3.map_view() == old(self).l3_map().union_prefer_right(
                tables_map(old(self).level2@),
            ));
        }
        let mut ops: Vec<FileOp> = Vec::new();
        ops.push(FileOp::TableWrite { level: 3, id: 0, data });
        let ghost wop = ops@[0];
        let mut more = remove_ops(&self.level2, 2);
        let ghost b = more@;
        ops.append(&mut more);
        match &self.level3 {
            Some(t) => {
                if t.id != 0 {
                    ops.push(FileOp::TableRemove { level: 3, id: t.id });
                }
            }
            None => {
            }
        }
        self.level2.clear();
        self.level3 = Some(t3);
        proof {
            let d0 = old(self).disk_view();
            lemma_apply_table_ops_one(d0, wop);
            let f1 = apply_table_op(d0, wop);
            assert(f1 == d0.insert((3, 0u64), crate::codec::entries_enc(t3.entries_view())));
            lemma_apply_removes(f1, old(self).level2@, 2, b);
            let f2 = f1.remove_keys(level_ids(old(self).level2@, 2));
            lemma_apply_table_ops_concat(d0, seq![wop], b);
            lemma_tables_files_dom(old(self).tm.sstables@, 1);
            lemma_tables_files_dom(old(self).level2@, 2);
            lemma_level_ids_char(old(self).level2@, 2);
            assert(self.level2@ =~= Seq::<Table>::empty());
            let f3 = match old(self).level3 {
                Some(t3o) => if t3o.id != 0 {
                    f2.remove((3, t3o.id))
                } else {
                    f2
                },
                None => f2,
            };
            match old(self).level3 {
                Some(t3o) => {
                    if t3o.id != 0 {
                        let rop = ops@.last();
                        assert(ops@ =~= (seq![wop] + b) + seq![rop]);
                        lemma_apply_table_ops_concat(d0, seq![wop] + b, seq![rop]);
                        lemma_apply_table_ops_one(f2, rop);
                        assert(apply_table_ops(d0, ops@) == f3);
                    } else {
                        assert(ops@ =~= seq![wop] + b);
                        assert(apply_table_ops(d0, ops@) == f3);
                    }
                }
                None => {
                    assert(ops@ =~= seq![wop] + b);
                    assert(apply_table_ops(d0, ops@) == f3);
                }
            }
            assert_maps_equal!(f3, self.disk_view(), k => {
                if k == (3u8, 0u64) {
                    assert(!tables_files(old(self).tm.sstables@, 1).contains_key(k));
                    if level_ids(old(self).level2@, 2).contains(k) {
                        let i = choose|i: int| 0 <= i < old(self).level2@.len() && k == (2u8, #[trigger] old(self).level2@[i].id);
                        assert(false);
                    }
                } else if k.0 == 3u8 {
                    assert(!tables_files(old(self).tm.sstables@, 1).contains_key(k));
                    assert(!tables_files(old(self).level2@, 2).contains_key(k));
                } else if k.0 == 2u8 {
                    if tables_files(old(self).level2@, 2).contains_key(k) {
                        assert(level_ids(old(self).level2@, 2).contains(k));
                    }
                    assert(!tables_files(old(self).tm.sstables@, 1).contains_key(k));
                } else {
                    assert(!tables_files(old(self).level2@, 2).contains_key(k));
                    if level_ids(old(self).level2@, 2).contains(k) {
                        let i = choose|i: int| 0 <= i < old(self).level2@.len() && k == (2u8, #[trigger] old(self).level2@[i].id);
                        assert(false);
                    }
                }
            });
            assert(table_ops_only(ops@));
        }
        ops
    }

    /// Merge every level-1 table, oldest first, into one new level-2 table.
    /// What the levels store together is unchanged.
    fn merge_into_level2(&mut self) -> (ops: Vec<FileOp>)
        requires
            old(self).inv(),
        ensures
            final(self).inv(),
            final(self).level3 == old(self).level3,
            final(self).compact_threshold == old(self).compact_threshold,
            final(self).tm.sstables@.len() == 0,
            final(self).level2@.len() == old(self).level2@.len() + 1,
            tables_map(final(self).level2@) == tables_map(old(self).level2@).union_prefer_right(
                tables_map(old(self).tm.sstables@),
            ),
            table_ops_only(ops@),
            apply_table_ops(old(self).disk_view(), ops@) == final(self).disk_view(),
    {
        let mut merged = Memtable::new();
        merge_tables(&mut merged, &self.tm.sstables);
        proof {
            lemma_union_empty(tables_map(self.tm.sstables@));
        }
        let id = fresh_table_id(&self.level2);
        let entries = merged.entries;
        let data = encode_table_data(&entries);
        let t2 = Table { id, entries };
        let ghost old_l2 = self.level2@;
        proof {
            assert(t2.map_view() == tables_map(old(self).tm.sstables@));
        }
        let mut ops: Vec<FileOp> = Vec::new();
        ops.push(FileOp::TableWrite { level: 2, id, data });
        let ghost wop = ops@[0];
        let mut more = remove_ops(&self.tm.sstables, 1);
        let ghost b = more@;
        ops.append(&mut more);
        self.tm.sstables.clear();
        self.level2.push(t2);
        proof {
            assert(self.level2@.drop_last() =~= old_l2);
            assert(self.level2@.last() == t2);
            let d0 = old(self).disk_view();
            assert(ops@ =~= seq![wop] + b);
            lemma_apply_table_ops_concat(d0, seq![wop], b);
            lemma_apply_table_ops_one(d0, wop);
            let f1 = apply_table_op(d0, wop);
            assert(f1 == d0.insert((2, id), crate::codec::entries_enc(t2.entries_view())));
            lemma_apply_removes(f1, old(self).tm.sstables@, 1, b);
            let f2 = f1.remove_keys(level_ids(old(self).tm.sstables@, 1));
            lemma_tables_files_dom(old(self).tm.sstables@, 1);
            lemma_tables_files_dom(old_l2, 2);
            lemma_level_ids_char(old(self).tm.sstables@, 1);
            assert(self.tm.sstables@ =~= Seq::<Table>::empty());
            assert(tables_files(self.level2@, 2) == tables_files(old_l2, 2).insert(
                (2, id),
                crate::codec::entries_enc(t2.entries_view()),
            ));
            assert(apply_table_ops(d0, ops@) == f2);
            assert_maps_equal!(f2, self.disk_view(), k => {
                if k == (2u8, id) {
                    if level_ids(old(self).tm.sstables@, 1).contains(k) {
                        let i = choose|i: int| 0 <= i < old(self).tm.sstables@.len() && k == (1u8, #[trigger] old(self).tm.sstables@[i].id);
                        assert(false);
                    }
                } else if k.0 == 1u8 {
                    if tables_files(old(self).tm.sstables@, 1).contains_key(k) {
                        assert(level_ids(old(self).tm.sstables@, 1).contains(k));
                    }
                } else {
                    if level_ids(old(self).tm.sstables@, 1).contains(k) {
                        let i = choose|i: int| 0 <= i < old(self).tm.sstables@.len() && k == (1u8, #[trigger] old(self).tm.sstables@[i].id);
                        assert(false);
                    }
                    assert(!tables_files(old(self).tm.sstables@, 1).contains_key(k));
                }
            });
            assert(table_ops_only(ops@));
        }
        ops
    }

    /// Cascade: when level 2 would fill, first fold it and level 3 into a
    /// new level-3 table; then fold level 1 into a new level-2 table.
    fn compact(&mut self) -> (ops: Vec<FileOp>)
        requires
            old(self).inv(),
        ensures
            final(self).inv(),
            final(self).map_view() == old(self).map_view(),
            final(self).tm.sstables@.len() == 0,
            final(self).compact_threshold == old(self).compact_threshold,
            final(self).level2@.len() == if old(self).level2@.len() + 1 >= old(
                self,
            ).compact_threshold {
                1int
            } else {
                old(self).level2@.len() + 1int
            },
            table_ops_only(ops@),
            apply_table_ops(old(self).disk_view(), ops@) == final(self).disk_view(),
    {
        let ghost m0 = self.map_view();
        let ghost d0 = self.disk_view();
        let mut ops: Vec<FileOp> = Vec::new();
        if self.level2.len() >= self.compact_threshold - 1 {
            let ghost l3a = self.l3_map();
            let ghost l2a = tables_map(self.level2@);
            let ghost l1a = tables_map(self.tm.sstables@);
            let ghost opsa = ops@;
            let mut more = self.merge_into_level3();
            let ghost opsb = more@;
            ops.append(&mut more);
            proof {
                assert(opsa =~= Seq::<FileOp>::empty());
                assert(ops@ =~= opsb);
                assert(tables_map(self.level2@) =~= tables_map(Seq::<Table>::empty()));
                lemma_union_empty(self.l3_map());
                assert(self.l3_map().union_prefer_right(tables_map(self.level2@))
                    == l3a.union_prefer_right(l2a));
                assert(self.map_view() == m0);
            }
        }
        let ghost l3b = self.l3_map();
        let ghost l2b = tables_map(self.level2@);
        let ghost l1b = tables_map(self.tm.sstables@);
        let ghost opsc = ops@;
        let ghost dmid = self.disk_view();
        let mut more = self.merge_into_level2();
        let ghost opsd = more@;
        ops.append(&mut more);
        proof {
            assert(ops@ =~= opsc + opsd);
            lemma_apply_table_ops_concat(d0, opsc, opsd);
            assert(apply_table_ops(d0, opsc) == dmid);
            assert(tables_map(self.tm.sstables@) =~= tables_map(Seq::<Table>::empty()));
            lemma_union_empty(l3b.union_prefer_right(tables_map(self.level2@)));
            lemma_union_assoc(l3b, l2b, l1b);
            assert(self.map_view() == l3b.union_prefer_right(l2b.union_prefer_right(l1b)));
            assert(self.map_view() == m0);
        }
        ops
    }
}

impl TableManager for TieredCompactTableManager {
    open spec fn inv(&self) -> bool {
        &&& self.compact_threshold >= 1
        &&& self.tm.inv()
        &&& tables_inv(self.level2@)
        &&& (self.level3 matches Some(t) ==> t.inv())
    }

    open spec fn map_view(&self) -> Map<Seq<u8>, Option<Seq<u8>>> {
        self.l3_map().union_prefer_right(tables_map(self.level2@)).union_prefer_right(
            tables_map(self.tm.sstables@),
        )
    }

    open spec fn disk_view(&self) -> Map<(u8, u64), Seq<u8>> {
        self.l3_files().union_prefer_right(tables_files(self.level2@, 2)).union_prefer_right(
            tables_files(self.tm.sstables@, 1),
        )
    }

    fn add_table(&mut self, memtable: &Memtable) -> (ops: Vec<FileOp>)
        ensures
            final(self).compact_threshold == old(self).compact_threshold,
            final(self).tm.sstables@.len() == if old(self).tm.sstables@.len() + 1 >= old(
                self,
            ).compact_threshold {
                0int
            } else {
                old(self).tm.sstables@.len() + 1int
            },
            final(self).level2@.len() == if old(self).tm.sstables@.len() + 1 >= old(
                self,
            ).compact_threshold {
                if old(self).level2@.len() + 1 >= old(self).compact_threshold {
                    1int
                } else {
                    old(self).level2@.len() + 1int
                }
            } else {
                old(self).level2@.len() as int
            },
    {
        let ghost l3a = self.l3_map();
        let ghost l2a = tables_map(self.level2@);
        let ghost l1a = tables_map(self.tm.sstables@);
        let ghost d0 = self.disk_view();
        let mut ops = self.tm.add_table(memtable);
        proof {
            lemma_union_assoc(l3a.union_prefer_right(l2a), l1a, memtable@);
            assert(apply_table_ops(d0, ops@) == self.disk_view()) by {
                let op = ops@[0];
                assert(ops@ =~= seq![op]);
                lemma_apply_table_ops_one(d0, op);
                lemma_apply_table_ops_one(old(self).tm.disk_view(), op);
                let nid = old(self).tm.sstables@.len() as u64;
                assert(apply_table_ops(old(self).tm.disk_view(), ops@) == self.tm.disk_view());
                let written = self.tm.disk_view()[(1u8, nid)];
                assert(apply_table_op(old(self).tm.disk_view(), op) == self.tm.disk_view());
                assert(op is TableWrite);
                assert_maps_equal!(apply_table_op(d0, op), self.disk_view(), k => {});
            }
        }
        if self.tm.sstables.len() >= self.compact_threshold {
            let ghost ops1 = ops@;
            let ghost d1 = self.disk_view();
            let mut more = self.compact();
            let ghost ops2 = more@;
            ops.append(&mut more);
            proof {
                assert(ops@ =~= ops1 + ops2);
                lemma_apply_table_ops_concat(d0, ops1, ops2);
            }
        }
        ops
    }

    fn read(&mut self, key: &Vec<u8>) -> (r: Option<Vec<u8>>)
    {
        proof {
            lemma_union_lookup(
                self.l3_map().union_prefer_right(tables_map(self.level2@)),
                tables_map(self.tm.sstables@),
                key@,
            );
            lemma_union_lookup(self.l3_map(), tables_map(self.level2@), key@);
        }
        match search_tables(&self.tm.sstables, key) {
            Some(v) => v,
            None => {
                match search_tables(&self.level2, key) {
                    Some(v) => v,
                    None => {
                        match &self.level3 {
                            Some(t) => {
                                match entries_get(&t.entries, key) {
                                    Some(v) => v,
                                    None => None,
                                }
                            }
                            None => None,
                        }
                    }
                }
            }
        }
    }

    fn should_flush(&self, wal: &Log, memtable: &Memtable) -> (r: bool)
    {
        self.tm.should_flush(wal, memtable)
    }
}

} // verus!
