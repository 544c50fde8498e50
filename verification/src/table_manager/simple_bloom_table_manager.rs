//! The bloom-filtered one-level table manager: the simple manager plus an
//! in-memory approximate-membership filter over live keys.  A read consults
//! the filter first and short-circuits to absent on a negative answer; the
//! filter invariant guarantees the short-circuit never hides a live key.

use vstd::prelude::*;
use crate::filter::{
    bloom_check, bloom_covers, bloom_fill, bloom_keys, bloom_new, bloom_set, BLOOM_BITMAP_BYTES,
    BLOOM_CAPACITY,
};
use crate::log::Log;
use crate::memtable::{lemma_entries_map_char, Memtable};
use crate::table_manager::simple_table_manager::SimpleTableManager;
use crate::table_manager::{
    entry_views, lemma_union_lookup, merge_live_tables, tables_inv, tables_map, FileOp, Table,
    TableManager,
};

verus! {

/// The simple manager behind a bloom filter of the live keys.
pub struct SimpleBloomTableManager {
    pub tm: SimpleTableManager,
    pub bloom: bloomfilter::Bloom<Vec<u8>>,
    pub estimate_max_count: usize,
}

impl SimpleBloomTableManager {
    /// Open over the tables loaded from the directory, oldest first,
    /// rebuilding the filter from every key whose most recent entry is a
    /// live value.
    pub fn new(sstables: Vec<Table>) -> (r: SimpleBloomTableManager)
        requires
            tables_inv(sstables@),
        ensures
            r.inv(),
            r.tm.sstables == sstables,
            r.map_view() == tables_map(sstables@),
    {
        let mut bloom = bloom_new(BLOOM_BITMAP_BYTES, BLOOM_CAPACITY);
        let mut live = Memtable::new();
        merge_live_tables(&mut live, &sstables);
        bloom_fill(&mut bloom, &live);
        SimpleBloomTableManager {
            tm: SimpleTableManager::new(sstables),
            bloom,
            estimate_max_count: BLOOM_CAPACITY,
        }
    }
}

impl TableManager for SimpleBloomTableManager {
    open spec fn inv(&self) -> bool {
        &&& self.tm.inv()
        &&& bloom_covers(self.tm.map_view(), bloom_keys(self.bloom))
    }

    open spec fn map_view(&self) -> Map<Seq<u8>, Option<Seq<u8>>> {
        self.tm.map_view()
    }

    open spec fn disk_view(&self) -> Map<(u8, u64), Seq<u8>> {
        self.tm.disk_view()
    }

    fn add_table(&mut self, memtable: &Memtable) -> (ops: Vec<FileOp>)
        ensures
            final(self).tm.sstables@.len() == old(self).tm.sstables@.len() + 1,
    {
        let ghost es = entry_views(memtable.entries@);
        let mut i: usize = 0;
        while i < memtable.entries.len()
            invariant
                memtable.inv(),
                es == entry_views(memtable.entries@),
                i <= memtable.entries@.len(),
                bloom_keys(old(self).bloom).subset_of(bloom_keys(self.bloom)),
                self.tm == old(self).tm,
                self.estimate_max_count == old(self).estimate_max_count,
                forall|j: int|
                    0 <= j < i && #[trigger] es[j].value is Some ==> bloom_keys(
                        self.bloom,
                    ).contains(es[j].key),
            decreases memtable.entries@.len() - i,
        {
            if memtable.entries[i].value.is_some() {
                bloom_set(&mut self.bloom, &memtable.entries[i].key);
            }
            i = i + 1;
        }
        let ops = self.tm.add_table(memtable);
        proof {
            lemma_entries_map_char(es);
            assert forall|k: Seq<u8>|
                self.tm.map_view().contains_key(k) && self.tm.map_view()[k] is Some implies
                bloom_keys(self.bloom).contains(k) by {
                lemma_union_lookup(old(self).tm.map_view(), memtable@, k);
                if memtable@.contains_key(k) {
                    let j = choose|j: int| 0 <= j < es.len() && #[trigger] es[j].key == k;
                    assert(memtable@[es[j].key] == es[j].value);
                } else {
                    assert(old(self).tm.map_view().contains_key(k));
                }
            }
        }
        ops
    }

    fn read(&mut self, key: &Vec<u8>) -> (r: Option<Vec<u8>>)
    {
        if bloom_check(&self.bloom, key) {
            self.tm.read(key)
        } else {
            proof {
                if self.tm.map_view().contains_key(key@) {
                    assert(!(self.tm.map_view()[key@] is Some));
                }
            }
            None
        }
    }

    fn should_flush(&self, wal: &Log, memtable: &Memtable) -> (r: bool)
    {
        self.tm.should_flush(wal, memtable)
    }
}

} // verus!
