//! The caching one-level table manager: the simple manager plus a bounded
//! least-recently-used cache of read results.  A read is served from the
//! cache when present; on a miss the underlying result, tombstone or absence
//! included, is installed.  A flush overwrites the cached value of every key
//! it contains that is currently cached, so the cache never serves a stale
//! result.

use vstd::prelude::*;
use crate::bytes::{dup_bytes, dup_opt, opt_view};
use crate::cache::{
    cache_bounded, cache_cap, cache_coherent, cache_contains, cache_get, cache_map, cache_new,
    cache_put, CACHE_CAPACITY,
};
use crate::log::Log;
use crate::memtable::{entries_map, lemma_entries_map_char, Memtable};
use crate::table_manager::simple_table_manager::SimpleTableManager;
use crate::table_manager::{
    entry_views, lemma_union_lookup, read_view, tables_inv, tables_map, FileOp, Table,
    TableManager,
};

verus! {

/// The simple manager behind a bounded cache of read results.
pub struct SimpleCacheTableManager {
    pub tm: SimpleTableManager,
    pub cache: lru::LruCache<Vec<u8>, Option<Vec<u8>>>,
}

impl SimpleCacheTableManager {
    /// Open over the tables loaded from the directory, oldest first, with an
    /// empty cache.
    pub fn new(sstables: Vec<Table>) -> (r: SimpleCacheTableManager)
        requires
            tables_inv(sstables@),
        ensures
            r.inv(),
            r.tm.sstables == sstables,
            r.map_view() == tables_map(sstables@),
    {
        SimpleCacheTableManager {
            tm: SimpleTableManager::new(sstables),
            cache: cache_new(CACHE_CAPACITY),
        }
    }
}

impl TableManager for SimpleCacheTableManager {
    open spec fn inv(&self) -> bool {
        &&& self.tm.inv()
        &&& cache_coherent(cache_map(self.cache), self.tm.map_view())
        &&& cache_bounded(self.cache)
        &&& cache_cap(self.cache) == CACHE_CAPACITY
    }

    open spec fn map_view(&self) -> Map<Seq<u8>, Option<Seq<u8>>> {
        self.tm.map_view()
    }

    open spec fn disk_view(&self) -> Map<(u8, u64), Seq<u8>> {
        self.tm.disk_view()
    }

    fn add_table(&mut self, memtable: &Memtable) -> (ops: Vec<FileOp>)
        ensures
            final(self).tm.sstables@.len() == old(self).tm.sstables@.len() + 1,
    {
        let ghost es = entry_views(memtable.entries@);
        proof {
            lemma_entries_map_char(es);
        }
        let mut i: usize = 0;
        while i < memtable.entries.len()
            invariant
                memtable.inv(),
                es == entry_views(memtable.entries@),
                i <= memtable.entries@.len(),
                self.tm == old(self).tm,
                cache_bounded(self.cache),
                cache_cap(self.cache) == CACHE_CAPACITY,
                forall|k: Seq<u8>|
                    #![trigger cache_map(self.cache).contains_key(k)]
                    cache_map(self.cache).contains_key(k) ==> cache_map(self.cache)[k] == (
                    if entries_map(es.take(i as int)).contains_key(k) {
                        entries_map(es.take(i as int))[k]
                    } else {
                        read_view(old(self).tm.map_view(), k)
                    }),
            decreases memtable.entries@.len() - i,
        {
            let ghost pre = entries_map(es.take(i as int));
            let ghost cur = entries_map(es.take(i + 1));
            let ghost ev = es[i as int];
            proof {
                assert(es.take(i + 1).drop_last() =~= es.take(i as int));
                assert(es.take(i + 1).last() == ev);
                assert(cur == pre.insert(ev.key, ev.value));
            }
            let ghost old_cache = cache_map(self.cache);
            if cache_contains(&self.cache, &memtable.entries[i].key) {
                cache_put(
                    &mut self.cache,
                    dup_bytes(&memtable.entries[i].key),
                    dup_opt(&memtable.entries[i].value),
                );
            }
            proof {
                assert forall|k: Seq<u8>|
                    #![trigger cache_map(self.cache).contains_key(k)]
                    cache_map(self.cache).contains_key(k) implies cache_map(self.cache)[k] == (
                if cur.contains_key(k) {
                    cur[k]
                } else {
                    read_view(old(self).tm.map_view(), k)
                }) by {
                    assert(cache_map(self.cache).dom().contains(k));
                    assert(old_cache.insert(ev.key, ev.value).dom().contains(k));
                    if k == ev.key {
                        assert(cache_map(self.cache)[k] == ev.value);
                    } else {
                        assert(old_cache.dom().contains(k) && cache_map(self.cache)[k]
                            == old_cache[k]);
                    }
                }
            }
            i = i + 1;
        }
        proof {
            assert(es.take(es.len() as int) =~= es);
        }
        let ops = self.tm.add_table(memtable);
        proof {
            lemma_entries_map_char(es);
            assert forall|k: Seq<u8>|
                cache_map(self.cache).contains_key(k) implies cache_map(self.cache)[k]
                == read_view(self.tm.map_view(), k) by {
                lemma_union_lookup(old(self).tm.map_view(), memtable@, k);
            }
        }
        ops
    }

    fn read(&mut self, key: &Vec<u8>) -> (r: Option<Vec<u8>>)
    {
        match cache_get(&mut self.cache, key) {
            Some(v) => v,
            None => {
                let ghost old_cache = cache_map(self.cache);
                let v = self.tm.read(key);
                cache_put(&mut self.cache, dup_bytes(key), dup_opt(&v));
                proof {
                    assert forall|k: Seq<u8>|
                        cache_map(self.cache).contains_key(k) implies cache_map(self.cache)[k]
                        == read_view(self.tm.map_view(), k) by {
                        assert(cache_map(self.cache).dom().contains(k));
                        assert(old_cache.insert(key@, opt_view(v)).dom().contains(k));
                        if k == key@ {
                            assert(cache_map(self.cache)[k] == opt_view(v));
                        } else {
                            assert(old_cache.dom().contains(k) && cache_map(self.cache)[k]
                                == old_cache[k]);
                        }
                    }
                }
                v
            }
        }
    }

    fn should_flush(&self, wal: &Log, memtable: &Memtable) -> (r: bool)
    {
        self.tm.should_flush(wal, memtable)
    }
}

} // verus!
