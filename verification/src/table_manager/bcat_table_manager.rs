//! The bloom-cache-and-tiered table manager: the tiered three-level store
//! behind both an approximate-membership filter of the live keys and a
//! bounded cache of read results.  A read consults the filter, then the
//! cache, then the tiered store, installing what it found; a flush updates
//! the filter and the cached keys it touches, then hands storage to the
//! tiered store.

use vstd::prelude::*;
use crate::bytes::{dup_bytes, dup_opt, opt_view};
use crate::cache::{
    cache_bounded, cache_cap, cache_coherent, cache_contains, cache_get, cache_map, cache_new,
    cache_put, CACHE_CAPACITY,
};
use crate::filter::{
    bloom_check, bloom_covers, bloom_fill, bloom_keys, bloom_new, bloom_set, BLOOM_BITMAP_BYTES,
    BLOOM_CAPACITY,
};
use crate::log::Log;
use crate::memtable::{entries_map, lemma_entries_map_char, Memtable};
use crate::table_manager::tiered_compact_table_manager::TieredCompactTableManager;
use crate::table_manager::{
    entry_views, lemma_union_lookup, merge_live_into, merge_live_tables, read_view, tables_inv,
    tables_map, FileOp, Table, TableManager,
};

verus! {

/// The tiered store behind a filter and a cache.
pub struct BCATTableManager {
    pub tm: TieredCompactTableManager,
    pub cache: lru::LruCache<Vec<u8>, Option<Vec<u8>>>,
    pub bloom: bloomfilter::Bloom<Vec<u8>>,
    pub estimate_max_count: usize,
}

impl BCATTableManager {
    /// Open over the tables loaded from the directory, each level oldest
    /// first, rebuilding the filter by scanning level 3, then level 2, then
    /// level 1, so that only the most recent entry for each key decides
    /// whether it is live; the cache starts empty.
    pub fn new(level1: Vec<Table>, level2: Vec<Table>, level3: Option<Table>) -> (r:
        BCATTableManager)
        requires
            tables_inv(level1@),
            tables_inv(level2@),
            level3 matches Some(t) ==> t.inv(),
        ensures
            r.inv(),
            r.tm.tm.sstables == level1,
            r.tm.level2 == level2,
            r.tm.level3 == level3,
    {
        let mut bloom = bloom_new(BLOOM_BITMAP_BYTES, BLOOM_CAPACITY);
        let mut live = Memtable::new();
        match &level3 {
            Some(t) => {
                merge_live_into(&mut live, t);
            }
            None => {
            }
        }
        merge_live_tables(&mut live, &level2);
        merge_live_tables(&mut live, &level1);
        bloom_fill(&mut bloom, &live);
        let tm = TieredCompactTableManager::new(level1, level2, level3);
        proof {
            assert forall|k: Seq<u8>|
                tm.map_view().contains_key(k) && tm.map_view()[k] is Some implies live@
                .contains_key(k) by {
                lemma_union_lookup(
                    tm.l3_map().union_prefer_right(tables_map(tm.level2@)),
                    tables_map(tm.tm.sstables@),
                    k,
                );
                lemma_union_lookup(tm.l3_map(), tables_map(tm.level2@), k);
                if tables_map(tm.tm.sstables@).contains_key(k) {
                    assert(tm.map_view()[k] == tables_map(tm.tm.sstables@)[k]);
                } else if tables_map(tm.level2@).contains_key(k) {
                    assert(tm.map_view()[k] == tables_map(tm.level2@)[k]);
                } else {
                    assert(tm.map_view()[k] == tm.l3_map()[k]);
                }
            }
        }
        BCATTableManager {
            tm,
            cache: cache_new(CACHE_CAPACITY),
            bloom,
            estimate_max_count: BLOOM_CAPACITY,
        }
    }
}

impl TableManager for BCATTableManager {
    open spec fn inv(&self) -> bool {
        &&& self.tm.inv()
        &&& bloom_covers(self.tm.map_view(), bloom_keys(self.bloom))
        &&& cache_coherent(cache_map(self.cache), self.tm.map_view())
        &&& cache_bounded(self.cache)
        &&& cache_cap(self.cache) == CACHE_CAPACITY
    }

    open spec fn map_view(&self) -> Map<Seq<u8>, Option<Seq<u8>>> {
        self.tm.map_view()
    }

    open spec fn disk_view(&self) -> Map<(u8, u64), Seq<u8>> {
        self.tm.disk_view()
    }

    fn add_table(&mut self, memtable: &Memtable) -> (ops: Vec<FileOp>)
        ensures
            final(self).tm.compact_threshold == old(self).tm.compact_threshold,
            final(self).tm.tm.sstables@.len() == if old(self).tm.tm.sstables@.len() + 1 >= old(
                self,
            ).tm.compact_threshold {
                0int
            } else {
                old(self).tm.tm.sstables@.len() + 1int
            },
            final(self).tm.level2@.len() == if old(self).tm.tm.sstables@.len() + 1 >= old(
                self,
            ).tm.compact_threshold {
                if old(self).tm.level2@.len() + 1 >= old(self).tm.compact_threshold {
                    1int
                } else {
                    old(self).tm.level2@.len() + 1int
                }
            } else {
                old(self).tm.level2@.len() as int
            },
    {
        let ghost es = entry_views(memtable.entries@);
        proof {
            lemma_entries_map_char(es);
        }
        let mut i: usize = 0;
        while i < memtable.entries.len()
            invariant
                memtable.inv(),
                es == entry_views(memtable.entries@),
                i <= memtable.entries@.len(),
                bloom_keys(old(self).bloom).subset_of(bloom_keys(self.bloom)),
                self.tm == old(self).tm,
                self.cache == old(self).cache,
                self.estimate_max_count == old(self).estimate_max_count,
                forall|j: int|
                    0 <= j < i && #[trigger] es[j].value is Some ==> bloom_keys(
                        self.bloom,
                    ).contains(es[j].key),
            decreases memtable.entries@.len() - i,
        {
            if memtable.entries[i].value.is_some() {
                bloom_set(&mut self.bloom, &memtable.entries[i].key);
            }
            i = i + 1;
        }
        let mut j: usize = 0;
        while j < memtable.entries.len()
            invariant
                memtable.inv(),
                es == entry_views(memtable.entries@),
                j <= memtable.entries@.len(),
                self.tm == old(self).tm,
                forall|jj: int|
                    0 <= jj < memtable.entries@.len() && #[trigger] es[jj].value is Some
                        ==> bloom_keys(self.bloom).contains(es[jj].key),
                bloom_keys(old(self).bloom).subset_of(bloom_keys(self.bloom)),
                cache_bounded(self.cache),
                cache_cap(self.cache) == CACHE_CAPACITY,
                forall|k: Seq<u8>|
                    #![trigger cache_map(self.cache).contains_key(k)]
                    cache_map(self.cache).contains_key(k) ==> cache_map(self.cache)[k] == (
                    if entries_map(es.take(j as int)).contains_key(k) {
                        entries_map(es.take(j as int))[k]
                    } else {
                        read_view(old(self).tm.map_view(), k)
                    }),
            decreases memtable.entries@.len() - j,
        {
            let ghost pre = entries_map(es.take(j as int));
            let ghost cur = entries_map(es.take(j + 1));
            let ghost ev = es[j as int];
            proof {
                assert(es.take(j + 1).drop_last() =~= es.take(j as int));
                assert(es.take(j + 1).last() == ev);
                assert(cur == pre.insert(ev.key, ev.value));
            }
            let ghost old_cache = cache_map(self.cache);
            if cache_contains(&self.cache, &memtable.entries[j].key) {
                cache_put(
                    &mut self.cache,
                    dup_bytes(&memtable.entries[j].key),
                    dup_opt(&memtable.entries[j].value),
                );
            }
            proof {
                assert forall|k: Seq<u8>|
                    #![trigger cache_map(self.cache).contains_key(k)]
                    cache_map(self.cache).contains_key(k) implies cache_map(self.cache)[k] == (
                if cur.contains_key(k) {
                    cur[k]
                } else {
                    read_view(old(self).tm.map_view(), k)
                }) by {
                    assert(cache_map(self.cache).dom().contains(k));
                    assert(old_cache.insert(ev.key, ev.value).dom().contains(k));
                    if k == ev.key {
                        assert(cache_map(self.cache)[k] == ev.value);
                    } else {
                        assert(old_cache.dom().contains(k) && cache_map(self.cache)[k]
                            == old_cache[k]);
                    }
                }
            }
            j = j + 1;
        }
        proof {
            assert(es.take(es.len() as int) =~= es);
        }
        let ops = self.tm.add_table(memtable);
        proof {
            lemma_entries_map_char(es);
            assert forall|k: Seq<u8>|
                self.tm.map_view().contains_key(k) && self.tm.map_view()[k] is Some implies
                bloom_keys(self.bloom).contains(k) by {
                lemma_union_lookup(old(self).tm.map_view(), memtable@, k);
                if memtable@.contains_key(k) {
                    let jj = choose|jj: int| 0 <= jj < es.len() && #[trigger] es[jj].key == k;
                    assert(memtable@[es[jj].key] == es[jj].value);
                } else {
                    assert(old(self).tm.map_view().contains_key(k));
                }
            }
            assert forall|k: Seq<u8>|
                cache_map(self.cache).contains_key(k) implies cache_map(self.cache)[k]
                == read_view(self.tm.map_view(), k) by {
                lemma_union_lookup(old(self).tm.map_view(), memtable@, k);
            }
        }
        ops
    }

    fn read(&mut self, key: &Vec<u8>) -> (r: Option<Vec<u8>>)
    {
        if bloom_check(&self.bloom, key) {
            match cache_get(&mut self.cache, key) {
                Some(v) => v,
                None => {
                    let ghost old_cache = cache_map(self.cache);
                    let v = self.tm.read(key);
                    cache_put(&mut self.cache, dup_bytes(key), dup_opt(&v));
                    proof {
                        assert forall|k: Seq<u8>|
                            cache_map(self.cache).contains_key(k) implies cache_map(
                            self.cache,
                        )[k] == read_view(self.tm.map_view(), k) by {
                            assert(cache_map(self.cache).dom().contains(k));
                            assert(old_cache.insert(key@, opt_view(v)).dom().contains(k));
                            if k == key@ {
                                assert(cache_map(self.cache)[k] == opt_view(v));
                            } else {
                                assert(old_cache.dom().contains(k) && cache_map(self.cache)[k]
                                    == old_cache[k]);
                            }
                        }
                    }
                    v
                }
            }
        } else {
            proof {
                if self.tm.map_view().contains_key(key@) {
                    assert(!(self.tm.map_view()[key@] is Some));
                }
            }
            None
        }
    }

    fn should_flush(&self, wal: &Log, memtable: &Memtable) -> (r: bool)
    {
        self.tm.should_flush(wal, memtable)
    }
}

} // verus!
