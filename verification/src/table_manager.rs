//! Tables (immutable sorted runs), the directory listing they are loaded
//! from, the file actions the engine emits, and the table-manager interface
//! with its shared search and merge machinery.
//!
//! A table manager owns the stack of on-disk runs.  Newness within a level is
//! the position in the vector: a table produced later stands later, matching
//! the lexicographic order of the generated file names.

use vstd::prelude::*;
use vstd::assert_maps_equal;
use crate::bytes::{dup_bytes, dup_opt, key_cmp, lex_lt, opt_view, KeyOrder};
use crate::bytes::{lemma_lex_lt_asym, lemma_lex_lt_trans};
use crate::codec::{decode_entry, encode_entry, entries_enc, entry_enc, EntryView};
use crate::codec::{lemma_entries_enc_push, lemma_entries_enc_split};
use crate::log::Log;
use crate::memtable::{entries_map, lemma_entries_map_char, Memtable};

pub mod bcat_table_manager;
pub mod simple_bloom_table_manager;
pub mod simple_cache_table_manager;
pub mod simple_compact_table_manager;
pub mod simple_table_manager;
pub mod tiered_compact_table_manager;

verus! {

/// Flush when the memtable holds at least this many entries.
pub const MEMTABLE_FLUSH_THRESHOLD: usize = 256;

/// Flush when the write-ahead log is at least this many bytes long.
pub const WAL_FLUSH_THRESHOLD: usize = 4096;

/// One entry of a table: a key and an optional payload, `None` denoting a
/// tombstone.
pub struct SimpleTableEntry {
    pub key: Vec<u8>,
    pub value: Option<Vec<u8>>,
}

impl View for SimpleTableEntry {
    type V = EntryView;

    open spec fn view(&self) -> EntryView {
        EntryView { key: self.key@, value: opt_view(self.value) }
    }
}

impl SimpleTableEntry {
    /// Copy an entry.
    pub fn dup(&self) -> (r: SimpleTableEntry)
        ensures
            r@ == self@,
    {
        SimpleTableEntry { key: dup_bytes(&self.key), value: dup_opt(&self.value) }
    }
}

/// The views of a vector of entries.
pub open spec fn entry_views(es: Seq<SimpleTableEntry>) -> Seq<EntryView> {
    es.map_values(|e: SimpleTableEntry| e@)
}

/// Entries in strictly ascending key order: the order every table and the
/// memtable maintain.
pub open spec fn sorted_entries(es: Seq<EntryView>) -> bool {
    forall|i: int, j: int| 0 <= i < j < es.len() ==> lex_lt(es[i].key, es[j].key)
}

/// One immutable sorted run.  The numeric id names the file on disk; the
/// engine gives each new table of a level the next monotonic id, so position
/// in a level's vector and file-name order agree.
pub struct Table {
    pub id: u64,
    pub entries: Vec<SimpleTableEntry>,
}

impl Table {
    /// Entries in strictly ascending key order.
    pub open spec fn inv(&self) -> bool {
        sorted_entries(self.entries_view())
    }

    /// The entries held.
    pub open spec fn entries_view(&self) -> Seq<EntryView> {
        entry_views(self.entries@)
    }

    /// The mapping the table stores.
    pub open spec fn map_view(&self) -> Map<Seq<u8>, Option<Seq<u8>>> {
        entries_map(self.entries_view())
    }
}

/// One file found in the engine's directory when it is opened: its level
/// (taken from the file extension), its numeric id (taken from the file
/// name), and its raw contents.
pub struct TableFile {
    pub level: u8,
    pub id: u64,
    pub data: Vec<u8>,
}

/// A file action that a caller must mirror to durable storage.  Ops are
/// emitted in the order they must be applied: a flush writes the new table
/// before it truncates the log, and a compaction writes its output — under
/// a name distinct from every input's — before it removes its inputs, so a
/// crash between mirrored ops never loses both.  The one exception is the
/// level-3 file, whose single fixed name is overwritten in place.
pub enum FileOp {
    /// Append these bytes to the write-ahead log and flush it.
    WalAppend(Vec<u8>),
    /// Replace the write-ahead log's contents with these bytes.
    WalWrite(Vec<u8>),
    /// Truncate the write-ahead log to empty.
    WalTruncate,
    /// Write a table file with these contents and sync it.
    TableWrite { level: u8, id: u64, data: Vec<u8> },
    /// Remove a table file.
    TableRemove { level: u8, id: u64 },
}

/// The mapping observed across a stack of tables, the last (newest) table
/// winning for a key stored several times.
pub open spec fn tables_map(ts: Seq<Table>) -> Map<Seq<u8>, Option<Seq<u8>>>
    decreases ts.len(),
{
    if ts.len() == 0 {
        Map::empty()
    } else {
        tables_map(ts.drop_last()).union_prefer_right(ts.last().map_view())
    }
}

/// Every table of the stack is sorted.
pub open spec fn tables_inv(ts: Seq<Table>) -> bool {
    forall|i: int| 0 <= i < ts.len() ==> ts[i].inv()
}

/// What a stack of tables stores for a key: `None` when no table holds the
/// key at all, `Some(None)` when the winning entry is a tombstone.
pub open spec fn stored_lookup(m: Map<Seq<u8>, Option<Seq<u8>>>, k: Seq<u8>) -> Option<
    Option<Seq<u8>>,
> {
    if m.contains_key(k) {
        Some(m[k])
    } else {
        None
    }
}

/// What a reader observes for a key: the stored value, a stored tombstone
/// and an absent key both reading as `None`.
pub open spec fn read_view(m: Map<Seq<u8>, Option<Seq<u8>>>, k: Seq<u8>) -> Option<Seq<u8>> {
    if m.contains_key(k) {
        m[k]
    } else {
        None
    }
}

/// The view of a doubly optional exec value.
pub open spec fn opt2_view(r: Option<Option<Vec<u8>>>) -> Option<Option<Seq<u8>>> {
    match r {
        Some(v) => Some(opt_view(v)),
        None => None,
    }
}

/// The table files of one level as they stand on disk: one entry per table,
/// keyed by level and id, holding the encoding of the table's entries.
pub open spec fn tables_files(ts: Seq<Table>, level: u8) -> Map<(u8, u64), Seq<u8>>
    decreases ts.len(),
{
    if ts.len() == 0 {
        Map::empty()
    } else {
        tables_files(ts.drop_last(), level).insert(
            (level, ts.last().id),
            entries_enc(ts.last().entries_view()),
        )
    }
}

/// The largest id a stack holds; zero for the empty stack.
pub open spec fn spec_max_id(ts: Seq<Table>) -> u64
    decreases ts.len(),
{
    if ts.len() == 0 {
        0
    } else if spec_max_id(ts.drop_last()) >= ts.last().id {
        spec_max_id(ts.drop_last())
    } else {
        ts.last().id
    }
}

/// The next monotonic id for a table produced into the level: one past the
/// largest name present, so the new file sorts after every existing one.
/// Saturates at the id type's limit, which no real directory reaches.
pub open spec fn next_table_id(ts: Seq<Table>) -> u64 {
    if ts.len() == 0 {
        0
    } else if spec_max_id(ts) == u64::MAX {
        u64::MAX
    } else {
        (spec_max_id(ts) + 1) as u64
    }
}

/// Unless saturated, the next id is strictly above every id in the stack.
pub proof fn lemma_next_id_fresh(ts: Seq<Table>)
    requires
        next_table_id(ts) != u64::MAX || ts.len() == 0,
    ensures
        forall|i: int| 0 <= i < ts.len() ==> (#[trigger] ts[i].id) < next_table_id(ts),
    decreases ts.len(),
{
    if ts.len() > 0 {
        lemma_max_id_bound(ts);
    }
}

/// Every id in the stack is at most the maximum.
pub proof fn lemma_max_id_bound(ts: Seq<Table>)
    ensures
        forall|i: int| 0 <= i < ts.len() ==> (#[trigger] ts[i].id) <= spec_max_id(ts),
    decreases ts.len(),
{
    if ts.len() > 0 {
        lemma_max_id_bound(ts.drop_last());
        assert forall|i: int| 0 <= i < ts.len() implies (#[trigger] ts[i].id) <= spec_max_id(
            ts,
        ) by {
            if i < ts.len() - 1 {
                assert(ts.drop_last()[i] == ts[i]);
            }
        }
    }
}

/// Compute the next monotonic id for the level.
pub fn fresh_table_id(ts: &Vec<Table>) -> (r: u64)
    ensures
        r == next_table_id(ts@),
{
    let mut max: u64 = 0;
    let mut i: usize = 0;
    while i < ts.len()
        invariant
            i <= ts@.len(),
            max == spec_max_id(ts@.take(i as int)),
        decreases ts@.len() - i,
    {
        proof {
            assert(ts@.take(i + 1).drop_last() =~= ts@.take(i as int));
            assert(ts@.take(i + 1).last() == ts@[i as int]);
        }
        if ts[i].id > max {
            max = ts[i].id;
        }
        i = i + 1;
    }
    proof {
        assert(ts@.take(ts@.len() as int) =~= ts@);
    }
    if ts.len() == 0 {
        0
    } else if max == u64::MAX {
        u64::MAX
    } else {
        max + 1
    }
}

/// The file names of one level on disk.
pub open spec fn level_ids(ts: Seq<Table>, level: u8) -> Set<(u8, u64)>
    decreases ts.len(),
{
    if ts.len() == 0 {
        Set::empty()
    } else {
        level_ids(ts.drop_last(), level).insert((level, ts.last().id))
    }
}

/// What one emitted op does to the table files of a directory; the log ops
/// leave them alone.
pub open spec fn apply_table_op(files: Map<(u8, u64), Seq<u8>>, op: FileOp) -> Map<
    (u8, u64),
    Seq<u8>,
> {
    match op {
        FileOp::TableWrite { level, id, data } => files.insert((level, id), data@),
        FileOp::TableRemove { level, id } => files.remove((level, id)),
        _ => files,
    }
}

/// What a sequence of emitted ops, applied in order, does to the table
/// files of a directory.
pub open spec fn apply_table_ops(files: Map<(u8, u64), Seq<u8>>, ops: Seq<FileOp>) -> Map<
    (u8, u64),
    Seq<u8>,
>
    decreases ops.len(),
{
    if ops.len() == 0 {
        files
    } else {
        apply_table_ops(apply_table_op(files, ops[0]), ops.drop_first())
    }
}

/// Ops that touch only table files, never the write-ahead log: everything a
/// table manager emits.
pub open spec fn table_ops_only(ops: Seq<FileOp>) -> bool {
    forall|i: int|
        0 <= i < ops.len() ==> (#[trigger] ops[i] is TableWrite) || ops[i] is TableRemove
}

/// Ops apply in order across a split of the sequence.
pub proof fn lemma_apply_table_ops_concat(
    files: Map<(u8, u64), Seq<u8>>,
    a: Seq<FileOp>,
    b: Seq<FileOp>,
)
    ensures
        apply_table_ops(files, a + b) == apply_table_ops(apply_table_ops(files, a), b),
    decreases a.len(),
{
    if a.len() == 0 {
        assert(a + b =~= b);
    } else {
        assert((a + b)[0] == a[0]);
        assert((a + b).drop_first() =~= a.drop_first() + b);
        lemma_apply_table_ops_concat(apply_table_op(files, a[0]), a.drop_first(), b);
    }
}

/// A single op applies directly.
pub proof fn lemma_apply_table_ops_one(files: Map<(u8, u64), Seq<u8>>, op: FileOp)
    ensures
        apply_table_ops(files, seq![op]) == apply_table_op(files, op),
{
    assert(seq![op].len() == 1 && seq![op][0] == op);
    assert(seq![op].drop_first() =~= Seq::<FileOp>::empty());
    assert(apply_table_ops(files, seq![op]) == apply_table_ops(
        apply_table_op(files, op),
        Seq::<FileOp>::empty(),
    ));
}

/// Every file of a level's stack is named with that level.
pub proof fn lemma_tables_files_dom(ts: Seq<Table>, level: u8)
    ensures
        forall|k: (u8, u64)|
            #[trigger] tables_files(ts, level).contains_key(k) ==> k.0 == level
                && level_ids(ts, level).contains(k),
    decreases ts.len(),
{
    if ts.len() > 0 {
        lemma_tables_files_dom(ts.drop_last(), level);
        assert forall|k: (u8, u64)|
            #[trigger] tables_files(ts, level).contains_key(k) implies k.0 == level
            && level_ids(ts, level).contains(k) by {
            if k != (level, ts.last().id) {
                assert(tables_files(ts.drop_last(), level).contains_key(k));
                assert(level_ids(ts.drop_last(), level).contains(k));
            }
        }
    }
}

/// The on-disk storage policy: a set of immutable sorted runs that accepts
/// flushed memtables, answers reads under the newest-wins rule, and decides
/// when the engine should flush.
pub trait TableManager: Sized {
    /// The manager's internal invariant.
    spec fn inv(&self) -> bool;

    /// The mapping observed across every run the manager holds, newest-wins.
    spec fn map_view(&self) -> Map<Seq<u8>, Option<Seq<u8>>>;

    /// The table files the manager expects on disk: one entry per run it
    /// holds, keyed by level and id.
    spec fn disk_view(&self) -> Map<(u8, u64), Seq<u8>>;

    /// Produce one new table in the lowest level holding a snapshot of the
    /// memtable, compacting afterwards if the policy calls for it.  The
    /// returned ops record the files written and removed.
    fn add_table(&mut self, memtable: &Memtable) -> (ops: Vec<FileOp>)
        requires
            old(self).inv(),
            memtable.inv(),
        ensures
            final(self).inv(),
            final(self).map_view() == old(self).map_view().union_prefer_right(memtable@),
            table_ops_only(ops@),
            apply_table_ops(old(self).disk_view(), ops@) == final(self).disk_view(),
    ;

    /// Read the observed value for a key: the newest stored value, with a
    /// stored tombstone and an absent key both reading as `None`.
    fn read(&mut self, key: &Vec<u8>) -> (r: Option<Vec<u8>>)
        requires
            old(self).inv(),
        ensures
            final(self).inv(),
            final(self).map_view() == old(self).map_view(),
            final(self).disk_view() == old(self).disk_view(),
            opt_view(r) == read_view(old(self).map_view(), key@),
    ;

    /// Whether the coordinator should flush the memtable now.
    fn should_flush(&self, wal: &Log, memtable: &Memtable) -> (r: bool)
        ensures
            r == (memtable.spec_len() >= MEMTABLE_FLUSH_THRESHOLD || wal@.len()
                >= WAL_FLUSH_THRESHOLD),
    ;
}

/// `union_prefer_right` is associative.
pub proof fn lemma_union_assoc(
    a: Map<Seq<u8>, Option<Seq<u8>>>,
    b: Map<Seq<u8>, Option<Seq<u8>>>,
    c: Map<Seq<u8>, Option<Seq<u8>>>,
)
    ensures
        a.union_prefer_right(b).union_prefer_right(c) == a.union_prefer_right(
            b.union_prefer_right(c),
        ),
{
    assert_maps_equal!(
        a.union_prefer_right(b).union_prefer_right(c),
        a.union_prefer_right(b.union_prefer_right(c)),
        k => {}
    );
}

/// The empty map is a unit of `union_prefer_right`.
pub proof fn lemma_union_empty(m: Map<Seq<u8>, Option<Seq<u8>>>)
    ensures
        m.union_prefer_right(Map::empty()) == m,
        Map::<Seq<u8>, Option<Seq<u8>>>::empty().union_prefer_right(m) == m,
{
    assert_maps_equal!(m.union_prefer_right(Map::empty()), m, k => {});
    assert_maps_equal!(Map::<Seq<u8>, Option<Seq<u8>>>::empty().union_prefer_right(m), m, k => {});
}

/// Inserting into the right operand commutes with the union.
pub proof fn lemma_union_insert_right(
    a: Map<Seq<u8>, Option<Seq<u8>>>,
    b: Map<Seq<u8>, Option<Seq<u8>>>,
    k: Seq<u8>,
    v: Option<Seq<u8>>,
)
    ensures
        a.union_prefer_right(b).insert(k, v) == a.union_prefer_right(b.insert(k, v)),
{
    assert_maps_equal!(a.union_prefer_right(b).insert(k, v), a.union_prefer_right(b.insert(k, v)), x => {});
}

/// A lookup in a union is decided by the right operand where it holds the
/// key, and by the left operand otherwise.
pub proof fn lemma_union_lookup(
    a: Map<Seq<u8>, Option<Seq<u8>>>,
    b: Map<Seq<u8>, Option<Seq<u8>>>,
    k: Seq<u8>,
)
    ensures
        stored_lookup(a.union_prefer_right(b), k) == if b.contains_key(k) {
            Some(b[k])
        } else {
            stored_lookup(a, k)
        },
        read_view(a.union_prefer_right(b), k) == if b.contains_key(k) {
            b[k]
        } else {
            read_view(a, k)
        },
{
}

/// Tables above position `i` that do not hold the key do not influence the
/// lookup.
pub proof fn lemma_tables_map_skip_top(ts: Seq<Table>, k: Seq<u8>, i: int)
    requires
        0 <= i <= ts.len(),
        forall|j: int| i <= j < ts.len() ==> !#[trigger] ts[j].map_view().contains_key(k),
    ensures
        stored_lookup(tables_map(ts), k) == stored_lookup(tables_map(ts.take(i)), k),
    decreases ts.len() - i,
{
    if i == ts.len() {
        assert(ts.take(i) =~= ts);
    } else {
        assert(forall|j: int| i <= j < ts.drop_last().len() ==> ts.drop_last()[j] == ts[j]);
        assert(forall|j: int|
            i <= j < ts.drop_last().len() ==> !#[trigger] ts.drop_last()[j].map_view().contains_key(
                k,
            ));
        lemma_tables_map_skip_top(ts.drop_last(), k, i);
        assert(ts.drop_last().take(i) =~= ts.take(i));
        assert(!ts.last().map_view().contains_key(k));
    }
}

/// The index of the first entry whose key is not below the target: the
/// position where the target stands or would stand.
pub fn lower_bound(entries: &Vec<SimpleTableEntry>, key: &Vec<u8>) -> (pos: usize)
    requires
        sorted_entries(entry_views(entries@)),
    ensures
        pos <= entries@.len(),
        forall|j: int| 0 <= j < pos ==> lex_lt(#[trigger] entry_views(entries@)[j].key, key@),
        forall|j: int|
            pos <= j < entries@.len() ==> !lex_lt(#[trigger] entry_views(entries@)[j].key, key@),
{
    let ghost es = entry_views(entries@);
    let mut lo: usize = 0;
    let mut hi: usize = entries.len();
    while lo < hi
        invariant
            es == entry_views(entries@),
            sorted_entries(es),
            lo <= hi <= entries@.len(),
            forall|j: int| 0 <= j < lo ==> lex_lt(#[trigger] es[j].key, key@),
            forall|j: int| hi <= j < entries@.len() ==> !lex_lt(#[trigger] es[j].key, key@),
        decreases hi - lo,
    {
        let mid = lo + (hi - lo) / 2;
        match key_cmp(&entries[mid].key, key) {
            KeyOrder::Less => {
                proof {
                    assert forall|j: int| 0 <= j < mid + 1 implies lex_lt(
                        #[trigger] es[j].key,
                        key@,
                    ) by {
                        if j < mid {
                            lemma_lex_lt_trans(es[j].key, es[mid as int].key, key@);
                        }
                    }
                }
                lo = mid + 1;
            }
            _ => {
                proof {
                    assert forall|j: int| mid <= j < es.len() implies !lex_lt(
                        #[trigger] es[j].key,
                        key@,
                    ) by {
                        if j > mid && lex_lt(es[j].key, key@) {
                            lemma_lex_lt_trans(es[mid as int].key, es[j].key, key@);
                        }
                    }
                }
                hi = mid;
            }
        }
    }
    lo
}

/// Look one key up in one sorted run by binary search.
pub fn entries_get(entries: &Vec<SimpleTableEntry>, key: &Vec<u8>) -> (r: Option<Option<Vec<u8>>>)
    requires
        sorted_entries(entry_views(entries@)),
    ensures
        opt2_view(r) == stored_lookup(entries_map(entry_views(entries@)), key@),
{
    let ghost es = entry_views(entries@);
    proof {
        lemma_entries_map_char(es);
    }
    let pos = lower_bound(entries, key);
    if pos < entries.len() {
        match key_cmp(&entries[pos].key, key) {
            KeyOrder::Equal => {
                proof {
                    assert(es[pos as int].key == key@);
                }
                return Some(dup_opt(&entries[pos].value));
            }
            _ => {
                proof {
                    assert forall|j: int| 0 <= j < es.len() implies #[trigger] es[j].key
                        != key@ by {
                        if j < pos {
                            lemma_lex_lt_asym(es[j].key, key@);
                        } else if j > pos && es[j].key == key@ {
                            assert(lex_lt(es[pos as int].key, es[j].key));
                        }
                    }
                }
                return None;
            }
        }
    }
    proof {
        assert forall|j: int| 0 <= j < es.len() implies #[trigger] es[j].key != key@ by {
            lemma_lex_lt_asym(es[j].key, key@);
        }
    }
    None
}

/// Search a stack of tables newest-first and return what the stack stores
/// for the key.
pub fn search_tables(ts: &Vec<Table>, key: &Vec<u8>) -> (r: Option<Option<Vec<u8>>>)
    requires
        tables_inv(ts@),
    ensures
        opt2_view(r) == stored_lookup(tables_map(ts@), key@),
{
    let mut i: usize = ts.len();
    while i > 0
        invariant
            tables_inv(ts@),
            i <= ts@.len(),
            forall|j: int| i <= j < ts@.len() ==> !#[trigger] ts@[j].map_view().contains_key(key@),
        decreases i,
    {
        i = i - 1;
        assert(ts@[i as int].inv());
        match entries_get(&ts[i].entries, key) {
            Some(v) => {
                proof {
                    lemma_tables_map_skip_top(ts@, key@, i + 1);
                    assert(ts@.take(i + 1).drop_last() =~= ts@.take(i as int));
                    assert(ts@.take(i + 1).last() == ts@[i as int]);
                }
                return Some(v);
            }
            None => {
            }
        }
    }
    proof {
        lemma_tables_map_skip_top(ts@, key@, 0);
        assert(ts@.take(0) =~= Seq::<Table>::empty());
    }
    None
}

/// Merge one table into an ordered mapping: its entries are applied in
/// order, so the table's own contents overwrite what the mapping held.
pub fn merge_table_into(mt: &mut Memtable, t: &Table)
    requires
        old(mt).inv(),
    ensures
        final(mt).inv(),
        final(mt)@ == old(mt)@.union_prefer_right(t.map_view()),
{
    let ghost m0 = mt@;
    let mut i: usize = 0;
    while i < t.entries.len()
        invariant
            mt.inv(),
            i <= t.entries@.len(),
            mt@ == m0.union_prefer_right(entries_map(entry_views(t.entries@.take(i as int)))),
        decreases t.entries@.len() - i,
    {
        let ghost pre = entry_views(t.entries@.take(i as int));
        let ghost cur = entry_views(t.entries@.take(i + 1));
        let ghost ev = t.entries@[i as int]@;
        proof {
            assert(cur.drop_last() =~= pre);
            assert(cur.last() == ev);
            lemma_union_insert_right(m0, entries_map(pre), ev.key, ev.value);
        }
        mt.insert(dup_bytes(&t.entries[i].key), dup_opt(&t.entries[i].value));
        i = i + 1;
    }
    proof {
        assert(t.entries@.take(t.entries@.len() as int) =~= t.entries@);
    }
}

/// Merge a stack of tables, oldest first, into an ordered mapping.
pub fn merge_tables(mt: &mut Memtable, ts: &Vec<Table>)
    requires
        old(mt).inv(),
    ensures
        final(mt).inv(),
        final(mt)@ == old(mt)@.union_prefer_right(tables_map(ts@)),
{
    let ghost m0 = mt@;
    let mut i: usize = 0;
    while i < ts.len()
        invariant
            mt.inv(),
            i <= ts@.len(),
            mt@ == m0.union_prefer_right(tables_map(ts@.take(i as int))),
        decreases ts@.len() - i,
    {
        let ghost pre = ts@.take(i as int);
        let ghost cur = ts@.take(i + 1);
        proof {
            assert(cur.drop_last() =~= pre);
            assert(cur.last() == ts@[i as int]);
            lemma_union_assoc(m0, tables_map(pre), ts@[i as int].map_view());
        }
        merge_table_into(mt, &ts[i]);
        i = i + 1;
    }
    proof {
        assert(ts@.take(ts@.len() as int) =~= ts@);
    }
}

/// Merge the live entries of one table into an ordered mapping: tombstones
/// are skipped, so the result covers every key the table stores with a
/// value.
pub fn merge_live_into(mt: &mut Memtable, t: &Table)
    requires
        old(mt).inv(),
        t.inv(),
    ensures
        final(mt).inv(),
        forall|k: Seq<u8>| old(mt)@.contains_key(k) ==> final(mt)@.contains_key(k),
        forall|k: Seq<u8>|
            t.map_view().contains_key(k) && t.map_view()[k] is Some
                ==> final(mt)@.contains_key(k),
{
    let ghost m0 = mt@;
    let ghost es = entry_views(t.entries@);
    proof {
        lemma_entries_map_char(es);
    }
    let mut i: usize = 0;
    while i < t.entries.len()
        invariant
            mt.inv(),
            i <= t.entries@.len(),
            es == entry_views(t.entries@),
            forall|k: Seq<u8>| m0.contains_key(k) ==> mt@.contains_key(k),
            forall|j: int|
                0 <= j < i && #[trigger] es[j].value is Some ==> mt@.contains_key(es[j].key),
        decreases t.entries@.len() - i,
    {
        if t.entries[i].value.is_some() {
            mt.insert(dup_bytes(&t.entries[i].key), dup_opt(&t.entries[i].value));
        }
        i = i + 1;
    }
    proof {
        lemma_entries_map_char(es);
        assert forall|k: Seq<u8>|
            t.map_view().contains_key(k) && t.map_view()[k] is Some implies mt@.contains_key(
            k,
        ) by {
            let j = choose|j: int| 0 <= j < es.len() && #[trigger] es[j].key == k;
            assert(t.map_view()[es[j].key] == es[j].value);
        }
    }
}

/// Merge the live entries of a stack of tables, oldest first, into an
/// ordered mapping: the result covers every key the stack observes with a
/// value.
pub fn merge_live_tables(mt: &mut Memtable, ts: &Vec<Table>)
    requires
        old(mt).inv(),
        tables_inv(ts@),
    ensures
        final(mt).inv(),
        forall|k: Seq<u8>| old(mt)@.contains_key(k) ==> final(mt)@.contains_key(k),
        forall|k: Seq<u8>|
            tables_map(ts@).contains_key(k) && tables_map(ts@)[k] is Some
                ==> final(mt)@.contains_key(k),
{
    let ghost m0 = mt@;
    let mut i: usize = 0;
    while i < ts.len()
        invariant
            mt.inv(),
            tables_inv(ts@),
            i <= ts@.len(),
            forall|k: Seq<u8>| m0.contains_key(k) ==> mt@.contains_key(k),
            forall|k: Seq<u8>|
                tables_map(ts@.take(i as int)).contains_key(k) && tables_map(
                    ts@.take(i as int),
                )[k] is Some ==> mt@.contains_key(k),
        decreases ts@.len() - i,
    {
        let ghost pre = ts@.take(i as int);
        let ghost cur = ts@.take(i + 1);
        let ghost prev = mt@;
        proof {
            assert(cur.drop_last() =~= pre);
            assert(cur.last() == ts@[i as int]);
            assert(ts@[i as int].inv());
        }
        merge_live_into(mt, &ts[i]);
        proof {
            assert forall|k: Seq<u8>|
                tables_map(cur).contains_key(k) && tables_map(cur)[k] is Some implies
                mt@.contains_key(k) by {
                let tmap = ts@[i as int].map_view();
                if tmap.contains_key(k) {
                    assert(tables_map(cur)[k] == tmap[k]);
                } else {
                    assert(tables_map(cur)[k] == tables_map(pre)[k]);
                    assert(prev.contains_key(k));
                }
            }
        }
        i = i + 1;
    }
    proof {
        assert(ts@.take(ts@.len() as int) =~= ts@);
    }
}

/// The ops that remove every table of a stack from a level.
pub fn remove_ops(ts: &Vec<Table>, level: u8) -> (ops: Vec<FileOp>)
    ensures
        ops@.len() == ts@.len(),
        forall|i: int|
            0 <= i < ops@.len() ==> #[trigger] ops@[i] == (FileOp::TableRemove {
                level,
                id: ts@[i].id,
            }),
{
    let mut ops: Vec<FileOp> = Vec::new();
    let mut i: usize = 0;
    while i < ts.len()
        invariant
            i <= ts@.len(),
            ops@.len() == i,
            forall|j: int|
                0 <= j < i ==> #[trigger] ops@[j] == (FileOp::TableRemove {
                    level,
                    id: ts@[j].id,
                }),
        decreases ts@.len() - i,
    {
        ops.push(FileOp::TableRemove { level, id: ts[i].id });
        i = i + 1;
    }
    ops
}

/// The names a level's stack holds are exactly its (level, id) pairs.
pub proof fn lemma_level_ids_char(ts: Seq<Table>, level: u8)
    ensures
        forall|k: (u8, u64)|
            level_ids(ts, level).contains(k) == exists|i: int|
                0 <= i < ts.len() && k == (level, #[trigger] ts[i].id),
    decreases ts.len(),
{
    if ts.len() > 0 {
        let pre = ts.drop_last();
        lemma_level_ids_char(pre, level);
        assert(forall|i: int| 0 <= i < pre.len() ==> #[trigger] pre[i] == ts[i]);
        assert(ts.last() == ts[ts.len() - 1]);
        assert forall|k: (u8, u64)|
            level_ids(ts, level).contains(k) == exists|i: int|
                0 <= i < ts.len() && k == (level, #[trigger] ts[i].id) by {
            if k == (level, ts.last().id) {
                assert(level_ids(ts, level).contains(k));
                assert(k == (level, ts[ts.len() - 1].id));
            } else {
                if level_ids(ts, level).contains(k) {
                    assert(level_ids(pre, level).contains(k));
                    let i = choose|i: int| 0 <= i < pre.len() && k == (level, #[trigger] pre[i].id);
                    assert(pre[i] == ts[i]);
                    assert(k == (level, ts[i].id));
                }
                if exists|i: int| 0 <= i < ts.len() && k == (level, #[trigger] ts[i].id) {
                    let i = choose|i: int| 0 <= i < ts.len() && k == (level, #[trigger] ts[i].id);
                    assert(i < ts.len() - 1);
                    assert(pre[i] == ts[i]);
                    assert(k == (level, pre[i].id));
                    assert(level_ids(pre, level).contains(k));
                }
            }
        }
    }
}

/// Applying the removal ops of a stack erases exactly the stack's names
/// from the directory.
pub proof fn lemma_apply_removes(
    files: Map<(u8, u64), Seq<u8>>,
    ts: Seq<Table>,
    level: u8,
    ops: Seq<FileOp>,
)
    requires
        ops.len() == ts.len(),
        forall|i: int|
            0 <= i < ops.len() ==> #[trigger] ops[i] == (FileOp::TableRemove {
                level,
                id: ts[i].id,
            }),
    ensures
        apply_table_ops(files, ops) == files.remove_keys(level_ids(ts, level)),
    decreases ts.len(),
{
    lemma_level_ids_char(ts, level);
    if ts.len() == 0 {
        assert_maps_equal!(files.remove_keys(level_ids(ts, level)), files, k => {});
    } else {
        let k0 = (level, ts[0].id);
        assert(ops[0] == (FileOp::TableRemove { level, id: ts[0].id }));
        assert(apply_table_op(files, ops[0]) == files.remove(k0));
        let rest = ts.drop_first();
        assert(forall|i: int|
            0 <= i < ops.drop_first().len() ==> #[trigger] ops.drop_first()[i] == (
            FileOp::TableRemove { level, id: rest[i].id }));
        lemma_apply_removes(files.remove(k0), rest, level, ops.drop_first());
        lemma_level_ids_char(rest, level);
        assert_maps_equal!(
            files.remove(k0).remove_keys(level_ids(rest, level)),
            files.remove_keys(level_ids(ts, level)),
            k => {
                if k != k0 {
                    if level_ids(ts, level).contains(k) {
                        let i = choose|i: int| 0 <= i < ts.len() && k == (level, #[trigger] ts[i].id);
                        assert(i > 0);
                        assert(k == (level, rest[i - 1].id));
                    }
                    if level_ids(rest, level).contains(k) {
                        let i = choose|i: int| 0 <= i < rest.len() && k == (level, #[trigger] rest[i].id);
                        assert(k == (level, ts[i + 1].id));
                    }
                }
            }
        );
    }
}

/// Encode the entries of a table back to back: the contents of its file on
/// disk.
pub fn encode_table_data(entries: &Vec<SimpleTableEntry>) -> (r: Vec<u8>)
    ensures
        r@ == entries_enc(entry_views(entries@)),
{
    let mut r: Vec<u8> = Vec::new();
    let mut idx: usize = 0;
    while idx < entries.len()
        invariant
            idx <= entries@.len(),
            r@ == entries_enc(entry_views(entries@.take(idx as int))),
        decreases entries@.len() - idx,
    {
        let bytes = encode_entry(&entries[idx].key, &entries[idx].value);
        r.extend_from_slice(bytes.as_slice());
        proof {
            let pre = entry_views(entries@.take(idx as int));
            let cur = entry_views(entries@.take(idx + 1));
            assert(cur.drop_last() =~= pre);
            assert(cur.last() == entries@[idx as int]@);
            lemma_entries_enc_push(pre, entries@[idx as int]@);
            assert(cur =~= pre.push(entries@[idx as int]@));
        }
        idx = idx + 1;
    }
    proof {
        assert(entries@.take(entries@.len() as int) =~= entries@);
    }
    r
}

/// Parse the longest prefix of a table file that decodes as entries.  When
/// the data is exactly the encoding of an entry sequence, the result is
/// exactly that sequence.
pub fn parse_entries(data: &Vec<u8>) -> (r: Vec<SimpleTableEntry>)
    ensures
        forall|es: Seq<EntryView>|
            #![trigger entries_enc(es)]
            data@ == entries_enc(es) ==> entry_views(r@) == es,
{
    let mut entries: Vec<SimpleTableEntry> = Vec::new();
    let mut pos: usize = 0;
    let dlen: usize = data.len();
    loop
        invariant
            dlen == data@.len(),
            pos <= data@.len(),
            forall|es: Seq<EntryView>|
                #![trigger entries_enc(es)]
                data@ == entries_enc(es) ==> {
                    &&& entries@.len() <= es.len()
                    &&& entry_views(entries@) == es.take(entries@.len() as int)
                    &&& pos == entries_enc(es.take(entries@.len() as int)).len()
                },
        ensures
            forall|k: Seq<u8>, v: Option<Seq<u8>>|
                !entry_enc(k, v).is_prefix_of(data@.skip(pos as int)),
        decreases data@.len() - pos,
    {
        match decode_entry(data, pos) {
            None => {
                break;
            }
            Some(t) => {
                let ghost old_entries = entries@;
                let ghost old_pos = pos as int;
                let entry = SimpleTableEntry { key: t.0, value: t.1 };
                let ghost ev = entry@;
                entries.push(entry);
                pos = pos + t.2;
                proof {
                    assert forall|es: Seq<EntryView>|
                        #![trigger entries_enc(es)]
                        data@ == entries_enc(es) implies {
                        &&& entries@.len() <= es.len()
                        &&& entry_views(entries@) == es.take(entries@.len() as int)
                        &&& pos == entries_enc(es.take(entries@.len() as int)).len()
                    } by {
                        let n = old_entries.len() as int;
                        assert(entry_views(old_entries) == es.take(n));
                        assert(old_pos == entries_enc(es.take(n)).len());
                        lemma_entries_enc_split(es, n);
                        assert(data@.skip(old_pos) =~= entries_enc(es.skip(n)));
                        if n == es.len() {
                            assert(es.skip(n) =~= Seq::<EntryView>::empty());
                            assert(entries_enc(es.skip(n)) == Seq::<u8>::empty());
                            assert(false);
                        }
                        let rest = es.skip(n);
                        assert(rest[0] == es[n]);
                        let e = entry_enc(es[n].key, es[n].value);
                        assert(entries_enc(rest) == e + entries_enc(rest.drop_first()));
                        assert(e.is_prefix_of(data@.skip(old_pos))) by {
                            assert(data@.skip(old_pos).subrange(0, e.len() as int) =~= e);
                        }
                        assert(ev == es[n]);
                        assert(entries@ =~= old_entries.push(entry));
                        assert(entry_views(entries@) =~= entry_views(old_entries).push(ev));
                        assert(es.take(n + 1) =~= es.take(n).push(es[n]));
                        lemma_entries_enc_push(es.take(n), es[n]);
                        assert(entry_views(entries@) =~= es.take(n + 1));
                    }
                }
            }
        }
    }
    proof {
        assert forall|es: Seq<EntryView>|
            #![trigger entries_enc(es)]
            data@ == entries_enc(es) implies entry_views(entries@) == es by {
            let n = entries@.len() as int;
            if n < es.len() {
                lemma_entries_enc_split(es, n);
                let head = entries_enc(es.take(n));
                assert(pos == head.len());
                let tail = entries_enc(es.skip(n));
                assert(data@.skip(pos as int) =~= tail);
                let rest = es.skip(n);
                assert(rest[0] == es[n]);
                assert(tail == entry_enc(es[n].key, es[n].value) + entries_enc(rest.drop_first()));
                let e = entry_enc(es[n].key, es[n].value);
                assert(e.is_prefix_of(tail)) by {
                    assert(tail.subrange(0, e.len() as int) =~= e);
                }
                assert(false);
            }
            assert(es.take(n) =~= es);
        }
    }
    entries
}

/// Copy a vector of entries.
pub fn dup_entries(entries: &Vec<SimpleTableEntry>) -> (r: Vec<SimpleTableEntry>)
    ensures
        entry_views(r@) == entry_views(entries@),
{
    let mut r: Vec<SimpleTableEntry> = Vec::new();
    let mut i: usize = 0;
    while i < entries.len()
        invariant
            i <= entries@.len(),
            entry_views(r@) == entry_views(entries@).take(i as int),
        decreases entries@.len() - i,
    {
        let ghost old_r = r@;
        let d = entries[i].dup();
        let ghost dv = d@;
        r.push(d);
        proof {
            assert(dv == entries@[i as int]@);
            assert(entry_views(old_r).len() == old_r.len());
            assert(entry_views(old_r).len() == entry_views(entries@).take(i as int).len());
            assert(old_r.len() == i);
            assert(r@ == old_r.push(d));
            assert(entry_views(r@).len() == r@.len());
            assert forall|j: int| 0 <= j < i + 1 implies entry_views(r@)[j] == entry_views(
                entries@,
            ).take(i + 1)[j] by {
                if j < i {
                    assert(entry_views(r@)[j] == entry_views(old_r)[j]);
                } else {
                    assert(r@[j] == d);
                }
            }
            assert(entry_views(r@) =~= entry_views(entries@).take(i + 1));
        }
        i = i + 1;
    }
    proof {
        assert(entry_views(entries@).take(entries@.len() as int) =~= entry_views(entries@));
    }
    r
}

/// The files of one level, in listing order.
pub open spec fn files_of_level(fs: Seq<TableFile>, level: u8) -> Seq<TableFile>
    decreases fs.len(),
{
    if fs.len() == 0 {
        Seq::empty()
    } else if fs.last().level == level {
        files_of_level(fs.drop_last(), level).push(fs.last())
    } else {
        files_of_level(fs.drop_last(), level)
    }
}

/// A listing that holds only files of one level filters to itself.
pub proof fn lemma_files_of_level_all(fs: Seq<TableFile>, level: u8)
    requires
        forall|i: int| 0 <= i < fs.len() ==> (#[trigger] fs[i]).level == level,
    ensures
        files_of_level(fs, level) == fs,
    decreases fs.len(),
{
    if fs.len() > 0 {
        assert(forall|i: int|
            0 <= i < fs.drop_last().len() ==> (#[trigger] fs.drop_last()[i]).level == level);
        lemma_files_of_level_all(fs.drop_last(), level);
        assert(fs.drop_last().push(fs.last()) =~= fs);
    }
}

/// Two stacks whose tables hold the same entries observe the same mapping.
pub proof fn lemma_tables_map_congruent(ts1: Seq<Table>, ts2: Seq<Table>)
    requires
        ts1.len() == ts2.len(),
        forall|i: int|
            0 <= i < ts1.len() ==> (#[trigger] ts1[i]).entries_view() == ts2[i].entries_view(),
    ensures
        tables_map(ts1) == tables_map(ts2),
    decreases ts1.len(),
{
    if ts1.len() > 0 {
        assert(forall|i: int|
            0 <= i < ts1.drop_last().len() ==> (#[trigger] ts1.drop_last()[i]).entries_view()
                == ts2.drop_last()[i].entries_view());
        lemma_tables_map_congruent(ts1.drop_last(), ts2.drop_last());
        assert(ts1.last().entries_view() == ts2.last().entries_view());
    }
}

/// Load the tables of one level from the directory listing, keeping listing
/// order.  Each file is parsed up to its longest valid, strictly ascending
/// prefix; a file the engine wrote is recovered exactly: when its data is the
/// encoding of a sorted entry sequence, the loaded table holds that sequence.
pub fn load_tables(files: &Vec<TableFile>, level: u8) -> (r: Vec<Table>)
    ensures
        tables_inv(r@),
        r@.len() == files_of_level(files@, level).len(),
        forall|i: int|
            0 <= i < r@.len() ==> #[trigger] r@[i].id == files_of_level(files@, level)[i].id,
        forall|i: int, es: Seq<EntryView>|
            #![trigger files_of_level(files@, level)[i], entries_enc(es)]
            0 <= i < r@.len() && files_of_level(files@, level)[i].data@ == entries_enc(es)
                && sorted_entries(es) ==> r@[i].entries_view() == es,
{
    let mut r: Vec<Table> = Vec::new();
    let mut idx: usize = 0;
    while idx < files.len()
        invariant
            idx <= files@.len(),
            tables_inv(r@),
            r@.len() == files_of_level(files@.take(idx as int), level).len(),
            forall|i: int|
                0 <= i < r@.len() ==> #[trigger] r@[i].id == files_of_level(
                    files@.take(idx as int),
                    level,
                )[i].id,
            forall|i: int, es: Seq<EntryView>|
                #![trigger files_of_level(files@.take(idx as int), level)[i], entries_enc(es)]
                0 <= i < r@.len() && files_of_level(files@.take(idx as int), level)[i].data@
                    == entries_enc(es) && sorted_entries(es) ==> r@[i].entries_view() == es,
        decreases files@.len() - idx,
    {
        let ghost pre = files_of_level(files@.take(idx as int), level);
        let ghost cur = files_of_level(files@.take(idx + 1), level);
        proof {
            assert(files@.take(idx + 1).drop_last() =~= files@.take(idx as int));
            assert(files@.take(idx + 1).last() == files@[idx as int]);
        }
        if files[idx].level == level {
            let parsed = take_sorted_prefix(parse_entries(&files[idx].data));
            let t = Table { id: files[idx].id, entries: parsed };
            let ghost old_r = r@;
            r.push(t);
            proof {
                assert(cur =~= pre.push(files@[idx as int]));
                assert(r@ =~= old_r.push(t));
                assert forall|i: int, es: Seq<EntryView>|
                    #![trigger cur[i], entries_enc(es)]
                    0 <= i < r@.len() && cur[i].data@ == entries_enc(es) && sorted_entries(es)
                    implies r@[i].entries_view() == es by {
                    if i < old_r.len() {
                        assert(pre[i] == cur[i]);
                        assert(old_r[i] == r@[i]);
                    } else {
                        assert(cur[i] == files@[idx as int]);
                        assert(r@[i] == t);
                    }
                }
            }
        } else {
            proof {
                assert(cur =~= pre);
            }
        }
        idx = idx + 1;
    }
    proof {
        assert(files@.take(files@.len() as int) =~= files@);
    }
    r
}

/// Encode every table of a level into the listing entries its files hold.
pub fn encode_level(ts: &Vec<Table>, level: u8) -> (files: Vec<TableFile>)
    ensures
        files@.len() == ts@.len(),
        forall|j: int|
            0 <= j < files@.len() ==> {
                &&& (#[trigger] files@[j]).level == level
                &&& files@[j].id == ts@[j].id
                &&& files@[j].data@ == entries_enc(ts@[j].entries_view())
            },
{
    let mut files: Vec<TableFile> = Vec::new();
    let mut i: usize = 0;
    while i < ts.len()
        invariant
            i <= ts@.len(),
            files@.len() == i,
            forall|j: int|
                0 <= j < i ==> {
                    &&& (#[trigger] files@[j]).level == level
                    &&& files@[j].id == ts@[j].id
                    &&& files@[j].data@ == entries_enc(ts@[j].entries_view())
                },
        decreases ts@.len() - i,
    {
        let data = encode_table_data(&ts[i].entries);
        files.push(TableFile { level, id: ts[i].id, data });
        i = i + 1;
    }
    files
}

/// Encode every table of a level to its file bytes and load them back: the
/// round trip reproduces the tables and what they observe.  This is the
/// table half of the engine's recovery story.
pub fn reencode_tables(ts: &Vec<Table>, level: u8) -> (r: Vec<Table>)
    requires
        tables_inv(ts@),
    ensures
        tables_inv(r@),
        r@.len() == ts@.len(),
        forall|i: int|
            0 <= i < r@.len() ==> (#[trigger] r@[i]).id == ts@[i].id && r@[i].entries_view()
                == ts@[i].entries_view(),
        tables_map(r@) == tables_map(ts@),
{
    let files = encode_level(ts, level);
    let tables = load_tables(&files, level);
    proof {
        lemma_files_of_level_all(files@, level);
        assert forall|j: int| 0 <= j < tables@.len() implies (#[trigger] tables@[j]).id
            == ts@[j].id && tables@[j].entries_view() == ts@[j].entries_view() by {
            assert(files@[j].data@ == entries_enc(ts@[j].entries_view()));
        }
        lemma_tables_map_congruent(tables@, ts@);
    }
    tables
}

/// Keep the longest strictly ascending prefix of the entries; a table the
/// engine wrote is returned whole.
pub fn take_sorted_prefix(entries: Vec<SimpleTableEntry>) -> (r: Vec<SimpleTableEntry>)
    ensures
        sorted_entries(entry_views(r@)),
        sorted_entries(entry_views(entries@)) ==> r@ == entries@,
{
    let mut entries = entries;
    if entries.len() == 0 {
        proof {
            assert(entry_views(entries@) =~= Seq::<EntryView>::empty());
        }
        return entries;
    }
    let ghost es = entry_views(entries@);
    let mut i: usize = 1;
    while i < entries.len()
        invariant
            es == entry_views(entries@),
            1 <= i <= entries@.len(),
            sorted_entries(es.take(i as int)),
        ensures
            es == entry_views(entries@),
            1 <= i <= entries@.len(),
            sorted_entries(es.take(i as int)),
            i < entries@.len() ==> !lex_lt(es[i - 1].key, es[i as int].key),
        decreases entries@.len() - i,
    {
        match key_cmp(&entries[i - 1].key, &entries[i].key) {
            KeyOrder::Less => {
                proof {
                    let pre = es.take(i as int);
                    let cur = es.take(i + 1);
                    assert(lex_lt(es[i - 1].key, es[i as int].key));
                    assert forall|j1: int, j2: int| 0 <= j1 < j2 < cur.len() implies lex_lt(
                        #[trigger] cur[j1].key,
                        #[trigger] cur[j2].key,
                    ) by {
                        assert(cur[j1] == es[j1] && cur[j2] == es[j2]);
                        if j2 == i {
                            if j1 < i - 1 {
                                assert(lex_lt(pre[j1].key, pre[i - 1].key));
                                lemma_lex_lt_trans(es[j1].key, es[i - 1].key, es[i as int].key);
                            }
                        } else {
                            assert(lex_lt(pre[j1].key, pre[j2].key));
                        }
                    }
                }
                i = i + 1;
            }
            KeyOrder::Equal => {
                proof {
                    crate::bytes::lemma_lex_lt_irrefl(es[i as int].key);
                }
                break;
            }
            KeyOrder::Greater => {
                proof {
                    lemma_lex_lt_asym(es[i as int].key, es[i - 1].key);
                }
                break;
            }
        }
    }
    if i < entries.len() {
        proof {
            assert(sorted_entries(es) ==> lex_lt(es[i - 1].key, es[i as int].key));
        }
        entries.truncate(i);
        proof {
            assert(entry_views(entries@) =~= es.take(i as int));
        }
        entries
    } else {
        proof {
            assert(es.take(i as int) =~= es);
        }
        entries
    }
}

} // verus!
