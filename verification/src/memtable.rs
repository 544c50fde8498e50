//! The memtable: an in-memory ordered mapping from key to optional value
//! that absorbs recent writes.  A tombstone is stored as an entry whose value
//! is `None`, never by removing the key, so that newer tombstones shadow
//! older values resident in on-disk tables.

use vstd::prelude::*;
use vstd::assert_maps_equal;
use crate::bytes::{key_cmp, lex_lt, opt_view, KeyOrder};
use crate::bytes::{lemma_lex_lt_asym, lemma_lex_lt_trans};
use crate::codec::EntryView;
use crate::table_manager::{entry_views, sorted_entries, SimpleTableEntry};

verus! {

/// The mapping described by a sequence of entries when they are applied in
/// order, a later entry for a key overwriting an earlier one.
pub open spec fn entries_map(es: Seq<EntryView>) -> Map<Seq<u8>, Option<Seq<u8>>>
    decreases es.len(),
{
    if es.len() == 0 {
        Map::empty()
    } else {
        entries_map(es.drop_last()).insert(es.last().key, es.last().value)
    }
}

/// For entries in strictly ascending key order, the mapping holds exactly the
/// keys of the entries, each bound to that entry's value.
pub proof fn lemma_entries_map_char(es: Seq<EntryView>)
    requires
        sorted_entries(es),
    ensures
        forall|k: Seq<u8>|
            entries_map(es).contains_key(k) == exists|i: int|
                0 <= i < es.len() && #[trigger] es[i].key == k,
        forall|i: int|
            0 <= i < es.len() ==> entries_map(es).contains_key(#[trigger] es[i].key)
                && entries_map(es)[es[i].key] == es[i].value,
    decreases es.len(),
{
    if es.len() > 0 {
        let prefix = es.drop_last();
        assert(sorted_entries(prefix)) by {
            assert(forall|i: int, j: int|
                0 <= i < j < prefix.len() ==> lex_lt(#[trigger] prefix[i].key, #[trigger] prefix[j].key))
                by {
                assert(forall|i: int, j: int|
                    0 <= i < j < prefix.len() ==> prefix[i] == es[i] && prefix[j] == es[j]);
            }
        }
        lemma_entries_map_char(prefix);
        let last = es.last();
        assert forall|i: int| 0 <= i < es.len() - 1 implies #[trigger] es[i].key != last.key by {
            assert(lex_lt(es[i].key, last.key));
            lemma_lex_lt_asym(es[i].key, last.key);
        }
        assert forall|i: int|
            0 <= i < es.len() implies entries_map(es).contains_key(#[trigger] es[i].key)
            && entries_map(es)[es[i].key] == es[i].value by {
            if i < es.len() - 1 {
                assert(prefix[i] == es[i]);
                assert(entries_map(prefix).contains_key(es[i].key));
            }
        }
        assert forall|k: Seq<u8>|
            entries_map(es).contains_key(k) == exists|i: int|
                0 <= i < es.len() && #[trigger] es[i].key == k by {
            if k == last.key {
                assert(es[es.len() - 1].key == k);
            } else {
                if entries_map(es).contains_key(k) {
                    assert(entries_map(prefix).contains_key(k));
                    let i = choose|i: int| 0 <= i < prefix.len() && #[trigger] prefix[i].key == k;
                    assert(es[i].key == k);
                }
                if exists|i: int| 0 <= i < es.len() && #[trigger] es[i].key == k {
                    let i = choose|i: int| 0 <= i < es.len() && #[trigger] es[i].key == k;
                    assert(i < es.len() - 1);
                    assert(prefix[i].key == k);
                    assert(entries_map(prefix).contains_key(k));
                }
            }
        }
    }
}

/// The in-memory ordered buffer of recent writes.
pub struct Memtable {
    pub entries: Vec<SimpleTableEntry>,
}

impl View for Memtable {
    type V = Map<Seq<u8>, Option<Seq<u8>>>;

    open spec fn view(&self) -> Self::V {
        entries_map(entry_views(self.entries@))
    }
}

impl Memtable {
    /// Keys strictly ascending.
    pub open spec fn inv(&self) -> bool {
        sorted_entries(entry_views(self.entries@))
    }

    /// The number of entries held.
    pub open spec fn spec_len(&self) -> nat {
        self.entries@.len()
    }

    /// Create an empty memtable.
    pub fn new() -> (r: Memtable)
        ensures
            r.inv(),
            r@ == Map::<Seq<u8>, Option<Seq<u8>>>::empty(),
            r.spec_len() == 0,
    {
        Memtable { entries: Vec::new() }
    }

    /// The number of entries held.
    pub fn len(&self) -> (r: usize)
        ensures
            r == self.spec_len(),
    {
        self.entries.len()
    }

    /// Whether no entry is held.
    pub fn is_empty(&self) -> (r: bool)
        ensures
            r == (self.spec_len() == 0),
    {
        self.entries.len() == 0
    }

    /// Look the key up.  `None` means the key is absent from the buffer;
    /// `Some(None)` means a tombstone is buffered for it.
    pub fn get(&self, key: &Vec<u8>) -> (r: Option<Option<Vec<u8>>>)
        requires
            self.inv(),
        ensures
            r matches Some(v) ==> self@.contains_key(key@) && opt_view(v) == self@[key@],
            r is None ==> !self@.contains_key(key@),
    {
        crate::table_manager::entries_get(&self.entries, key)
    }

    /// Insert a key with an optional value, overwriting any prior entry for
    /// the same key.
    pub fn insert(&mut self, key: Vec<u8>, value: Option<Vec<u8>>)
        requires
            old(self).inv(),
        ensures
            final(self).inv(),
            final(self)@ == old(self)@.insert(key@, opt_view(value)),
            final(self).spec_len() == if old(self)@.contains_key(key@) {
                old(self).spec_len()
            } else {
                old(self).spec_len() + 1
            },
    {
        let ghost es0 = entry_views(self.entries@);
        proof {
            lemma_entries_map_char(es0);
        }
        let i = crate::table_manager::lower_bound(&self.entries, &key);
        if i < self.entries.len() {
            match key_cmp(&self.entries[i].key, &key) {
                KeyOrder::Equal => {
                    assert(entry_views(self.entries@)[i as int].key == key@);
                    let e = SimpleTableEntry { key, value };
                    let ghost ev = e@;
                    self.entries.set(i, e);
                    proof {
                        lemma_entries_map_char(es0);
                        let es1 = entry_views(self.entries@);
                        assert(self.entries@ == old(self).entries@.update(i as int, self.entries@[i as int]));
                        assert(es1.len() == self.entries@.len());
                        assert(es0.len() == old(self).entries@.len());
                        assert(forall|j: int|
                            0 <= j < es1.len() ==> #[trigger] es1[j] == self.entries@[j]@);
                        assert(forall|j: int|
                            0 <= j < es0.len() ==> #[trigger] es0[j] == old(self).entries@[j]@);
                        assert(es1.len() == es0.len());
                        assert(forall|j: int| 0 <= j < es1.len() && j != i ==> es1[j] == es0[j]);
                        assert(es1[i as int] == ev);
                        assert(es0[i as int].key == ev.key);
                        assert(sorted_entries(es1)) by {
                            assert(forall|j1: int, j2: int|
                                0 <= j1 < j2 < es1.len() ==> lex_lt(
                                    #[trigger] es1[j1].key,
                                    #[trigger] es1[j2].key,
                                ));
                        }
                        lemma_entries_map_char(es1);
                        assert_maps_equal!(
                            entries_map(es1), entries_map(es0).insert(ev.key, ev.value),
                            k => {
                                if entries_map(es1).contains_key(k) {
                                    let j = choose|j: int| 0 <= j < es1.len() && #[trigger] es1[j].key == k;
                                    assert(es0[j].key == k);
                                }
                                if entries_map(es0).contains_key(k) {
                                    let j = choose|j: int| 0 <= j < es0.len() && #[trigger] es0[j].key == k;
                                    assert(es1[j].key == k);
                                    if k != ev.key {
                                        assert(j != i);
                                        assert(entries_map(es1)[k] == es1[j].value);
                                    }
                                }
                            }
                        );
                        assert(es0[i as int].key == key@);
                    }
                    return;
                }
                _ => {
                    proof {
                        crate::bytes::lemma_lex_lt_trichotomy(
                            key@,
                            entry_views(self.entries@)[i as int].key,
                        );
                    }
                }
            }
        }
        let ghost pos = i as int;
        let e = SimpleTableEntry { key, value };
        let ghost ev = e@;
        self.entries.insert(i, e);
        proof {
            lemma_entries_map_char(es0);
            let es1 = entry_views(self.entries@);
            assert(self.entries@ == old(self).entries@.insert(pos, self.entries@[pos]));
            assert(es1.len() == self.entries@.len());
            assert(es0.len() == old(self).entries@.len());
            assert(forall|j: int| 0 <= j < es1.len() ==> #[trigger] es1[j] == self.entries@[j]@);
            assert(forall|j: int| 0 <= j < es0.len() ==> #[trigger] es0[j] == old(self).entries@[j]@);
            assert(es1 =~= es0.insert(pos, ev));
            assert(forall|j: int| 0 <= j < pos ==> es1[j] == es0[j]);
            assert(es1[pos] == ev);
            assert(forall|j: int| pos < j < es1.len() ==> es1[j] == es0[j - 1]);
            assert(forall|j: int| 0 <= j < es0.len() ==> #[trigger] es0[j].key != ev.key) by {
                assert forall|j: int| 0 <= j < es0.len() implies #[trigger] es0[j].key != ev.key by {
                    if j < pos {
                        lemma_lex_lt_asym(es0[j].key, ev.key);
                    } else if j == pos {
                        lemma_lex_lt_asym(ev.key, es0[j].key);
                    } else {
                        lemma_lex_lt_trans(ev.key, es0[pos].key, es0[j].key);
                        lemma_lex_lt_asym(ev.key, es0[j].key);
                    }
                }
            }
            assert(sorted_entries(es1)) by {
                assert forall|j1: int, j2: int| 0 <= j1 < j2 < es1.len() implies lex_lt(
                    #[trigger] es1[j1].key,
                    #[trigger] es1[j2].key,
                ) by {
                    if j1 == pos {
                        if j2 - 1 > pos {
                            lemma_lex_lt_trans(ev.key, es0[pos].key, es0[j2 - 1].key);
                        }
                    } else if j2 == pos {
                        assert(lex_lt(es0[j1].key, ev.key));
                    } else if j1 < pos && j2 > pos {
                        assert(lex_lt(es0[j1].key, es0[j2 - 1].key));
                    }
                }
            }
            lemma_entries_map_char(es1);
            assert(!entries_map(es0).contains_key(ev.key));
            assert_maps_equal!(
                entries_map(es1), entries_map(es0).insert(ev.key, ev.value),
                k => {
                    if entries_map(es1).contains_key(k) {
                        let j = choose|j: int| 0 <= j < es1.len() && #[trigger] es1[j].key == k;
                        if j != pos {
                            let j0 = if j < pos { j } else { j - 1 };
                            assert(es0[j0].key == k);
                        }
                    }
                    if entries_map(es0).contains_key(k) {
                        let j = choose|j: int| 0 <= j < es0.len() && #[trigger] es0[j].key == k;
                        let j1 = if j < pos { j } else { j + 1 };
                        assert(es1[j1].key == k);
                        if k != ev.key {
                            assert(entries_map(es1)[k] == es1[j1].value);
                        }
                    }
                }
            );
        }
    }

    /// Remove every entry.
    pub fn clear(&mut self)
        ensures
            final(self).inv(),
            final(self)@ == Map::<Seq<u8>, Option<Seq<u8>>>::empty(),
            final(self).spec_len() == 0,
    {
        self.entries.clear();
        proof {
            assert(entry_views(self.entries@) =~= Seq::<EntryView>::empty());
        }
    }
}

} // verus!
