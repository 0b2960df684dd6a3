//! The ordered-map index: a vector of entries kept strictly sorted by key.
use crate::index::{
    entry_views, lemma_lex_connex, lemma_lex_irrefl, lemma_lex_trans, lex_lt, key_eq,
    key_has_prefix, key_less, seek_passes, sorted_entry_views, IndexIterator, Indexer,
};
use crate::log_record::LogRecordPos;
use crate::options::IteratorOptions;
use vstd::prelude::*;
use vstd::seq_lib::group_seq_properties;

verus! {

/// Is `k` one of the entry keys?
pub open spec fn has_key(es: Seq<(Seq<u8>, LogRecordPos)>, k: Seq<u8>) -> bool {
    exists|i: int| 0 <= i < es.len() && (#[trigger] es[i]).0 == k
}

/// The index of the entry that carries `k`.
pub open spec fn key_index(es: Seq<(Seq<u8>, LogRecordPos)>, k: Seq<u8>) -> int {
    choose|i: int| 0 <= i < es.len() && (#[trigger] es[i]).0 == k
}

/// The map a sorted entry sequence stands for.
pub open spec fn map_of(es: Seq<(Seq<u8>, LogRecordPos)>) -> Map<Seq<u8>, LogRecordPos> {
    Map::new(|k: Seq<u8>| has_key(es, k), |k: Seq<u8>| es[key_index(es, k)].1)
}

/// In a sorted sequence all keys are distinct, so each key names one entry.
pub proof fn lemma_sorted_distinct(es: Seq<(Seq<u8>, LogRecordPos)>)
    requires
        sorted_entry_views(es),
    ensures
        forall|i: int, j: int|
            0 <= i < es.len() && 0 <= j < es.len() && i != j ==> (#[trigger] es[i]).0 != (
            #[trigger] es[j]).0,
{
    assert forall|i: int, j: int|
        0 <= i < es.len() && 0 <= j < es.len() && i != j implies (#[trigger] es[i]).0 != (
    #[trigger] es[j]).0 by {
        if es[i].0 == es[j].0 {
            lemma_lex_irrefl(es[i].0);
        }
    }
}

/// The entry at `i` is what the map gives for its key.
pub proof fn lemma_key_index(es: Seq<(Seq<u8>, LogRecordPos)>, i: int)
    requires
        sorted_entry_views(es),
        0 <= i < es.len(),
    ensures
        has_key(es, es[i].0),
        key_index(es, es[i].0) == i,
        map_of(es).contains_key(es[i].0),
        map_of(es)[es[i].0] == es[i].1,
{
    lemma_sorted_distinct(es);
    assert(has_key(es, es[i].0));
    let j = key_index(es, es[i].0);
    assert(0 <= j < es.len() && es[j].0 == es[i].0);
}

/// How many entries there are is how many keys the map holds.
pub proof fn lemma_entries_card(es: Seq<(Seq<u8>, LogRecordPos)>)
    requires
        sorted_entry_views(es),
    ensures
        map_of(es).dom().len() == es.len(),
        map_of(es).dom().finite(),
{
    broadcast use group_seq_properties;

    lemma_sorted_distinct(es);
    let ks = es.map_values(|e: (Seq<u8>, LogRecordPos)| e.0);
    assert(ks.no_duplicates()) by {
        assert(forall|i: int| 0 <= i < es.len() ==> #[trigger] ks[i] == es[i].0);
    }
    ks.unique_seq_to_set();
    assert(map_of(es).dom() =~= ks.to_set()) by {
        assert forall|k: Seq<u8>| map_of(es).dom().contains(k) implies ks.to_set().contains(k) by {
            let i = key_index(es, k);
            assert(ks[i] == k);
        }
        assert forall|k: Seq<u8>| ks.to_set().contains(k) implies map_of(es).dom().contains(k) by {
            let i = choose|i: int| 0 <= i < ks.len() && ks[i] == k;
            assert(es[i].0 == k);
        }
    }
}

/// The ordered-map index. Entries are kept strictly ascending by key.
pub struct BTree {
    items: Vec<(Vec<u8>, LogRecordPos)>,
}

impl BTree {
    /// The spec-level entries.
    pub closed spec fn es(&self) -> Seq<(Seq<u8>, LogRecordPos)> {
        entry_views(self.items@)
    }

    pub fn new() -> (r: Self)
        ensures
            r.inv(),
            r.m() == Map::<Seq<u8>, LogRecordPos>::empty(),
    {
        let r = BTree { items: Vec::new() };
        proof {
            assert(r.m() =~= Map::<Seq<u8>, LogRecordPos>::empty());
        }
        r
    }

    /// The least index whose key is at or past `key`.
    fn lower_bound(&self, key: &Vec<u8>) -> (idx: usize)
        requires
            self.inv(),
        ensures
            idx <= self.es().len(),
            forall|i: int| 0 <= i < idx ==> lex_lt((#[trigger] self.es()[i]).0, key@),
            forall|i: int|
                idx <= i < self.es().len() ==> !lex_lt((#[trigger] self.es()[i]).0, key@),
    {
        let mut lo: usize = 0;
        let mut hi: usize = self.items.len();
        while lo < hi
            invariant
                lo <= hi <= self.es().len(),
                self.inv(),
                self.es().len() == self.items@.len(),
                forall|i: int| 0 <= i < lo ==> lex_lt((#[trigger] self.es()[i]).0, key@),
                forall|i: int|
                    hi <= i < self.es().len() ==> !lex_lt((#[trigger] self.es()[i]).0, key@),
            decreases hi - lo,
        {
            let mid = lo + (hi - lo) / 2;
            if key_less(&self.items[mid].0, key) {
                proof {
                    assert forall|i: int| 0 <= i < mid + 1 implies lex_lt(
                        (#[trigger] self.es()[i]).0,
                        key@,
                    ) by {
                        if i < mid {
                            lemma_lex_trans(self.es()[i].0, self.es()[mid as int].0, key@);
                        }
                    }
                }
                lo = mid + 1;
            } else {
                proof {
                    assert forall|i: int| mid <= i < self.es().len() implies !lex_lt(
                        (#[trigger] self.es()[i]).0,
                        key@,
                    ) by {
                        if i > mid && lex_lt(self.es()[i].0, key@) {
                            lemma_lex_trans(self.es()[mid as int].0, self.es()[i].0, key@);
                        }
                    }
                }
                hi = mid;
            }
        }
        lo
    }
}

impl Indexer for BTree {
    open spec fn m(&self) -> Map<Seq<u8>, LogRecordPos> {
        map_of(self.es())
    }

    open spec fn inv(&self) -> bool {
        sorted_entry_views(self.es())
    }

    fn put(&mut self, key: Vec<u8>, pos: LogRecordPos) -> (prev: Option<LogRecordPos>) {
        let ghost es0 = self.es();
        let idx = self.lower_bound(&key);
        let found = idx < self.items.len() && key_eq(&self.items[idx].0, &key);
        if found {
            proof {
                assert(self.es()[idx as int].0 == key@);
                lemma_key_index(es0, idx as int);
            }
            let prev = self.items[idx].1;
            let ghost old_entry = self.items@[idx as int];
            self.items[idx] = (key, pos);
            proof {
                let es1 = self.es();
                assert(es1.len() == es0.len());
                assert(forall|i: int|
                    0 <= i < es0.len() && i != idx ==> #[trigger] es1[i] == es0[i]);
                assert(es1[idx as int].0 == es0[idx as int].0 && es1[idx as int].1 == pos);
                assert(sorted_entry_views(es1)) by {
                    assert(forall|i: int|
                        0 <= i < es1.len() ==> (#[trigger] es1[i]).0 == es0[i].0);
                }
                lemma_key_index(es1, idx as int);
                assert(map_of(es1) =~= map_of(es0).insert(key@, pos)) by {
                    lemma_sorted_distinct(es0);
                    lemma_sorted_distinct(es1);
                    assert forall|k: Seq<u8>| has_key(es1, k) == (has_key(es0, k) || k
                        == key@) by {
                        if has_key(es1, k) {
                            let i = key_index(es1, k);
                            assert(es0[i].0 == es1[i].0);
                        }
                        if has_key(es0, k) {
                            let i = key_index(es0, k);
                            assert(es1[i].0 == es0[i].0);
                        }
                    }
                    assert forall|k: Seq<u8>| has_key(es1, k) && k != key@ implies map_of(es1)[k]
                        == map_of(es0)[k] by {
                        let i = key_index(es1, k);
                        lemma_key_index(es1, i);
                        assert(es0[i] == es1[i]);
                        lemma_key_index(es0, i);
                    }
                }
            }
            Some(prev)
        } else {
            proof {
                assert forall|i: int| 0 <= i < es0.len() implies (#[trigger] es0[i]).0
                    != key@ by {
                    if i < idx {
                        lemma_lex_irrefl(key@);
                    } else if i > idx {
                        if es0[i].0 == key@ {
                            assert(lex_lt(es0[idx as int].0, es0[i].0));
                        }
                    }
                }
            }
            self.items.insert(idx, (key, pos));
            proof {
                let es1 = self.es();
                es0.insert_ensures(idx as int, (key@, pos));
                assert(es1 =~= es0.insert(idx as int, (key@, pos))) by {
                    assert(forall|i: int|
                        0 <= i < es1.len() ==> #[trigger] es1[i] == (
                        self.items@[i].0@,
                        self.items@[i].1,
                    ));
                }
                assert(sorted_entry_views(es1)) by {
                    assert forall|i: int, j: int| 0 <= i < j < es1.len() implies lex_lt(
                        (#[trigger] es1[i]).0,
                        (#[trigger] es1[j]).0,
                    ) by {
                        if i < idx && j == idx {
                        } else if i == idx && j > idx {
                            lemma_lex_connex(key@, es0[j - 1].0);
                        } else if i < idx && j > idx {
                        } else if j < idx {
                        } else if i > idx {
                        }
                    }
                }
                assert(map_of(es1) =~= map_of(es0).insert(key@, pos)) by {
                    lemma_sorted_distinct(es0);
                    lemma_sorted_distinct(es1);
                    assert(es1[idx as int] == (key@, pos));
                    assert forall|k: Seq<u8>| has_key(es1, k) == (has_key(es0, k) || k
                        == key@) by {
                        if has_key(es1, k) {
                            let i = key_index(es1, k);
                            if i < idx {
                                assert(es0[i].0 == k);
                            } else if i > idx {
                                assert(es0[i - 1].0 == k);
                            }
                        }
                        if has_key(es0, k) {
                            let i = key_index(es0, k);
                            if i < idx {
                                assert(es1[i].0 == k);
                            } else {
                                assert(es1[i + 1].0 == k);
                            }
                        }
                    }
                    assert forall|k: Seq<u8>| has_key(es1, k) && k != key@ implies map_of(es1)[k]
                        == map_of(es0)[k] by {
                        let i = key_index(es1, k);
                        lemma_key_index(es1, i);
                        if i < idx {
                            lemma_key_index(es0, i);
                            assert(es0[i] == es1[i]);
                        } else {
                            assert(i != idx);
                            lemma_key_index(es0, i - 1);
                            assert(es0[i - 1] == es1[i]);
                        }
                    }
                    assert(map_of(es1)[key@] == pos) by {
                        lemma_key_index(es1, idx as int);
                    }
                }
            }
            None
        }
    }

    fn get(&self, key: &Vec<u8>) -> (r: Option<LogRecordPos>) {
        let idx = self.lower_bound(key);
        if idx < self.items.len() && key_eq(&self.items[idx].0, key) {
            proof {
                lemma_key_index(self.es(), idx as int);
            }
            Some(self.items[idx].1)
        } else {
            proof {
                let es = self.es();
                assert forall|i: int| 0 <= i < es.len() implies (#[trigger] es[i]).0 != key@ by {
                    if i < idx {
                        lemma_lex_irrefl(key@);
                    } else if i > idx {
                        if es[i].0 == key@ {
                            assert(lex_lt(es[idx as int].0, es[i].0));
                        }
                    }
                }
                assert(!has_key(es, key@));
            }
            None
        }
    }

    fn delete(&mut self, key: &Vec<u8>) -> (prev: Option<LogRecordPos>) {
        let ghost es0 = self.es();
        let idx = self.lower_bound(key);
        if idx < self.items.len() && key_eq(&self.items[idx].0, key) {
            proof {
                assert(es0[idx as int].0 == key@);
                lemma_key_index(es0, idx as int);
            }
            let prev = self.items[idx].1;
            self.items.remove(idx);
            proof {
                let es1 = self.es();
                es0.remove_ensures(idx as int);
                assert(es1 =~= es0.remove(idx as int)) by {
                    assert(forall|i: int|
                        0 <= i < es1.len() ==> #[trigger] es1[i] == (
                        self.items@[i].0@,
                        self.items@[i].1,
                    ));
                }
                assert(sorted_entry_views(es1)) by {
                    assert forall|i: int, j: int| 0 <= i < j < es1.len() implies lex_lt(
                        (#[trigger] es1[i]).0,
                        (#[trigger] es1[j]).0,
                    ) by {
                        if j < idx {
                        } else if i < idx && j >= idx {
                            assert(es1[j] == es0[j + 1]);
                        } else {
                        }
                    }
                }
                lemma_sorted_distinct(es0);
                lemma_sorted_distinct(es1);
                assert(map_of(es1) =~= map_of(es0).remove(key@)) by {
                    assert forall|k: Seq<u8>| has_key(es1, k) == (has_key(es0, k) && k
                        != key@) by {
                        if has_key(es1, k) {
                            let i = key_index(es1, k);
                            if i < idx {
                                assert(es0[i].0 == k);
                            } else {
                                assert(es0[i + 1].0 == k);
                                assert(i + 1 != idx);
                            }
                        }
                        if has_key(es0, k) && k != key@ {
                            let i = key_index(es0, k);
                            assert(i != idx);
                            if i < idx {
                                assert(es1[i].0 == k);
                            } else {
                                assert(es1[i - 1].0 == k);
                            }
                        }
                    }
                    assert forall|k: Seq<u8>| has_key(es1, k) implies map_of(es1)[k] == map_of(
                        es0,
                    )[k] by {
                        let i = key_index(es1, k);
                        lemma_key_index(es1, i);
                        if i < idx {
                            lemma_key_index(es0, i);
                            assert(es0[i] == es1[i]);
                        } else {
                            lemma_key_index(es0, i + 1);
                            assert(es0[i + 1] == es1[i]);
                        }
                    }
                }
            }
            Some(prev)
        } else {
            proof {
                let es = self.es();
                assert forall|i: int| 0 <= i < es.len() implies (#[trigger] es[i]).0 != key@ by {
                    if i < idx {
                        lemma_lex_irrefl(key@);
                    } else if i > idx {
                        if es[i].0 == key@ {
                            assert(lex_lt(es[idx as int].0, es[i].0));
                        }
                    }
                }
                assert(!has_key(es, key@));
                assert(map_of(es).remove(key@) =~= map_of(es));
            }
            None
        }
    }

    fn list_keys(&self) -> (keys: Vec<Vec<u8>>) {
        let mut keys: Vec<Vec<u8>> = Vec::new();
        let n = self.items.len();
        let mut i: usize = 0;
        while i < n
            invariant
                self.inv(),
                i <= n == self.items@.len(),
                keys@.len() == i,
                forall|j: int| 0 <= j < i ==> #[trigger] keys@[j]@ == self.es()[j].0,
            decreases n - i,
        {
            let k = crate::log_record::copy_range(&self.items[i].0, 0, self.items[i].0.len());
            proof {
                assert(k@ =~= self.items@[i as int].0@);
            }
            keys.push(k);
            i = i + 1;
        }
        proof {
            let es = self.es();
            lemma_entries_card(es);
            assert forall|k: Seq<u8>| self.m().contains_key(k) implies exists|j: int|
                0 <= j < keys@.len() && #[trigger] keys@[j]@ == k by {
                let j = key_index(es, k);
                assert(keys@[j]@ == k);
            }
            assert forall|j: int| 0 <= j < keys@.len() implies self.m().contains_key(
                #[trigger] keys@[j]@,
            ) by {
                lemma_key_index(es, j);
            }
        }
        keys
    }

    fn entries(&self) -> (es: Vec<(Vec<u8>, LogRecordPos)>) {
        let r = self.snapshot(false);
        proof {
            let es = self.es();
            lemma_entries_card(es);
            assert forall|k: Seq<u8>| map_of(es).contains_key(k) implies exists|i: int|
                0 <= i < entry_views(r@).len() && (#[trigger] entry_views(r@)[i]).0 == k by {
                let j = key_index(es, k);
                assert(entry_views(r@)[j].0 == k);
            }
            assert forall|i: int| 0 <= i < entry_views(r@).len() implies map_of(es).contains_key(
                (#[trigger] entry_views(r@)[i]).0,
            ) && map_of(es)[entry_views(r@)[i].0] == entry_views(r@)[i].1 by {
                lemma_key_index(es, i);
            }
        }
        r
    }
}

impl BTree {
    /// A copy of the entries, reversed when asked for.
    fn snapshot(&self, reverse: bool) -> (r: Vec<(Vec<u8>, LogRecordPos)>)
        requires
            self.inv(),
        ensures
            entry_views(r@) == if reverse {
                self.es().reverse()
            } else {
                self.es()
            },
    {
        let n = self.items.len();
        let mut out: Vec<(Vec<u8>, LogRecordPos)> = Vec::new();
        let mut i: usize = 0;
        while i < n
            invariant
                self.inv(),
                i <= n == self.items@.len(),
                out@.len() == i,
                forall|j: int|
                    0 <= j < i ==> #[trigger] entry_views(out@)[j] == (if reverse {
                        self.es()[n - 1 - j]
                    } else {
                        self.es()[j]
                    }),
            decreases n - i,
        {
            let src = if reverse {
                n - 1 - i
            } else {
                i
            };
            let k = crate::log_record::copy_range(&self.items[src].0, 0, self.items[src].0.len());
            proof {
                assert(k@ =~= self.items@[src as int].0@);
            }
            let ghost out0 = out@;
            out.push((k, self.items[src].1));
            proof {
                assert forall|j: int| 0 <= j < i + 1 implies #[trigger] entry_views(out@)[j] == (
                if reverse {
                    self.es()[n - 1 - j]
                } else {
                    self.es()[j]
                }) by {
                    if j < i {
                        assert(out@[j] == out0[j]);
                        assert(entry_views(out0)[j] == (out0[j].0@, out0[j].1));
                    } else {
                        assert(out@[j] == (k, self.items@[src as int].1));
                        assert(self.es()[src as int] == (
                            self.items@[src as int].0@,
                            self.items@[src as int].1,
                        ));
                    }
                }
            }
            i = i + 1;
        }
        proof {
            if reverse {
                assert(entry_views(out@) =~= self.es().reverse());
            } else {
                assert(entry_views(out@) =~= self.es());
            }
        }
        out
    }

    /// A snapshot iterator over the current entries.
    pub fn iterator(&self, options: IteratorOptions) -> (it: BTreeIterator)
        requires
            self.inv(),
        ensures
            it.inv(),
            it.pos() == 0,
            it.prefix() == options.prefix@,
            it.reversed() == options.reverse,
            it.items() == if options.reverse {
                self.es().reverse()
            } else {
                self.es()
            },
            crate::index::seq_entries_match(it.items(), self.m()),
    {
        let snap = self.snapshot(options.reverse);
        let it = BTreeIterator { items: snap, curr_index: 0, options };
        proof {
            let es = self.es();
            lemma_entries_card(es);
            lemma_sorted_distinct(es);
            if it.options.reverse {
                assert(sorted_desc(it.items())) by {
                    assert(forall|i: int|
                        0 <= i < es.len() ==> #[trigger] it.items()[i] == es[es.len() - 1 - i]);
                }
            }
            assert forall|k: Seq<u8>| self.m().contains_key(k) implies exists|i: int|
                0 <= i < it.items().len() && (#[trigger] it.items()[i]).0 == k by {
                let j = key_index(es, k);
                if it.options.reverse {
                    assert(it.items()[es.len() - 1 - j].0 == k);
                } else {
                    assert(it.items()[j].0 == k);
                }
            }
            assert forall|i: int| 0 <= i < it.items().len() implies self.m().contains_key(
                (#[trigger] it.items()[i]).0,
            ) && self.m()[it.items()[i].0] == it.items()[i].1 by {
                if it.options.reverse {
                    assert(it.items()[i] == es[es.len() - 1 - i]);
                    lemma_key_index(es, es.len() - 1 - i);
                } else {
                    lemma_key_index(es, i);
                }
            }
        }
        it
    }
}

/// The entries are strictly descending by key.
pub open spec fn sorted_desc(es: Seq<(Seq<u8>, LogRecordPos)>) -> bool {
    forall|i: int, j: int| 0 <= i < j < es.len() ==> lex_lt(es[j].0, es[i].0)
}

/// An iterator over a snapshot of the ordered index.
pub struct BTreeIterator {
    /// the snapshot, already in iteration order
    items: Vec<(Vec<u8>, LogRecordPos)>,
    /// where the iterator stands
    curr_index: usize,
    /// prefix filter and direction
    options: IteratorOptions,
}

impl IndexIterator for BTreeIterator {
    closed spec fn items(&self) -> Seq<(Seq<u8>, LogRecordPos)> {
        entry_views(self.items@)
    }

    closed spec fn pos(&self) -> int {
        self.curr_index as int
    }

    closed spec fn prefix(&self) -> Seq<u8> {
        self.options.prefix@
    }

    closed spec fn reversed(&self) -> bool {
        self.options.reverse
    }

    closed spec fn inv(&self) -> bool {
        &&& self.curr_index <= self.items@.len()
        &&& if self.options.reverse {
            sorted_desc(self.items())
        } else {
            sorted_entry_views(self.items())
        }
    }

    fn rewind(&mut self) {
        self.curr_index = 0;
    }

    fn seek(&mut self, key: &Vec<u8>) {
        let mut lo: usize = 0;
        let mut hi: usize = self.items.len();
        while lo < hi
            invariant
                lo <= hi <= self.items@.len(),
                self.inv(),
                forall|i: int|
                    0 <= i < lo ==> seek_passes(
                        (#[trigger] self.items()[i]).0,
                        key@,
                        self.options.reverse,
                    ),
                forall|i: int|
                    hi <= i < self.items@.len() ==> !seek_passes(
                        (#[trigger] self.items()[i]).0,
                        key@,
                        self.options.reverse,
                    ),
            decreases hi - lo,
        {
            let mid = lo + (hi - lo) / 2;
            let passes = if self.options.reverse {
                key_less(key, &self.items[mid].0)
            } else {
                key_less(&self.items[mid].0, key)
            };
            if passes {
                proof {
                    assert forall|i: int| 0 <= i < mid + 1 implies seek_passes(
                        (#[trigger] self.items()[i]).0,
                        key@,
                        self.options.reverse,
                    ) by {
                        if i < mid {
                            if self.options.reverse {
                                lemma_lex_trans(key@, self.items()[mid as int].0, self.items()[i].0);
                            } else {
                                lemma_lex_trans(self.items()[i].0, self.items()[mid as int].0, key@);
                            }
                        }
                    }
                }
                lo = mid + 1;
            } else {
                proof {
                    assert forall|i: int| mid <= i < self.items@.len() implies !seek_passes(
                        (#[trigger] self.items()[i]).0,
                        key@,
                        self.options.reverse,
                    ) by {
                        if i > mid && seek_passes(self.items()[i].0, key@, self.options.reverse) {
                            if self.options.reverse {
                                lemma_lex_trans(key@, self.items()[i].0, self.items()[mid as int].0);
                            } else {
                                lemma_lex_trans(self.items()[mid as int].0, self.items()[i].0, key@);
                            }
                        }
                    }
                }
                hi = mid;
            }
        }
        self.curr_index = lo;
    }

    fn next(&mut self) -> (r: Option<(Vec<u8>, LogRecordPos)>) {
        let n = self.items.len();
        while self.curr_index < n
            invariant
                self.inv(),
                n == self.items@.len(),
                old(self).items@ == self.items@,
                old(self).options.prefix@ == self.options.prefix@,
                old(self).options.reverse == self.options.reverse,
                old(self).pos() <= self.pos(),
                forall|i: int|
                    old(self).pos() <= i < self.pos() ==> !self.options.prefix@.is_prefix_of(
                        (#[trigger] self.items()[i]).0,
                    ),
            decreases n - self.curr_index,
        {
            let i = self.curr_index;
            self.curr_index = i + 1;
            let matched = self.options.prefix.len() == 0 || key_has_prefix(
                &self.options.prefix,
                &self.items[i].0,
            );
            if matched {
                let k = crate::log_record::copy_range(&self.items[i].0, 0, self.items[i].0.len());
                proof {
                    assert(k@ =~= self.items@[i as int].0@);
                    if self.options.prefix@.len() == 0 {
                        assert(self.options.prefix@ =~= k@.subrange(0, 0));
                    }
                    assert(self.options.prefix@.is_prefix_of(k@));
                    assert(old(self).items()[i as int] == (k@, self.items@[i as int].1));
                    assert(old(self).prefix().is_prefix_of(k@));
                    assert(forall|t: int|
                        old(self).pos() <= t < i ==> !old(self).prefix().is_prefix_of(
                            (#[trigger] old(self).items()[t]).0,
                        ));
                }
                return Some((k, self.items[i].1));
            }
        }
        None
    }
}

} // verus!
