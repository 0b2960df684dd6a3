//! The in-memory index: key to latest on-disk position.
use crate::btree::BTree;
use crate::log_record::LogRecordPos;
use crate::options::{IndexType, IteratorOptions};
use vstd::prelude::*;

verus! {

/// Bytewise lexicographic order on keys; a proper prefix comes first.
pub open spec fn lex_lt(a: Seq<u8>, b: Seq<u8>) -> bool
    decreases a.len(),
{
    if b.len() == 0 {
        false
    } else if a.len() == 0 {
        true
    } else if a[0] < b[0] {
        true
    } else if a[0] > b[0] {
        false
    } else {
        lex_lt(a.subrange(1, a.len() as int), b.subrange(1, b.len() as int))
    }
}

pub proof fn lemma_lex_connex(a: Seq<u8>, b: Seq<u8>)
    ensures
        lex_lt(a, b) || lex_lt(b, a) || a == b,
    decreases a.len(),
{
    if a.len() == 0 {
        if b.len() == 0 {
            assert(a =~= b);
        }
    } else if b.len() == 0 {
    } else if a[0] == b[0] {
        let at = a.subrange(1, a.len() as int);
        let bt = b.subrange(1, b.len() as int);
        lemma_lex_connex(at, bt);
        if !lex_lt(a, b) && !lex_lt(b, a) {
            assert(at == bt);
            assert(a.len() == b.len());
            assert forall|i: int| 0 <= i < a.len() implies a[i] == b[i] by {
                if i > 0 {
                    assert(at[i - 1] == a[i]);
                    assert(bt[i - 1] == b[i]);
                }
            }
            assert(a =~= b);
        }
    }
}

pub proof fn lemma_lex_irrefl(a: Seq<u8>)
    ensures
        !lex_lt(a, a),
    decreases a.len(),
{
    if a.len() > 0 {
        lemma_lex_irrefl(a.subrange(1, a.len() as int));
    }
}

pub proof fn lemma_lex_trans(a: Seq<u8>, b: Seq<u8>, c: Seq<u8>)
    requires
        lex_lt(a, b),
        lex_lt(b, c),
    ensures
        lex_lt(a, c),
    decreases a.len(),
{
    if a.len() > 0 && b.len() > 0 && c.len() > 0 && a[0] == b[0] && b[0] == c[0] {
        lemma_lex_trans(
            a.subrange(1, a.len() as int),
            b.subrange(1, b.len() as int),
            c.subrange(1, c.len() as int),
        );
    }
}

/// Compares two keys in lexicographic order.
pub fn key_less(a: &Vec<u8>, b: &Vec<u8>) -> (r: bool)
    ensures
        r == lex_lt(a@, b@),
{
    let an = a.len();
    let bn = b.len();
    let mut i: usize = 0;
    proof {
        assert(a@.skip(0) =~= a@);
        assert(b@.skip(0) =~= b@);
    }
    loop
        invariant
            i <= an,
            i <= bn,
            an == a@.len(),
            bn == b@.len(),
            lex_lt(a@, b@) == lex_lt(a@.skip(i as int), b@.skip(i as int)),
        decreases an - i,
    {
        if i >= an || i >= bn {
            // one key is a prefix of the other
            proof {
                if i >= an {
                    assert(a@.skip(i as int).len() == 0);
                } else {
                    assert(b@.skip(i as int).len() == 0);
                    assert(a@.skip(i as int).len() > 0);
                }
            }
            return i >= an && i < bn;
        }
        let x = a[i];
        let y = b[i];
        if x < y {
            proof {
                assert(a@.skip(i as int)[0] == x && b@.skip(i as int)[0] == y);
            }
            return true;
        }
        if x > y {
            proof {
                assert(a@.skip(i as int)[0] == x && b@.skip(i as int)[0] == y);
            }
            return false;
        }
        proof {
            let sa = a@.skip(i as int);
            let sb = b@.skip(i as int);
            assert(sa[0] == x && sb[0] == y);
            assert(sa.subrange(1, sa.len() as int) =~= a@.skip(i + 1));
            assert(sb.subrange(1, sb.len() as int) =~= b@.skip(i + 1));
        }
        i = i + 1;
    }
}

/// Are two keys the same bytes?
pub fn key_eq(a: &Vec<u8>, b: &Vec<u8>) -> (r: bool)
    ensures
        r == (a@ == b@),
{
    let n = a.len();
    if n != b.len() {
        return false;
    }
    let mut i: usize = 0;
    while i < n
        invariant
            i <= n,
            n == a@.len() == b@.len(),
            forall|j: int| 0 <= j < i ==> a@[j] == b@[j],
        decreases n - i,
    {
        if a[i] != b[i] {
            return false;
        }
        i = i + 1;
    }
    proof {
        assert(a@ =~= b@);
    }
    true
}

/// Does `k` start with `p`?
pub fn key_has_prefix(p: &Vec<u8>, k: &Vec<u8>) -> (r: bool)
    ensures
        r == p@.is_prefix_of(k@),
{
    if p.len() > k.len() {
        return false;
    }
    let n = p.len();
    let mut i: usize = 0;
    while i < n
        invariant
            i <= n,
            n == p@.len() <= k@.len(),
            forall|j: int| 0 <= j < i ==> p@[j] == k@[j],
        decreases n - i,
    {
        if p[i] != k[i] {
            proof {
                assert(!p@.is_prefix_of(k@)) by {
                    if p@.is_prefix_of(k@) {
                        assert(p@[i as int] == k@.subrange(0, p@.len() as int)[i as int]);
                    }
                }
            }
            return false;
        }
        i = i + 1;
    }
    proof {
        assert(p@ =~= k@.subrange(0, p@.len() as int));
    }
    true
}

/// The capability set an index provides: store, look up and remove the
/// latest position of a key, and enumerate keys in order.
pub trait Indexer: Sized {
    /// The key-to-position map the index stands for.
    spec fn m(&self) -> Map<Seq<u8>, LogRecordPos>;

    /// The structure's own well-formedness.
    spec fn inv(&self) -> bool;

    /// Stores `pos` for `key` and hands back the position it replaces.
    fn put(&mut self, key: Vec<u8>, pos: LogRecordPos) -> (prev: Option<LogRecordPos>)
        requires
            old(self).inv(),
        ensures
            final(self).inv(),
            final(self).m() == old(self).m().insert(key@, pos),
            prev == if old(self).m().contains_key(key@) {
                Some(old(self).m()[key@])
            } else {
                None::<LogRecordPos>
            },
    ;

    /// Looks up the position of `key`.
    fn get(&self, key: &Vec<u8>) -> (r: Option<LogRecordPos>)
        requires
            self.inv(),
        ensures
            r == if self.m().contains_key(key@) {
                Some(self.m()[key@])
            } else {
                None::<LogRecordPos>
            },
    ;

    /// Removes `key` and hands back the position it had.
    fn delete(&mut self, key: &Vec<u8>) -> (prev: Option<LogRecordPos>)
        requires
            old(self).inv(),
        ensures
            final(self).inv(),
            final(self).m() == old(self).m().remove(key@),
            prev == if old(self).m().contains_key(key@) {
                Some(old(self).m()[key@])
            } else {
                None::<LogRecordPos>
            },
    ;

    /// Every key, in ascending order.
    fn list_keys(&self) -> (keys: Vec<Vec<u8>>)
        requires
            self.inv(),
        ensures
            keys@.len() == self.m().dom().len(),
            forall|i: int| 0 <= i < keys@.len() ==> self.m().contains_key(#[trigger] keys@[i]@),
            forall|k: Seq<u8>| self.m().contains_key(k) ==> exists|i: int|
                0 <= i < keys@.len() && #[trigger] keys@[i]@ == k,
            forall|i: int, j: int| 0 <= i < j < keys@.len() ==> lex_lt(keys@[i]@, keys@[j]@),
    ;

    /// A snapshot of every entry, in ascending key order.
    fn entries(&self) -> (es: Vec<(Vec<u8>, LogRecordPos)>)
        requires
            self.inv(),
        ensures
            sorted_entry_views(entry_views(es@)),
            seq_entries_match(entry_views(es@), self.m()),
    ;
}

/// The spec-level view of a snapshot of entries.
pub open spec fn entry_views(es: Seq<(Vec<u8>, LogRecordPos)>) -> Seq<(Seq<u8>, LogRecordPos)> {
    es.map_values(|e: (Vec<u8>, LogRecordPos)| (e.0@, e.1))
}

/// The entries are strictly ascending by key.
pub open spec fn sorted_entry_views(es: Seq<(Seq<u8>, LogRecordPos)>) -> bool {
    forall|i: int, j: int| 0 <= i < j < es.len() ==> lex_lt(es[i].0, es[j].0)
}

/// The entries are exactly the graph of the map.
pub open spec fn seq_entries_match(
    es: Seq<(Seq<u8>, LogRecordPos)>,
    m: Map<Seq<u8>, LogRecordPos>,
) -> bool {
    &&& forall|i: int|
        0 <= i < es.len() ==> m.contains_key(#[trigger] es[i].0) && m[es[i].0] == es[i].1
    &&& forall|k: Seq<u8>| m.contains_key(k) ==> exists|i: int|
        0 <= i < es.len() && #[trigger] es[i].0 == k
    &&& es.len() == m.dom().len()
}

/// An iterator over a snapshot of index entries. It does not observe
/// mutations made after its creation.
pub trait IndexIterator: Sized {
    /// The snapshot, already reversed when the iterator runs backwards.
    spec fn items(&self) -> Seq<(Seq<u8>, LogRecordPos)>;

    /// Where the iterator stands in the snapshot.
    spec fn pos(&self) -> int;

    /// The configured key prefix filter.
    spec fn prefix(&self) -> Seq<u8>;

    spec fn inv(&self) -> bool;

    /// Back to the first entry.
    fn rewind(&mut self)
        requires
            old(self).inv(),
        ensures
            final(self).inv(),
            final(self).items() == old(self).items(),
            final(self).prefix() == old(self).prefix(),
            final(self).pos() == 0,
    ;

    /// Positions the iterator on the first entry at or past `key` in the
    /// iterator's direction.
    fn seek(&mut self, key: &Vec<u8>)
        requires
            old(self).inv(),
        ensures
            final(self).inv(),
            final(self).items() == old(self).items(),
            final(self).prefix() == old(self).prefix(),
            final(self).reversed() == old(self).reversed(),
            0 <= final(self).pos() <= final(self).items().len(),
            forall|i: int|
                0 <= i < final(self).pos() ==> seek_passes(
                    (#[trigger] final(self).items()[i]).0,
                    key@,
                    old(self).reversed(),
                ),
            forall|i: int|
                final(self).pos() <= i < final(self).items().len() ==> !seek_passes(
                    (#[trigger] final(self).items()[i]).0,
                    key@,
                    old(self).reversed(),
                ),
    ;

    /// Whether the iterator runs from the largest key down.
    spec fn reversed(&self) -> bool;

    /// The next entry whose key starts with the prefix, if one is left.
    fn next(&mut self) -> (r: Option<(Vec<u8>, LogRecordPos)>)
        requires
            old(self).inv(),
        ensures
            final(self).inv(),
            final(self).items() == old(self).items(),
            final(self).prefix() == old(self).prefix(),
            0 <= old(self).pos() <= old(self).items().len(),
            old(self).pos() <= final(self).pos() <= final(self).items().len(),
            match r {
                Some(e) => {
                    &&& exists|j: int|
                        old(self).pos() <= j < old(self).items().len() && #[trigger] old(
                            self,
                        ).items()[j] == (e.0@, e.1) && old(self).prefix().is_prefix_of(e.0@)
                            && final(self).pos() == j + 1 && (forall|i: int|
                            old(self).pos() <= i < j ==> !old(self).prefix().is_prefix_of(
                                #[trigger] old(self).items()[i].0,
                            ))
                },
                None => {
                    &&& final(self).pos() == old(self).items().len()
                    &&& forall|i: int|
                        old(self).pos() <= i < old(self).items().len() ==> !old(
                            self,
                        ).prefix().is_prefix_of(#[trigger] old(self).items()[i].0)
                },
            },
    ;
}

/// A key counts for a seek target when it is at or past the target in the
/// direction of iteration.
pub open spec fn seek_passes(k: Seq<u8>, target: Seq<u8>, reversed: bool) -> bool {
    if reversed {
        lex_lt(target, k)
    } else {
        lex_lt(k, target)
    }
}

/// The index structures the engine can be configured with.
pub enum IndexImpl {
    BTree(BTree),
}

/// Opens the in-memory index the options ask for: both in-memory kinds
/// are served by the ordered map. The disk-backed B+ tree variant keeps
/// its own store and is not part of this engine.
pub fn new_indexer(index_type: IndexType) -> (r: IndexImpl)
    requires
        index_type != IndexType::BPlusTree,
    ensures
        r.inv(),
        r.m() == Map::<Seq<u8>, LogRecordPos>::empty(),
        r is BTree,
{
    IndexImpl::BTree(BTree::new())
}

impl Indexer for IndexImpl {
    open spec fn m(&self) -> Map<Seq<u8>, LogRecordPos> {
        match self {
            IndexImpl::BTree(t) => t.m(),
        }
    }

    open spec fn inv(&self) -> bool {
        match self {
            IndexImpl::BTree(t) => t.inv(),
        }
    }

    fn put(&mut self, key: Vec<u8>, pos: LogRecordPos) -> (prev: Option<LogRecordPos>) {
        match self {
            IndexImpl::BTree(t) => t.put(key, pos),
        }
    }

    fn get(&self, key: &Vec<u8>) -> (r: Option<LogRecordPos>) {
        match self {
            IndexImpl::BTree(t) => t.get(key),
        }
    }

    fn delete(&mut self, key: &Vec<u8>) -> (prev: Option<LogRecordPos>) {
        match self {
            IndexImpl::BTree(t) => t.delete(key),
        }
    }

    fn list_keys(&self) -> (keys: Vec<Vec<u8>>) {
        match self {
            IndexImpl::BTree(t) => t.list_keys(),
        }
    }

    fn entries(&self) -> (es: Vec<(Vec<u8>, LogRecordPos)>) {
        match self {
            IndexImpl::BTree(t) => t.entries(),
        }
    }
}

} // verus!
