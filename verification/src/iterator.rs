//! The user-facing iterator: a snapshot of the index, resolved to values
//! through the engine. An iterator does not observe mutations made after
//! its creation; the records its snapshot points at are immutable.
use crate::db::{entry_ok, normal_rec, pos_holds_key, rec_at_pos, Engine};
use crate::index::IndexIterator;
use crate::log_record::LogRecordPos;
use crate::options::IteratorOptions;
use vstd::prelude::*;

verus! {

/// An iterator over the keys of the store, filtered by prefix and
/// directed by the configured order.
pub struct Iterator {
    index_iter: crate::btree::BTreeIterator,
}

/// The snapshot's positions still name live records of `e`: true at
/// creation, and kept true by the append-only store.
pub open spec fn snapshot_valid(items: Seq<(Seq<u8>, LogRecordPos)>, e: &Engine) -> bool {
    forall|i: int| #![trigger items[i]]
        0 <= i < items.len() ==> pos_holds_key(e.files(), items[i].1, items[i].0)
}

impl Iterator {
    pub closed spec fn items(&self) -> Seq<(Seq<u8>, LogRecordPos)> {
        self.index_iter.items()
    }

    pub closed spec fn pos(&self) -> int {
        self.index_iter.pos()
    }

    pub closed spec fn prefix(&self) -> Seq<u8> {
        self.index_iter.prefix()
    }

    pub closed spec fn reversed(&self) -> bool {
        self.index_iter.reversed()
    }

    pub closed spec fn inv(&self) -> bool {
        self.index_iter.inv()
    }

    /// Back to the first entry.
    pub fn rewind(&mut self)
        requires
            old(self).inv(),
        ensures
            final(self).inv(),
            final(self).items() == old(self).items(),
            final(self).prefix() == old(self).prefix(),
            final(self).pos() == 0,
    {
        self.index_iter.rewind();
    }

    /// Positions the iterator on the first entry at or past `key` in the
    /// iterator's direction.
    pub fn seek(&mut self, key: Vec<u8>)
        requires
            old(self).inv(),
        ensures
            final(self).inv(),
            final(self).items() == old(self).items(),
            final(self).prefix() == old(self).prefix(),
            final(self).reversed() == old(self).reversed(),
            0 <= final(self).pos() <= final(self).items().len(),
            forall|i: int|
                0 <= i < final(self).pos() ==> crate::index::seek_passes(
                    (#[trigger] final(self).items()[i]).0,
                    key@,
                    old(self).reversed(),
                ),
            forall|i: int|
                final(self).pos() <= i < final(self).items().len() ==> !crate::index::seek_passes(
                    (#[trigger] final(self).items()[i]).0,
                    key@,
                    old(self).reversed(),
                ),
    {
        self.index_iter.seek(&key);
    }

    /// The next key matching the prefix, together with its value.
    #[verifier::spinoff_prover]
    #[verifier::rlimit(100)]
    pub fn next(&mut self, engine: &Engine) -> (r: Option<(Vec<u8>, Vec<u8>)>)
        requires
            old(self).inv(),
            engine.wf(),
            snapshot_valid(old(self).items(), engine),
        ensures
            final(self).inv(),
            final(self).items() == old(self).items(),
            final(self).prefix() == old(self).prefix(),
            match r {
                Some(e) => {
                    &&& old(self).pos() < final(self).pos() <= old(self).items().len()
                    &&& (old(self).items()[final(self).pos() - 1]).0 == e.0@
                    &&& old(self).prefix().is_prefix_of(e.0@)
                    &&& exists|sq: u64|
                        rec_at_pos(
                            engine.files(),
                            old(self).items()[final(self).pos() - 1].1,
                            #[trigger] normal_rec(sq, e.0@, e.1@),
                        )
                    &&& forall|i: int|
                        old(self).pos() <= i < final(self).pos() - 1 ==> !old(
                            self,
                        ).prefix().is_prefix_of((#[trigger] old(self).items()[i]).0)
                },
                None => {
                    &&& final(self).pos() == old(self).items().len()
                    &&& forall|i: int|
                        old(self).pos() <= i < old(self).items().len() ==> !old(
                            self,
                        ).prefix().is_prefix_of((#[trigger] old(self).items()[i]).0)
                },
            },
    {
        match self.index_iter.next() {
            None => None,
            Some(e) => {
                let ghost it0 = old(self).index_iter;
                let ghost j = choose|j: int|
                    it0.pos() <= j < it0.items().len() && #[trigger] it0.items()[j] == (
                        e.0@,
                        e.1,
                    ) && it0.prefix().is_prefix_of(e.0@) && self.index_iter.pos() == j + 1 && (
                    forall|i: int|
                        it0.pos() <= i < j ==> !it0.prefix().is_prefix_of(
                            (#[trigger] it0.items()[i]).0,
                        ));
                proof {
                    assert(old(self).items() == it0.items());
                    assert(old(self).items()[j] == (e.0@, e.1));
                    assert(pos_holds_key(
                        engine.files(),
                        old(self).items()[j].1,
                        old(self).items()[j].0,
                    ));
                }
                let ghost (sqw, vw) = choose|sq: u64, v: Seq<u8>|
                    rec_at_pos(
                        engine.files(),
                        old(self).items()[j].1,
                        #[trigger] normal_rec(sq, old(self).items()[j].0, v),
                    );
                proof {
                    assert(rec_at_pos(engine.files(), e.1, normal_rec(sqw, e.0@, vw)));
                    assert(exists|sq: u64, v: Seq<u8>|
                        rec_at_pos(engine.files(), e.1, #[trigger] normal_rec(sq, e.0@, v)));
                }
                let value = engine.read_snapshot_value(e.1, Ghost(e.0@));
                let ret = (e.0, value);
                proof {
                    assert(ret.1@ == vw && ret.0@ == it0.items()[j].0);
                    assert(rec_at_pos(
                        engine.files(),
                        old(self).items()[j].1,
                        normal_rec(sqw, ret.0@, ret.1@),
                    ));
                    assert(exists|sq: u64|
                        rec_at_pos(
                            engine.files(),
                            old(self).items()[j].1,
                            #[trigger] normal_rec(sq, ret.0@, ret.1@),
                        ));
                    assert((#[trigger] old(self).items()[j]).0 == ret.0@);
                    assert(old(self).prefix().is_prefix_of(ret.0@));
                    assert(self.pos() == j + 1);
                    assert forall|i: int|
                        old(self).pos() <= i < j implies !old(self).prefix().is_prefix_of(
                        (#[trigger] old(self).items()[i]).0,
                    ) by {
                        assert(old(self).items()[i] == it0.items()[i]);
                    }
                }
                Some(ret)
            },
        }
    }
}

impl Engine {
    /// A snapshot iterator over the store.
    pub fn iter(&self, options: IteratorOptions) -> (it: Iterator)
        requires
            self.wf(),
        ensures
            it.inv(),
            it.pos() == 0,
            it.prefix() == options.prefix@,
            it.reversed() == options.reverse,
            snapshot_valid(it.items(), self),
            forall|i: int|
                0 <= i < it.items().len() ==> self.kv().contains_key(
                    (#[trigger] it.items()[i]).0,
                ) && entry_ok(
                    self.files(),
                    it.items()[i].1,
                    it.items()[i].0,
                    self.kv()[it.items()[i].0],
                ),
            forall|k: Seq<u8>|
                #[trigger] self.kv().contains_key(k) ==> exists|i: int|
                    0 <= i < it.items().len() && (#[trigger] it.items()[i]).0 == k,
            if options.reverse {
                crate::btree::sorted_desc(it.items())
            } else {
                crate::index::sorted_entry_views(it.items())
            },
    {
        let inner = self.snapshot_iter(options);
        let it = Iterator { index_iter: inner };
        proof {
            assert forall|i: int| #![trigger it.items()[i]]
                0 <= i < it.items().len() implies pos_holds_key(
                self.files(),
                it.items()[i].1,
                it.items()[i].0,
            ) by {
                let k = it.items()[i].0;
                let sq = choose|sq: u64|
                    rec_at_pos(
                        self.files(),
                        it.items()[i].1,
                        #[trigger] normal_rec(sq, k, self.kv()[k]),
                    );
                assert(rec_at_pos(
                    self.files(),
                    it.items()[i].1,
                    normal_rec(sq, it.items()[i].0, self.kv()[it.items()[i].0]),
                ));
            }
            assert(snapshot_valid(it.items(), self));
        }
        it
    }

    /// Runs `f` over every pair of the store in ascending key order,
    /// stopping when it returns false.
    pub fn fold<F: Fn(Vec<u8>, Vec<u8>) -> bool>(&self, f: F) -> (r: Result<(), crate::error::Errors>)
        requires
            self.wf(),
            forall|k: Vec<u8>, v: Vec<u8>| #[trigger] f.requires((k, v)),
        ensures
            r is Ok,
    {
        let mut it = self.iter(IteratorOptions::default());
        loop
            invariant
                it.inv(),
                self.wf(),
                snapshot_valid(it.items(), self),
                forall|k: Vec<u8>, v: Vec<u8>| #[trigger] f.requires((k, v)),
            decreases it.items().len() - it.pos(),
        {
            let ghost p0 = it.pos();
            match it.next(self) {
                None => {
                    return Ok(());
                },
                Some((k, v)) => {
                    proof {
                        if it.pos() <= p0 {
                            assert(false);
                        }
                    }
                    if !f(k, v) {
                        return Ok(());
                    }
                },
            }
        }
    }
}

} // verus!
