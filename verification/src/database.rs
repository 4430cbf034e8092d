//! The durable key-value ledger contract, and an in-memory store that
//! satisfies it.

use vstd::prelude::*;

use crate::kvlist::{
    as_map, erase_key, has_key, index_of_key_last, lemma_as_map_append, lemma_as_map_dom,
    lemma_as_map_erase, lemma_as_map_latest,
};
use crate::workload::{WorkSet, Workload};

verus! {

/// Capability set of a key-value store holding, per peer, the units of the
/// work that peer has completed.  This is the only contract the pool relies
/// on; any storage engine that meets it can stand behind the pool.
pub trait AccessDatabase: Sized {
    /// The key → stored-units map this store holds.
    spec fn contents(&self) -> Map<u64, Seq<Seq<u8>>>;

    /// Open or create a store at `location`.
    fn open(location: String) -> Self;

    /// The stored value under `key`, or an empty workload when the key is
    /// absent.  An error reports a storage-layer failure; either way the
    /// contents are left as they were.
    fn get_value(&mut self, key: u64) -> (r: Result<WorkSet, ()>)
        ensures
            final(self).contents() == old(self).contents(),
            r matches Ok(v) ==> v.units() == (if old(self).contents().dom().contains(key) {
                old(self).contents()[key]
            } else {
                Seq::<Seq<u8>>::empty()
            }),
    ;

    /// Write or overwrite the value under `key`.  An error reports a
    /// storage-layer failure and leaves the contents as they were.
    fn put_value(&mut self, key: u64, value: &WorkSet) -> (r: Result<(), ()>)
        ensures
            r matches Ok(_) ==> final(self).contents() == old(self).contents().insert(
                key,
                value.units(),
            ),
            r matches Err(_) ==> final(self).contents() == old(self).contents(),
    ;

    /// Remove `key` and hand back its prior value.  An error reports an
    /// absent key or a storage-layer failure and leaves the contents as they
    /// were.
    fn delete_key(&mut self, key: u64) -> (r: Result<WorkSet, ()>)
        ensures
            r matches Ok(v) ==> old(self).contents().dom().contains(key) && v.units() == old(
                self,
            ).contents()[key] && final(self).contents() == old(self).contents().remove(key),
            r matches Err(_) ==> final(self).contents() == old(self).contents(),
    ;
}

/// The key and held units of each entry, in order.
pub open spec fn pair_views(s: Seq<(u64, WorkSet)>) -> Seq<(u64, Seq<Seq<u8>>)> {
    Seq::new(s.len(), |i: int| (s[i].0, s[i].1.units()))
}

pub broadcast proof fn lemma_pair_views_len(s: Seq<(u64, WorkSet)>)
    ensures
        #[trigger] pair_views(s).len() == s.len(),
{
}

pub broadcast proof fn lemma_pair_views_index(s: Seq<(u64, WorkSet)>, i: int)
    requires
        0 <= i < s.len(),
    ensures
        #[trigger] pair_views(s)[i] == (s[i].0, s[i].1.units()),
{
}

pub broadcast proof fn lemma_pair_views_push(s: Seq<(u64, WorkSet)>, x: (u64, WorkSet))
    ensures
        #[trigger] pair_views(s.push(x)) == pair_views(s).push((x.0, x.1.units())),
{
    assert(pair_views(s.push(x)) =~= pair_views(s).push((x.0, x.1.units())));
}

/// An in-memory key-value store: the substitutable stand-in for a durable
/// engine, verified against the full `AccessDatabase` contract.  Writes
/// replace the key's entries; reads return the latest write.  Its operations
/// never report a storage failure, and `delete_key` errs exactly on an
/// absent key.
pub struct MemoryStore {
    entries: Vec<(u64, WorkSet)>,
}

impl MemoryStore {
    /// An empty store.
    pub fn new() -> (s: MemoryStore)
        ensures
            s.contents() == Map::<u64, Seq<Seq<u8>>>::empty(),
    {
        let s = MemoryStore { entries: Vec::new() };
        proof {
            assert(pair_views(s.entries@) =~= Seq::<(u64, Seq<Seq<u8>>)>::empty());
            assert(s.contents() =~= Map::<u64, Seq<Seq<u8>>>::empty());
        }
        s
    }
}

/// The entries of `src`, in order, without those bearing `key`.
fn entries_without(src: &Vec<(u64, WorkSet)>, key: u64) -> (out: Vec<(u64, WorkSet)>)
    ensures
        pair_views(out@) == erase_key(pair_views(src@), key),
{
    broadcast use lemma_pair_views_len, lemma_pair_views_index, lemma_pair_views_push;

    let ghost all = pair_views(src@);
    let mut out: Vec<(u64, WorkSet)> = Vec::new();
    let mut i: usize = 0;
    while i < src.len()
        invariant
            i <= src@.len(),
            all == pair_views(src@),
            pair_views(out@) == erase_key(all.take(i as int), key),
        decreases src@.len() - i,
    {
        proof {
            reveal_with_fuel(Seq::filter, 2);
            assert(all[i as int] == (src@[i as int].0, src@[i as int].1.units()));
            assert(all.take(i + 1).drop_last() =~= all.take(i as int));
            assert(all.take(i + 1).last() == all[i as int]);
            if src@[i as int].0 != key {
                assert(erase_key(all.take(i + 1), key) == erase_key(all.take(i as int), key).push(
                    all[i as int],
                ));
            } else {
                assert(erase_key(all.take(i + 1), key) == erase_key(all.take(i as int), key));
            }
        }
        if src[i].0 != key {
            let kept = (src[i].0, src[i].1.duplicate());
            out.push(kept);
            proof {
                assert(pair_views(out@) =~= erase_key(all.take(i as int), key).push(
                    all[i as int],
                ));
            }
        }
        i = i + 1;
    }
    proof {
        assert(all.take(all.len() as int) =~= all);
    }
    out
}

impl AccessDatabase for MemoryStore {
    closed spec fn contents(&self) -> Map<u64, Seq<Seq<u8>>> {
        as_map(pair_views(self.entries@))
    }

    /// The location is irrelevant to a store that lives in memory.
    fn open(location: String) -> Self {
        MemoryStore::new()
    }

    fn get_value(&mut self, key: u64) -> (r: Result<WorkSet, ()>)
        ensures
            r is Ok,
    {
        broadcast use lemma_pair_views_len, lemma_pair_views_index;

        match index_of_key_last(&self.entries, key) {
            Some(i) => {
                proof {
                    assert forall|j: int| i < j < pair_views(self.entries@).len() implies (
                    #[trigger] pair_views(self.entries@)[j]).0 != pair_views(
                        self.entries@,
                    )[i as int].0 by {
                        assert(pair_views(self.entries@)[j] == (
                            self.entries@[j].0,
                            self.entries@[j].1.units(),
                        ));
                    }
                    lemma_as_map_latest(pair_views(self.entries@), i as int);
                }
                Ok(self.entries[i].1.duplicate())
            },
            None => {
                proof {
                    lemma_as_map_dom(pair_views(self.entries@));
                    assert forall|j: int| 0 <= j < pair_views(self.entries@).len() implies (
                    #[trigger] pair_views(self.entries@)[j]).0 != key by {
                        assert(pair_views(self.entries@)[j] == (
                            self.entries@[j].0,
                            self.entries@[j].1.units(),
                        ));
                        assert(self.entries@[j].0 != key);
                    }
                    assert(!has_key(pair_views(self.entries@), key));
                    assert(!self.contents().dom().contains(key));
                }
                Ok(WorkSet::new())
            },
        }
    }

    fn put_value(&mut self, key: u64, value: &WorkSet) -> (r: Result<(), ()>)
        ensures
            r is Ok,
    {
        broadcast use lemma_pair_views_len, lemma_pair_views_index, lemma_pair_views_push;

        let ghost pre = pair_views(self.entries@);
        let mut out = entries_without(&self.entries, key);
        let ghost erased = out@;
        let stored = value.duplicate();
        let ghost gstored = stored;
        out.push((key, stored));
        proof {
            lemma_as_map_erase(pre, key);
            lemma_as_map_append(erase_key(pre, key), key, value.units());
        }
        self.entries = out;
        proof {
            assert(self.entries@ == erased.push((key, gstored)));
            assert(pair_views(self.entries@) == pair_views(erased).push((key, gstored.units())));
            assert(gstored.units() == value.units());
            assert(pair_views(erased) == erase_key(pre, key));
            assert(as_map(pair_views(self.entries@)) == as_map(pre).remove(key).insert(
                key,
                value.units(),
            ));
            assert(self.contents() =~= old(self).contents().insert(key, value.units()));
        }
        Ok(())
    }

    fn delete_key(&mut self, key: u64) -> (r: Result<WorkSet, ()>)
        ensures
            r is Ok <==> old(self).contents().dom().contains(key),
    {
        broadcast use lemma_pair_views_len, lemma_pair_views_index;

        let ghost pre = pair_views(self.entries@);
        match index_of_key_last(&self.entries, key) {
            Some(i) => {
                proof {
                    assert forall|j: int| i < j < pre.len() implies (#[trigger] pre[j]).0
                        != pre[i as int].0 by {
                        assert(pre[j] == (self.entries@[j].0, self.entries@[j].1.units()));
                    }
                    lemma_as_map_latest(pre, i as int);
                    lemma_as_map_erase(pre, key);
                }
                let prior = self.entries[i].1.duplicate();
                let out = entries_without(&self.entries, key);
                self.entries = out;
                proof {
                    assert(self.contents() == old(self).contents().remove(key));
                }
                Ok(prior)
            },
            None => {
                proof {
                    lemma_as_map_dom(pre);
                    assert forall|j: int| 0 <= j < pre.len() implies (#[trigger] pre[j]).0
                        != key by {
                        assert(pre[j] == (self.entries@[j].0, self.entries@[j].1.units()));
                        assert(self.entries@[j].0 != key);
                    }
                    assert(!has_key(pre, key));
                }
                Err(())
            },
        }
    }
}

} // verus!
