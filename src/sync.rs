use vstd::prelude::*;

use crate::state::FileState;
use crate::store::{pairs_of, FileDB};
use crate::update::FileItemUpdate;

verus! {

/// The updates that carry each of `items` in turn for the file `key` in state `state`.
pub open spec fn expansion<IP>(key: String, state: FileState, items: Seq<IP>) -> Seq<FileItemUpdate<IP>> {
    items.map_values(|x: IP| FileItemUpdate { key, state, sync_item: x })
}

/// The updates obtained by expanding each of `us` into the values `outs` gives
/// for it, in order: the expansions of the updates, one after the other.
pub open spec fn expand_all<I, IP>(us: Seq<FileItemUpdate<I>>, outs: Seq<Seq<IP>>) -> Seq<FileItemUpdate<IP>>
    decreases us.len(),
{
    if us.len() == 0 {
        Seq::empty()
    } else {
        expand_all(us.drop_last(), outs.drop_last()) + expansion(us.last().key, us.last().state, outs.last())
    }
}

/// The values carried for the file `key` in state `state`, in the order of `us`.
pub open spec fn items_for<I>(us: Seq<FileItemUpdate<I>>, key: Seq<char>, state: FileState) -> Seq<I>
    decreases us.len(),
{
    if us.len() == 0 {
        Seq::empty()
    } else if us.last().key@ == key && us.last().state == state {
        items_for(us.drop_last(), key, state).push(us.last().sync_item)
    } else {
        items_for(us.drop_last(), key, state)
    }
}

/// The updates of `frames` whose result in `results` is present, each
/// carrying its result, in order.
pub open spec fn kept_updates<IP>(frames: Seq<FileItemUpdate<()>>, results: Seq<Option<IP>>) -> Seq<FileItemUpdate<IP>>
    decreases results.len(),
{
    if results.len() == 0 {
        Seq::empty()
    } else {
        let rest = kept_updates(frames, results.drop_last());
        match results.last() {
            Some(x) => rest.push(
                FileItemUpdate { key: frames[results.len() - 1].key, state: frames[results.len() - 1].state, sync_item: x },
            ),
            None => rest,
        }
    }
}

/// What went wrong in a sync session.
#[derive(Debug, Clone, Copy, PartialEq, Eq, Structural)]
pub enum SyncError {
    /// A batch map gave `found` values for `expected` updates.
    LengthMismatch { expected: usize, found: usize },
}

fn push_expansion<IP>(out: &mut Vec<FileItemUpdate<IP>>, key: &String, state: FileState, items: Vec<IP>)
    ensures
        final(out)@ == old(out)@ + expansion(*key, state, items@),
{
    let ghost base = out@;
    let ghost all = items@;
    for x in it: items
        invariant
            it.seq() == all,
            out@ == base + expansion(*key, state, all.take(it.index() as int)),
    {
        proof {
            assert(all.take(it.index() + 1) =~= all.take(it.index() as int).push(x));
            assert(expansion(*key, state, all.take(it.index() + 1)) =~= expansion(*key, state, all.take(it.index() as int)).push(FileItemUpdate { key: *key, state, sync_item: x }));
        }
        out.push(FileItemUpdate { key: key.clone(), state, sync_item: x });
    }
    proof {
        assert(all.take(all.len() as int) =~= all);
    }
}

/// A sync session: the changed files of a store, each with the value the
/// pipeline currently carries for it, and the files to delete. It holds the
/// store until the session is committed.
pub struct Sync<SyncItem, DBItem> {
    pub db: FileDB<DBItem>,
    pub updates: Vec<FileItemUpdate<SyncItem>>,
    pub deletes: Vec<String>,
    /// The (file, state) pairs that entered the pipeline: each is written at
    /// commit, with no items when its values expanded to nothing.
    pub files: Vec<(String, FileState)>,
}

impl<I, V> Sync<I, V> {
    /// Applies `f` to every carried value, one to one, in order.
    pub fn map<IP, F: Fn(I) -> IP>(self, f: F) -> (r: Sync<IP, V>)
        requires
            forall|x: I| f.requires((x,)),
        ensures
            r.db == self.db,
            r.deletes == self.deletes,
            r.files == self.files,
            r.updates.len() == self.updates.len(),
            forall|i: int|
                0 <= i < r.updates.len() ==> {
                    &&& r.updates[i].key == self.updates[i].key
                    &&& r.updates[i].state == self.updates[i].state
                    &&& f.ensures((self.updates[i].sync_item,), r.updates[i].sync_item)
                },
    {
        let ghost old_updates = self.updates@;
        let mut updates: Vec<FileItemUpdate<IP>> = Vec::new();
        for u in it: self.updates
            invariant
                it.seq() == old_updates,
                forall|x: I| f.requires((x,)),
                updates.len() == it.index(),
                forall|i: int|
                    0 <= i < updates.len() ==> {
                        &&& updates[i].key == old_updates[i].key
                        &&& updates[i].state == old_updates[i].state
                        &&& f.ensures((old_updates[i].sync_item,), updates[i].sync_item)
                    },
        {
            updates.push(u.map(&f));
        }
        Sync { db: self.db, updates, deletes: self.deletes, files: self.files }
    }

    /// Expands every update into the values `f` gives for its carried value,
    /// each inheriting the file and state of its update, keeping the order.
    pub fn flat_map<IP, F: Fn(&I) -> Vec<IP>>(self, f: F) -> (r: Sync<IP, V>)
        requires
            forall|x: &I| f.requires((x,)),
        ensures
            r.db == self.db,
            r.deletes == self.deletes,
            r.files == self.files,
            exists|outs: Seq<Vec<IP>>|
                {
                    &&& outs.len() == self.updates.len()
                    &&& forall|i: int|
                        0 <= i < outs.len() ==> f.ensures((&self.updates[i].sync_item,), #[trigger] outs[i])
                    &&& r.updates@ == expand_all(self.updates@, outs.map_values(|v: Vec<IP>| v@))
                },
    {
        let ghost old_updates = self.updates@;
        let ghost mut outs: Seq<Vec<IP>> = Seq::empty();
        let mut updates: Vec<FileItemUpdate<IP>> = Vec::new();
        for u in it: self.updates
            invariant
                it.seq() == old_updates,
                forall|x: &I| f.requires((x,)),
                outs.len() == it.index(),
                forall|i: int| 0 <= i < outs.len() ==> f.ensures((&old_updates[i].sync_item,), #[trigger] outs[i]),
                updates@ == expand_all(old_updates.take(it.index() as int), outs.map_values(|v: Vec<IP>| v@)),
        {
            let ghost k = it.index();
            let items = f(&u.sync_item);
            let ghost next = outs.push(items);
            proof {
                let pre = old_updates.take(k + 1);
                assert(pre.drop_last() =~= old_updates.take(k as int));
                assert(next.map_values(|v: Vec<IP>| v@).drop_last() =~= outs.map_values(|v: Vec<IP>| v@));
                assert(pre.last() == u);
            }
            push_expansion(&mut updates, &u.key, u.state, items);
            proof {
                outs = next;
            }
        }
        proof {
            assert(old_updates.take(old_updates.len() as int) =~= old_updates);
        }
        Sync { db: self.db, updates, deletes: self.deletes, files: self.files }
    }

    /// Takes out the carried values, in order, leaving a session that carries
    /// nothing but the files and their states.
    pub fn split_batch(self) -> (r: (Vec<I>, Sync<(), V>))
        ensures
            r.1.db == self.db,
            r.1.deletes == self.deletes,
            r.1.files == self.files,
            r.0.len() == self.updates.len(),
            r.1.updates.len() == self.updates.len(),
            forall|i: int|
                0 <= i < r.0.len() ==> {
                    &&& r.0[i] == self.updates[i].sync_item
                    &&& r.1.updates[i].key == self.updates[i].key
                    &&& r.1.updates[i].state == self.updates[i].state
                },
    {
        let ghost old_updates = self.updates@;
        let mut items: Vec<I> = Vec::new();
        let mut updates: Vec<FileItemUpdate<()>> = Vec::new();
        for u in it: self.updates
            invariant
                it.seq() == old_updates,
                items.len() == it.index(),
                updates.len() == it.index(),
                forall|i: int| 0 <= i < items.len() ==> items[i] == old_updates[i].sync_item,
                forall|i: int| 0 <= i < items.len() ==> updates[i].key == old_updates[i].key,
                forall|i: int| 0 <= i < items.len() ==> updates[i].state == old_updates[i].state,
        {
            items.push(u.sync_item);
            updates.push(FileItemUpdate { key: u.key, state: u.state, sync_item: () });
        }
        (items, Sync { db: self.db, updates, deletes: self.deletes, files: self.files })
    }
}

impl<V> Sync<(), V> {
    /// Pairs the results of a batch map with the files they were computed for,
    /// in order. Fails when the batch did not give one result per update.
    pub fn rejoin_batch<IP>(self, results: Vec<IP>) -> (r: Result<Sync<IP, V>, SyncError>)
        ensures
            results.len() != self.updates.len() ==> r == Err::<Sync<IP, V>, SyncError>(
                SyncError::LengthMismatch { expected: self.updates.len(), found: results.len() },
            ),
            results.len() == self.updates.len() ==> (r matches Ok(s) && {
                &&& s.db == self.db
                &&& s.deletes == self.deletes
                &&& s.files == self.files
                &&& s.updates.len() == results.len()
                &&& forall|i: int|
                    0 <= i < results.len() ==> {
                        &&& s.updates[i].key == self.updates[i].key
                        &&& s.updates[i].state == self.updates[i].state
                        &&& s.updates[i].sync_item == results[i]
                    }
            }),
    {
        if results.len() != self.updates.len() {
            return Err(SyncError::LengthMismatch { expected: self.updates.len(), found: results.len() });
        }
        let ghost old_updates = self.updates@;
        let ghost all = results@;
        let frames = self.updates;
        let mut updates: Vec<FileItemUpdate<IP>> = Vec::new();
        for x in it: results
            invariant
                it.seq() == all,
                all.len() == old_updates.len(),
                frames@ == old_updates,
                updates.len() == it.index(),
                forall|j: int| 0 <= j < updates.len() ==> updates[j].key == old_updates[j].key,
                forall|j: int| 0 <= j < updates.len() ==> updates[j].state == old_updates[j].state,
                forall|j: int| 0 <= j < updates.len() ==> updates[j].sync_item == all[j],
        {
            let k: usize = updates.len();
            assert(x == all[k as int]);
            let key = frames[k].key.clone();
            let state = frames[k].state;
            updates.push(FileItemUpdate { key, state, sync_item: x });
        }
        assert(updates@.len() == all.len());
        Ok(Sync { db: self.db, updates, deletes: self.deletes, files: self.files })
    }
}

impl<V> Sync<(), V> {
    /// Pairs the results of reading each file with the files they came from,
    /// in order, dropping the updates whose read failed (`None`). Fails when
    /// there is not one result per update.
    pub fn populate_with<IP>(self, results: Vec<Option<IP>>) -> (r: Result<Sync<IP, V>, SyncError>)
        ensures
            results.len() != self.updates.len() ==> r == Err::<Sync<IP, V>, SyncError>(
                SyncError::LengthMismatch { expected: self.updates.len(), found: results.len() },
            ),
            results.len() == self.updates.len() ==> (r matches Ok(s) && {
                &&& s.db == self.db
                &&& s.deletes == self.deletes
                &&& s.updates@ == kept_updates(self.updates@, results@)
                &&& s.files@ == pairs_of(s.updates@)
            }),
    {
        if results.len() != self.updates.len() {
            return Err(SyncError::LengthMismatch { expected: self.updates.len(), found: results.len() });
        }
        let ghost all = results@;
        let frames = self.updates;
        let mut updates: Vec<FileItemUpdate<IP>> = Vec::new();
        let mut files: Vec<(String, FileState)> = Vec::new();
        let mut i: usize = 0;
        for x in it: results
            invariant
                it.seq() == all,
                all.len() == frames.len(),
                i == it.index(),
                updates@ == kept_updates(frames@, all.take(it.index() as int)),
                files@ == pairs_of(updates@),
        {
            let ghost k = it.index();
            proof {
                assert(all.take(k + 1).drop_last() =~= all.take(k as int));
                assert(all.take(k + 1).last() == x);
            }
            match x {
                Some(item) => {
                    let key = frames[i].key.clone();
                    files.push((frames[i].key.clone(), frames[i].state));
                    updates.push(FileItemUpdate { key, state: frames[i].state, sync_item: item });
                    proof {
                        assert(pairs_of(updates@) =~= pairs_of(kept_updates(frames@, all.take(k as int))).push((frames@[i as int].key, frames@[i as int].state)));
                    }
                },
                None => {},
            }
            i = i + 1;
        }
        proof {
            assert(all.take(all.len() as int) =~= all);
        }
        Ok(Sync { db: self.db, updates, deletes: self.deletes, files })
    }
}

impl<II, V> Sync<Vec<II>, V> {
    /// Flattens carried vectors: each element becomes an update of its own,
    /// with the file and state of the vector it came from, keeping the order.
    pub fn inner_flatten(self) -> (r: Sync<II, V>)
        ensures
            r.db == self.db,
            r.deletes == self.deletes,
            r.files == self.files,
            r.updates@ == expand_all(self.updates@, self.updates@.map_values(|u: FileItemUpdate<Vec<II>>| u.sync_item@)),
    {
        let ghost old_updates = self.updates@;
        let mut updates: Vec<FileItemUpdate<II>> = Vec::new();
        for u in it: self.updates
            invariant
                it.seq() == old_updates,
                updates@ == expand_all(
                    old_updates.take(it.index() as int),
                    old_updates.take(it.index() as int).map_values(|u: FileItemUpdate<Vec<II>>| u.sync_item@),
                ),
        {
            let ghost k = it.index();
            proof {
                let pre = old_updates.take(k + 1);
                assert(pre.drop_last() =~= old_updates.take(k as int));
                assert(pre.map_values(|u: FileItemUpdate<Vec<II>>| u.sync_item@).drop_last() =~= old_updates.take(k as int).map_values(|u: FileItemUpdate<Vec<II>>| u.sync_item@));
                assert(pre.last() == u);
            }
            push_expansion(&mut updates, &u.key, u.state, u.sync_item);
        }
        proof {
            assert(old_updates.take(old_updates.len() as int) =~= old_updates);
        }
        Sync { db: self.db, updates, deletes: self.deletes, files: self.files }
    }
}

} // verus!
