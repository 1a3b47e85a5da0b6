use vstd::prelude::*;

use crate::diff::{diff_states, distinct_names, gone, is_diff, unstored};
use crate::state::FileState;
use crate::sync::Sync;
use crate::update::FileItemUpdate;

verus! {

/// The (file, item) pairs of a read of the main table, in order: for each row,
/// its file with each item that could be decoded, skipping those that could not.
pub open spec fn flatten_rows<T>(rows: Seq<(String, Seq<Option<T>>)>) -> Seq<(String, T)>
    decreases rows.len(),
{
    if rows.len() == 0 {
        Seq::empty()
    } else {
        flatten_rows(rows.drop_last()) + row_entries(rows.last().0, rows.last().1)
    }
}

/// The (file, item) pairs of one row: the decoded items of `items`, in order.
pub open spec fn row_entries<T>(key: String, items: Seq<Option<T>>) -> Seq<(String, T)>
    decreases items.len(),
{
    if items.len() == 0 {
        Seq::empty()
    } else {
        match items.last() {
            Some(t) => row_entries(key, items.drop_last()).push((key, t)),
            None => row_entries(key, items.drop_last()),
        }
    }
}

/// Every item of `rows` could be decoded.
pub open spec fn all_decoded<T>(rows: Seq<(String, Seq<Option<T>>)>) -> bool {
    forall|i: int, j: int| 0 <= i < rows.len() && 0 <= j < rows[i].1.len() ==> (#[trigger] rows[i].1[j]) is Some
}

/// The view of rows read from the main table.
pub open spec fn rows_view<T>(rows: Seq<(String, Vec<Option<T>>)>) -> Seq<(String, Seq<Option<T>>)> {
    rows.map_values(|row: (String, Vec<Option<T>>)| (row.0, row.1@))
}

/// `out` holds `f` of each (file, item) pair of `entries`, in order.
pub open spec fn mapped_entries<T, U, F: Fn(&String, &T) -> U>(f: F, entries: Seq<(String, T)>, out: Seq<U>) -> bool {
    &&& out.len() == entries.len()
    &&& forall|i: int| 0 <= i < out.len() ==> f.ensures((&entries[i].0, &entries[i].1), #[trigger] out[i])
}

/// `accs` are the accumulators of a fold of `f` over `entries`: `accs[i + 1]`
/// is `f` of `accs[i]` and the `i`-th (file, item) pair.
pub open spec fn fold_steps<B, T, F: Fn(B, &String, &T) -> B>(f: F, entries: Seq<(String, T)>, accs: Seq<B>) -> bool {
    &&& accs.len() == entries.len() + 1
    &&& forall|i: int|
        0 <= i < entries.len() ==> f.ensures((accs[i], &entries[i].0, &entries[i].1), #[trigger] accs[i + 1])
}

/// The pairs (file, state) of a list of updates.
pub open spec fn pairs_of<I>(us: Seq<FileItemUpdate<I>>) -> Seq<(String, FileState)> {
    us.map_values(|u: FileItemUpdate<I>| (u.key, u.state))
}

/// A store of collections derived from the files under a directory: for each
/// file, the ordered items produced from it. The store keeps an in-memory
/// snapshot of every `(file, item)` pair, refreshed on each commit.
pub struct FileDB<T> {
    pub dir: String,
    pub cache: Vec<(String, T)>,
}

fn push_row<T>(out: &mut Vec<(String, T)>, key: &String, items: Vec<Option<T>>)
    ensures
        final(out)@ == old(out)@ + row_entries(*key, items@),
{
    let ghost base = out@;
    let ghost all = items@;
    for x in it: items
        invariant
            it.seq() == all,
            out@ == base + row_entries(*key, all.take(it.index() as int)),
    {
        let ghost k = it.index();
        proof {
            assert(all.take(k + 1).drop_last() =~= all.take(k as int));
            assert(all.take(k + 1).last() == x);
        }
        match x {
            Some(t) => {
                out.push((key.clone(), t));
                proof {
                    assert(out@ =~= base + row_entries(*key, all.take(k + 1)));
                }
            },
            None => {},
        }
    }
    proof {
        assert(all.take(all.len() as int) =~= all);
    }
}

impl<T> FileDB<T> {
    /// The (file, item) pairs of the rows read from the main table, each row's
    /// decoded items in order; items that could not be decoded are skipped.
    pub fn db_iter(rows: Vec<(String, Vec<Option<T>>)>) -> (r: Vec<(String, T)>)
        ensures
            r@ == flatten_rows(rows_view(rows@)),
    {
        let ghost all = rows@.map_values(|row: (String, Vec<Option<T>>)| (row.0, row.1@));
        let mut out: Vec<(String, T)> = Vec::new();
        for row in it: rows
            invariant
                all == it.seq().map_values(|row: (String, Vec<Option<T>>)| (row.0, row.1@)),
                out@ == flatten_rows(all.take(it.index() as int)),
        {
            let ghost k = it.index();
            proof {
                assert(all.take(k + 1).drop_last() =~= all.take(k as int));
                assert(all.take(k + 1).last() == (row.0, row.1@));
            }
            push_row(&mut out, &row.0, row.1);
        }
        proof {
            assert(all.take(all.len() as int) =~= all);
        }
        out
    }

    /// A store over `dir` whose snapshot holds the pairs of `rows`, read from
    /// the main table; no rows when the store has no database yet.
    pub fn new(dir: String, rows: Vec<(String, Vec<Option<T>>)>) -> (r: FileDB<T>)
        ensures
            r.dir == dir,
            r.cache@ == flatten_rows(rows_view(rows@)),
    {
        let cache = Self::db_iter(rows);
        FileDB { dir, cache }
    }

    /// `f` of every (file, item) pair of the rows read from the main table, in
    /// order; `None` when an item could not be decoded.
    pub fn map<U, F: Fn(&String, &T) -> U>(rows: Vec<(String, Vec<Option<T>>)>, f: F) -> (r: Option<Vec<U>>)
        requires
            forall|k: &String, t: &T| f.requires((k, t)),
        ensures
            r is None <==> !all_decoded(rows_view(rows@)),
            r matches Some(out) ==> mapped_entries(f, flatten_rows(rows_view(rows@)), out@),
    {
        let ghost all = rows_view(rows@);
        let mut out: Vec<U> = Vec::new();
        for row in it: rows
            invariant
                all == rows_view(it.seq()),
                all == rows_view(rows@),
                forall|k: &String, t: &T| f.requires((k, t)),
                all_decoded(all.take(it.index() as int)),
                mapped_entries(f, flatten_rows(all.take(it.index() as int)), out@),
        {
            let ghost k = it.index();
            let ghost done = flatten_rows(all.take(k as int));
            let ghost items = row.1@;
            proof {
                assert(all.take(k + 1).drop_last() =~= all.take(k as int));
                assert(all.take(k + 1).last() == (row.0, row.1@));
            }
            let key = row.0;
            proof {
                assert(all.take(k + 1)[k as int] == all[k as int]);
            }
            for x in jt: row.1
                invariant
                    jt.seq() == items,
                    0 <= k < all.len(),
                    all[k as int].1 == items,
                    all == rows_view(rows@),
                    forall|k: &String, t: &T| f.requires((k, t)),
                    forall|j: int| 0 <= j < jt.index() ==> (#[trigger] items[j]) is Some,
                    mapped_entries(f, done + row_entries(key, items.take(jt.index() as int)), out@),
            {
                let ghost j = jt.index();
                proof {
                    assert(items.take(j + 1).drop_last() =~= items.take(j as int));
                    assert(items.take(j + 1).last() == x);
                }
                match x {
                    Some(t) => {
                        let u = f(&key, &t);
                        let ghost before = out@;
                        out.push(u);
                        proof {
                            let e = done + row_entries(key, items.take(j + 1));
                            assert(e =~= (done + row_entries(key, items.take(j as int))).push((key, t)));
                            assert forall|i: int| 0 <= i < out@.len() implies f.ensures((&e[i].0, &e[i].1), #[trigger] out@[i]) by {
                                if i < before.len() {
                                    assert(out@[i] == before[i]);
                                }
                            }
                        }
                    },
                    None => {
                        proof {
                            assert(items[j as int] == x);
                            assert(all[k as int].1[j as int] is None);
                            assert(!all_decoded(all));
                        }
                        return None;
                    },
                }
            }
            proof {
                assert(items.take(items.len() as int) =~= items);
                assert(flatten_rows(all.take(k + 1)) == done + row_entries(key, items));
                assert forall|a: int, b: int| 0 <= a < all.take(k + 1).len() && 0 <= b < all.take(k + 1)[a].1.len() implies (
                #[trigger] all.take(k + 1)[a].1[b]) is Some by {
                    if a < k {
                        assert(all.take(k + 1)[a] == all.take(k as int)[a]);
                    }
                }
            }
        }
        proof {
            assert(all.take(all.len() as int) =~= all);
        }
        Some(out)
    }

    /// Folds `f` over every (file, item) pair of the rows read from the main
    /// table, in order, from `init`; `None` when an item could not be decoded.
    pub fn fold<B, F: Fn(B, &String, &T) -> B>(rows: Vec<(String, Vec<Option<T>>)>, init: B, f: F) -> (r: Option<B>)
        requires
            forall|b: B, k: &String, t: &T| f.requires((b, k, t)),
        ensures
            r is None <==> !all_decoded(rows_view(rows@)),
            r matches Some(b) ==> exists|accs: Seq<B>|
                {
                    &&& fold_steps(f, flatten_rows(rows_view(rows@)), accs)
                    &&& accs[0] == init
                    &&& accs.last() == b
                },
    {
        let ghost all = rows_view(rows@);
        let mut acc = init;
        let ghost mut accs: Seq<B> = seq![init];
        for row in it: rows
            invariant
                all == rows_view(it.seq()),
                all == rows_view(rows@),
                forall|b: B, k: &String, t: &T| f.requires((b, k, t)),
                all_decoded(all.take(it.index() as int)),
                fold_steps(f, flatten_rows(all.take(it.index() as int)), accs),
                accs[0] == init,
                accs.last() == acc,
        {
            let ghost k = it.index();
            let ghost done = flatten_rows(all.take(k as int));
            let ghost items = row.1@;
            proof {
                assert(all.take(k + 1).drop_last() =~= all.take(k as int));
                assert(all.take(k + 1).last() == (row.0, row.1@));
                assert(all.take(k + 1)[k as int] == all[k as int]);
            }
            let key = row.0;
            for x in jt: row.1
                invariant
                    jt.seq() == items,
                    0 <= k < all.len(),
                    all[k as int].1 == items,
                    all == rows_view(rows@),
                    forall|b: B, k: &String, t: &T| f.requires((b, k, t)),
                    forall|j: int| 0 <= j < jt.index() ==> (#[trigger] items[j]) is Some,
                    fold_steps(f, done + row_entries(key, items.take(jt.index() as int)), accs),
                    accs[0] == init,
                    accs.last() == acc,
            {
                let ghost j = jt.index();
                proof {
                    assert(items.take(j + 1).drop_last() =~= items.take(j as int));
                    assert(items.take(j + 1).last() == x);
                }
                match x {
                    Some(t) => {
                        let ghost before = accs;
                        acc = f(acc, &key, &t);
                        proof {
                            accs = accs.push(acc);
                            let e = done + row_entries(key, items.take(j + 1));
                            assert(e =~= (done + row_entries(key, items.take(j as int))).push((key, t)));
                            assert forall|i: int| 0 <= i < e.len() implies f.ensures(
                                (accs[i], &e[i].0, &e[i].1),
                                #[trigger] accs[i + 1],
                            ) by {
                                if i + 1 < before.len() {
                                    assert(accs[i] == before[i]);
                                    assert(accs[i + 1] == before[i + 1]);
                                }
                            }
                        }
                    },
                    None => {
                        proof {
                            assert(items[j as int] == x);
                            assert(all[k as int].1[j as int] is None);
                            assert(!all_decoded(all));
                        }
                        return None;
                    },
                }
            }
            proof {
                assert(items.take(items.len() as int) =~= items);
                assert(flatten_rows(all.take(k + 1)) == done + row_entries(key, items));
                assert forall|a: int, b: int| 0 <= a < all.take(k + 1).len() && 0 <= b < all.take(k + 1)[a].1.len() implies (
                #[trigger] all.take(k + 1)[a].1[b]) is Some by {
                    if a < k {
                        assert(all.take(k + 1)[a] == all.take(k as int)[a]);
                    }
                }
            }
        }
        proof {
            assert(all.take(all.len() as int) =~= all);
        }
        Some(acc)
    }

    /// The items of the rows read from the main table, in the order `db_iter`
    /// gives them.
    pub fn values(rows: Vec<(String, Vec<Option<T>>)>) -> (r: Vec<T>)
        ensures
            r@ == flatten_rows(rows_view(rows@)).map_values(|e: (String, T)| e.1),
    {
        let entries = Self::db_iter(rows);
        let ghost all = entries@;
        let mut out: Vec<T> = Vec::new();
        for e in it: entries
            invariant
                it.seq() == all,
                out@ == all.take(it.index() as int).map_values(|e: (String, T)| e.1),
        {
            let ghost k = it.index();
            proof {
                assert(all.take(k + 1) =~= all.take(k as int).push(e));
            }
            out.push(e.1);
            proof {
                assert(out@ =~= all.take(k + 1).map_values(|e: (String, T)| e.1));
            }
        }
        proof {
            assert(all.take(all.len() as int) =~= all);
        }
        out
    }

    /// The snapshot of every (file, item) pair.
    pub fn iter(&self) -> (r: &Vec<(String, T)>)
        ensures
            r == &self.cache,
    {
        &self.cache
    }

    /// Begins a sync: the files of the scan `scanned` whose (file, state) pair
    /// is not among the stored states `stored` become updates carrying
    /// nothing yet, and the stored files the scan lacks become deletes.
    pub fn new_msync(self, scanned: &Vec<(String, FileState)>, stored: &Vec<(String, FileState)>) -> (r: Sync<(), T>)
        ensures
            r.db == self,
            is_diff(scanned@, stored@, pairs_of(r.updates@), r.deletes@),
            pairs_of(r.updates@) == unstored(scanned@, stored@),
            r.deletes@ == gone(stored@, scanned@),
            distinct_names(r.deletes@),
            r.files@ == pairs_of(r.updates@),
    {
        let (pairs, deletes) = diff_states(scanned, stored);
        let ghost all = pairs@;
        let mut updates: Vec<FileItemUpdate<()>> = Vec::new();
        let mut files: Vec<(String, FileState)> = Vec::new();
        for p in it: pairs
            invariant
                it.seq() == all,
                pairs_of(updates@) =~= all.take(it.index() as int),
                files@ == all.take(it.index() as int),
        {
            let ghost k = it.index();
            files.push((p.0.clone(), p.1));
            updates.push(FileItemUpdate { key: p.0, state: p.1, sync_item: () });
            proof {
                assert(all.take(k + 1) =~= all.take(k as int).push(p));
            }
        }
        proof {
            assert(all.take(all.len() as int) =~= all);
        }
        Sync { db: self, updates, deletes, files }
    }
}

/// The snapshot of a store built from a read of the main table holds the same
/// (file, item) pairs, counted with multiplicity, as a fresh read of the same
/// table does.
pub proof fn lemma_cache_matches_disk<T>(
    rows: Seq<(String, Seq<Option<T>>)>,
    db: FileDB<T>,
    read: Seq<(String, T)>,
)
    requires
        db.cache@ == flatten_rows(rows),
        read == flatten_rows(rows),
    ensures
        db.cache@.to_multiset() == read.to_multiset(),
{
}

} // verus!
