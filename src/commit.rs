use vstd::prelude::*;

use itertools::Itertools;

use crate::diff::{has_pair, is_diff, lemma_unchanged};
use crate::store::pairs_of;
use crate::state::FileState;
use crate::store::FileDB;
use crate::sync::{expand_all, expansion, items_for, Sync};
use crate::update::FileItemUpdate;

verus! {

/// A group of updates: the file, its state, and its new items.
pub type FileGroup<T> = (String, FileState, Vec<T>);

/// `groups` are the updates `us` grouped by file and state: one group for each
/// (file, state) pair that occurs, holding the items carried for it in order.
pub open spec fn is_grouping<T>(us: Seq<FileItemUpdate<T>>, groups: Seq<FileGroup<T>>) -> bool {
    &&& forall|i: int|
        0 <= i < groups.len() ==> #[trigger] groups[i].2@ == items_for(us, groups[i].0@, groups[i].1)
    &&& forall|i: int, j: int|
        0 <= i < j < groups.len() ==> !(#[trigger] groups[i].0@ == #[trigger] groups[j].0@ && groups[i].1
            == groups[j].1)
    &&& forall|i: int|
        0 <= i < us.len() ==> exists|j: int|
            0 <= j < groups.len() && groups[j].0@ == (#[trigger] us[i]).key@ && groups[j].1 == us[i].state
}

/// `groups` has a group for every (file, state) pair of `files`.
pub open spec fn covers<T>(files: Seq<(String, FileState)>, groups: Seq<FileGroup<T>>) -> bool {
    forall|i: int|
        0 <= i < files.len() ==> exists|j: int|
            0 <= j < groups.len() && groups[j].0@ == (#[trigger] files[i]).0@ && groups[j].1 == files[i].1
}

/// `groups` holds the group of `k` in state `s`.
pub open spec fn has_group<T>(groups: Seq<FileGroup<T>>, k: Seq<char>, s: FileState) -> bool {
    exists|j: int| 0 <= j < groups.len() && groups[j].0@ == k && groups[j].1 == s
}

/// Each of `groups` is for the (file, state) pair of an update of `us` or of
/// one of `files`.
pub open spec fn groups_from<T>(us: Seq<FileItemUpdate<T>>, files: Seq<(String, FileState)>, groups: Seq<FileGroup<T>>) -> bool {
    forall|g: int|
        0 <= g < groups.len() ==> (exists|i: int|
            0 <= i < us.len() && (#[trigger] us[i]).key@ == groups[g].0@ && us[i].state == groups[g].1)
            || has_pair(files, (#[trigger] groups[g]).0@, groups[g].1)
}

fn find_group<T>(groups: &Vec<FileGroup<T>>, k: &String, s: FileState) -> (r: bool)
    ensures
        r == has_group(groups@, k@, s),
{
    for j in 0..groups.len()
        invariant
            forall|a: int| 0 <= a < j ==> !(groups@[a].0@ == k@ && groups@[a].1 == s),
    {
        if groups[j].0 == *k && groups[j].1.0 == s.0 {
            return true;
        }
    }
    false
}

/// Relies on itertools::Itertools::into_group_map_by: each value is pushed, in
/// the order of the input, onto the vector of its key in a `HashMap`, so each
/// key occurs once and its vector keeps the input order.
#[verifier::external_body]
fn group_by_file<T>(us: Vec<FileItemUpdate<T>>) -> (r: Vec<FileGroup<T>>)
    ensures
        is_grouping(us@, r@),
        forall|i: int| 0 <= i < r.len() ==> (#[trigger] r[i]).2@.len() > 0,
{
    us.into_iter()
        .into_group_map_by(|u| (u.key.clone(), u.state.0))
        .into_iter()
        .map(|((key, state), group)| (key, FileState(state), group.into_iter().map(|u| u.sync_item).collect()))
        .collect()
}

/// What a sync hands to the tables: for each (file, state) group its new
/// items, and the files to remove.
pub struct Commit<T> {
    pub db: FileDB<T>,
    pub updates: Vec<FileGroup<T>>,
    pub deletes: Vec<String>,
}

impl<T> Sync<T, T> {
    /// Groups the updates by file and state into the writes of a commit. A
    /// file of the session whose values expanded to nothing gets a group with
    /// no items.
    pub fn run(self) -> (r: Commit<T>)
        ensures
            r.db == self.db,
            r.deletes == self.deletes,
            is_grouping(self.updates@, r.updates@),
            covers(self.files@, r.updates@),
            groups_from(self.updates@, self.files@, r.updates@),
    {
        let Sync { db, updates, deletes, files } = self;
        let ghost us = updates@;
        let mut groups = group_by_file(updates);
        proof {
            assert forall|g: int| 0 <= g < groups@.len() implies (exists|i: int|
                0 <= i < us.len() && (#[trigger] us[i]).key@ == groups@[g].0@ && us[i].state == groups@[g].1)
                || has_pair(files@, (#[trigger] groups@[g]).0@, groups@[g].1) by {
                assert(groups@[g].2@.len() > 0);
                lemma_items_for_nonempty(us, groups@[g].0@, groups@[g].1);
            }
        }
        for i in 0..files.len()
            invariant
                is_grouping(us, groups@),
                groups_from(us, files@, groups@),
                covers(files@.take(i as int), groups@),
        {
            let ghost before = groups@;
            let k = &files[i].0;
            let s = files[i].1;
            if !find_group(&groups, k, s) {
                proof {
                    if items_for(us, k@, s).len() > 0 {
                        lemma_items_for_nonempty(us, k@, s);
                        let a = choose|a: int| 0 <= a < us.len() && (#[trigger] us[a]).key@ == k@ && us[a].state == s;
                        assert(exists|j: int| 0 <= j < before.len() && before[j].0@ == us[a].key@ && before[j].1 == us[a].state);
                    }
                    assert(items_for(us, k@, s) =~= Seq::<T>::empty());
                }
                groups.push((k.clone(), s, Vec::new()));
                proof {
                    let n = before.len() as int;
                    assert(groups@[n].2@ =~= Seq::<T>::empty());
                    assert forall|a: int| 0 <= a < groups@.len() implies #[trigger] groups@[a].2@ == items_for(us, groups@[a].0@, groups@[a].1) by {
                        if a < n {
                            assert(groups@[a] == before[a]);
                        }
                    }
                    assert forall|a: int, b: int| 0 <= a < b < groups@.len() implies !(#[trigger] groups@[a].0@ == #[trigger] groups@[b].0@
                        && groups@[a].1 == groups@[b].1) by {
                        assert(groups@[a] == before[a]);
                        if b < n {
                            assert(groups@[b] == before[b]);
                        }
                    }
                    assert forall|a: int| 0 <= a < us.len() implies exists|j: int|
                        0 <= j < groups@.len() && groups@[j].0@ == (#[trigger] us[a]).key@ && groups@[j].1 == us[a].state by {
                        let j = choose|j: int| 0 <= j < before.len() && before[j].0@ == us[a].key@ && before[j].1 == us[a].state;
                        assert(groups@[j] == before[j]);
                    }
                    assert forall|g: int| 0 <= g < groups@.len() implies (exists|x: int|
                        0 <= x < us.len() && (#[trigger] us[x]).key@ == groups@[g].0@ && us[x].state == groups@[g].1)
                        || has_pair(files@, (#[trigger] groups@[g]).0@, groups@[g].1) by {
                        if g < n {
                            assert(groups@[g] == before[g]);
                        } else {
                            assert(files@[i as int].0@ == groups@[g].0@);
                        }
                    }
                }
            }
            proof {
                assert(files@.take(i + 1) =~= files@.take(i as int).push(files@[i as int]));
                assert forall|a: int| 0 <= a < files@.take(i + 1).len() implies exists|j: int|
                    0 <= j < groups@.len() && groups@[j].0@ == (#[trigger] files@.take(i + 1)[a]).0@ && groups@[j].1
                        == files@.take(i + 1)[a].1 by {
                    if a < i {
                        assert(files@.take(i + 1)[a] == files@.take(i as int)[a]);
                        let j = choose|j: int| 0 <= j < before.len() && before[j].0@ == (#[trigger] files@.take(i as int)[a]).0@
                            && before[j].1 == files@.take(i as int)[a].1;
                        assert(groups@[j] == before[j]);
                    } else if groups@.len() > before.len() {
                        assert(groups@[before.len() as int].0@ == k@);
                    } else {
                        let j = choose|j: int| 0 <= j < groups@.len() && groups@[j].0@ == k@ && groups@[j].1 == s;
                    }
                }
            }
        }
        proof {
            assert(files@.take(files@.len() as int) =~= files@);
        }
        Commit { db, updates: groups, deletes }
    }
}

/// The main table after the puts of `groups`, in order.
pub open spec fn put_items<T>(main: Map<Seq<char>, Seq<T>>, groups: Seq<FileGroup<T>>) -> Map<Seq<char>, Seq<T>>
    decreases groups.len(),
{
    if groups.len() == 0 {
        main
    } else {
        put_items(main, groups.drop_last()).insert(groups.last().0@, groups.last().2@)
    }
}

/// The state table after the puts of `groups`, in order.
pub open spec fn put_states<T>(state: Map<Seq<char>, FileState>, groups: Seq<FileGroup<T>>) -> Map<Seq<char>, FileState>
    decreases groups.len(),
{
    if groups.len() == 0 {
        state
    } else {
        put_states(state, groups.drop_last()).insert(groups.last().0@, groups.last().1)
    }
}

/// A table after the removal of the files `deletes`.
pub open spec fn remove_keys<V>(table: Map<Seq<char>, V>, deletes: Seq<String>) -> Map<Seq<char>, V>
    decreases deletes.len(),
{
    if deletes.len() == 0 {
        table
    } else {
        remove_keys(table, deletes.drop_last()).remove(deletes.last()@)
    }
}

/// The main table after `c` is committed onto `main`.
pub open spec fn committed_main<T>(main: Map<Seq<char>, Seq<T>>, c: Commit<T>) -> Map<Seq<char>, Seq<T>> {
    remove_keys(put_items(main, c.updates@), c.deletes@)
}

/// The state table after `c` is committed onto `state`.
pub open spec fn committed_state<T>(state: Map<Seq<char>, FileState>, c: Commit<T>) -> Map<Seq<char>, FileState> {
    remove_keys(put_states(state, c.updates@), c.deletes@)
}

proof fn lemma_put_same_keys<T>(main: Map<Seq<char>, Seq<T>>, state: Map<Seq<char>, FileState>, groups: Seq<FileGroup<T>>)
    requires
        main.dom() == state.dom(),
    ensures
        put_items(main, groups).dom() == put_states(state, groups).dom(),
    decreases groups.len(),
{
    if groups.len() > 0 {
        lemma_put_same_keys(main, state, groups.drop_last());
        assert(put_items(main, groups).dom() =~= put_states(state, groups).dom());
    }
}

proof fn lemma_remove_same_keys<T>(main: Map<Seq<char>, Seq<T>>, state: Map<Seq<char>, FileState>, deletes: Seq<String>)
    requires
        main.dom() == state.dom(),
    ensures
        remove_keys(main, deletes).dom() == remove_keys(state, deletes).dom(),
    decreases deletes.len(),
{
    if deletes.len() > 0 {
        lemma_remove_same_keys(main, state, deletes.drop_last());
        assert(remove_keys(main, deletes).dom() =~= remove_keys(state, deletes).dom());
    }
}

/// A commit keeps the files of the main table and of the state table the same.
pub proof fn lemma_commit_keeps_tables_aligned<T>(
    main: Map<Seq<char>, Seq<T>>,
    state: Map<Seq<char>, FileState>,
    c: Commit<T>,
)
    requires
        main.dom() == state.dom(),
    ensures
        committed_main(main, c).dom() == committed_state(state, c).dom(),
{
    lemma_put_same_keys(main, state, c.updates@);
    lemma_remove_same_keys(put_items(main, c.updates@), put_states(state, c.updates@), c.deletes@);
}

proof fn lemma_put_last_wins<T>(
    main: Map<Seq<char>, Seq<T>>,
    state: Map<Seq<char>, FileState>,
    groups: Seq<FileGroup<T>>,
    i: int,
)
    requires
        0 <= i < groups.len(),
        forall|j: int| i < j < groups.len() ==> groups[j].0@ != groups[i].0@,
    ensures
        put_items(main, groups).contains_key(groups[i].0@),
        put_items(main, groups)[groups[i].0@] == groups[i].2@,
        put_states(state, groups)[groups[i].0@] == groups[i].1,
    decreases groups.len(),
{
    if i < groups.len() - 1 {
        lemma_put_last_wins(main, state, groups.drop_last(), i);
    }
}

proof fn lemma_remove_keeps<V>(table: Map<Seq<char>, V>, deletes: Seq<String>, k: Seq<char>)
    requires
        forall|j: int| 0 <= j < deletes.len() ==> deletes[j]@ != k,
    ensures
        remove_keys(table, deletes).contains_key(k) == table.contains_key(k),
        table.contains_key(k) ==> remove_keys(table, deletes)[k] == table[k],
    decreases deletes.len(),
{
    if deletes.len() > 0 {
        lemma_remove_keeps(table, deletes.drop_last(), k);
    }
}

proof fn lemma_remove_drops<V>(table: Map<Seq<char>, V>, deletes: Seq<String>, j: int)
    requires
        0 <= j < deletes.len(),
    ensures
        !remove_keys(table, deletes).contains_key(deletes[j]@),
    decreases deletes.len(),
{
    if j < deletes.len() - 1 {
        lemma_remove_drops(table, deletes.drop_last(), j);
    }
}

/// After a commit in which each file has one group, every updated file that
/// is not deleted holds its group's items in the main table and its group's
/// state in the state table; no deleted file remains in either table.
pub proof fn lemma_commit_stores_groups<T>(
    main: Map<Seq<char>, Seq<T>>,
    state: Map<Seq<char>, FileState>,
    c: Commit<T>,
)
    requires
        forall|i: int, j: int|
            0 <= i < j < c.updates.len() ==> #[trigger] c.updates[i].0@ != #[trigger] c.updates[j].0@,
    ensures
        forall|i: int|
            0 <= i < c.updates.len() && (forall|j: int| 0 <= j < c.deletes.len() ==> c.deletes[j]@ != c.updates[i].0@)
                ==> {
                &&& committed_main(main, c).contains_key(#[trigger] c.updates[i].0@)
                &&& committed_main(main, c)[c.updates[i].0@] == c.updates[i].2@
                &&& committed_state(state, c).contains_key(c.updates[i].0@)
                &&& committed_state(state, c)[c.updates[i].0@] == c.updates[i].1
            },
        forall|j: int|
            0 <= j < c.deletes.len() ==> !committed_main(main, c).contains_key(#[trigger] c.deletes[j]@)
                && !committed_state(state, c).contains_key(c.deletes[j]@),
{
    assert forall|i: int|
        0 <= i < c.updates.len() && (forall|j: int| 0 <= j < c.deletes.len() ==> c.deletes[j]@ != c.updates[i].0@)
            implies {
            &&& committed_main(main, c).contains_key(#[trigger] c.updates[i].0@)
            &&& committed_main(main, c)[c.updates[i].0@] == c.updates[i].2@
            &&& committed_state(state, c).contains_key(c.updates[i].0@)
            &&& committed_state(state, c)[c.updates[i].0@] == c.updates[i].1
        } by {
        lemma_put_last_wins(main, state, c.updates@, i);
        lemma_put_state_has(state, c.updates@, i);
        lemma_remove_keeps(put_items(main, c.updates@), c.deletes@, c.updates[i].0@);
        lemma_remove_keeps(put_states(state, c.updates@), c.deletes@, c.updates[i].0@);
    }
    assert forall|j: int| 0 <= j < c.deletes.len() implies !committed_main(main, c).contains_key(
        #[trigger] c.deletes[j]@,
    ) && !committed_state(state, c).contains_key(c.deletes[j]@) by {
        lemma_remove_drops(put_items(main, c.updates@), c.deletes@, j);
        lemma_remove_drops(put_states(state, c.updates@), c.deletes@, j);
    }
}

proof fn lemma_items_for_concat<T>(a: Seq<FileItemUpdate<T>>, b: Seq<FileItemUpdate<T>>, k: Seq<char>, s: FileState)
    ensures
        items_for(a + b, k, s) == items_for(a, k, s) + items_for(b, k, s),
    decreases b.len(),
{
    if b.len() == 0 {
        assert(a + b =~= a);
        assert(items_for(a, k, s) + items_for(b, k, s) =~= items_for(a, k, s));
    } else {
        assert((a + b).drop_last() =~= a + b.drop_last());
        lemma_items_for_concat(a, b.drop_last(), k, s);
        assert((a + b).last() == b.last());
        if b.last().key@ == k && b.last().state == s {
            assert(items_for(a + b, k, s) =~= items_for(a, k, s) + items_for(b, k, s));
        }
    }
}

proof fn lemma_items_for_expansion<T>(key: String, state: FileState, items: Seq<T>, k: Seq<char>, s: FileState)
    ensures
        items_for(expansion(key, state, items), k, s) == (if key@ == k && state == s {
            items
        } else {
            Seq::empty()
        }),
    decreases items.len(),
{
    if items.len() > 0 {
        assert(expansion(key, state, items).drop_last() =~= expansion(key, state, items.drop_last()));
        lemma_items_for_expansion(key, state, items.drop_last(), k, s);
        if key@ == k && state == s {
            assert(items.drop_last().push(items.last()) =~= items);
        }
    } else {
        assert(expansion(key, state, items) =~= Seq::empty());
    }
}

proof fn lemma_expand_one<I, T>(us: Seq<FileItemUpdate<I>>, outs: Seq<Seq<T>>, i: int)
    requires
        0 <= i < us.len(),
        outs.len() == us.len(),
        forall|j: int|
            0 <= j < us.len() && j != i ==> !(#[trigger] us[j].key@ == us[i].key@ && us[j].state == us[i].state),
    ensures
        items_for(expand_all(us, outs), us[i].key@, us[i].state) == outs[i],
    decreases us.len(),
{
    let k = us[i].key@;
    let s = us[i].state;
    let n = us.len() - 1;
    lemma_items_for_concat(expand_all(us.drop_last(), outs.drop_last()), expansion(us.last().key, us.last().state, outs.last()), k, s);
    lemma_items_for_expansion(us.last().key, us.last().state, outs.last(), k, s);
    if i < n {
        assert(us.drop_last()[i] == us[i]);
        assert forall|j: int|
            0 <= j < us.drop_last().len() && j != i implies !(#[trigger] us.drop_last()[j].key@ == us.drop_last()[i].key@
                && us.drop_last()[j].state == us.drop_last()[i].state) by {
            assert(us.drop_last()[j] == us[j]);
        }
        lemma_expand_one(us.drop_last(), outs.drop_last(), i);
        assert(us[n] == us.last());
        assert(items_for(expand_all(us, outs), k, s) =~= outs[i]);
    } else {
        lemma_expand_none(us.drop_last(), outs.drop_last(), k, s);
        assert(items_for(expand_all(us, outs), k, s) =~= outs[i]);
    }
}

proof fn lemma_expand_none<I, T>(us: Seq<FileItemUpdate<I>>, outs: Seq<Seq<T>>, k: Seq<char>, s: FileState)
    requires
        forall|j: int| 0 <= j < us.len() ==> !(#[trigger] us[j].key@ == k && us[j].state == s),
    ensures
        items_for(expand_all(us, outs), k, s) == Seq::<T>::empty(),
    decreases us.len(),
{
    if us.len() > 0 {
        assert(us[us.len() - 1] == us.last());
        lemma_items_for_concat(expand_all(us.drop_last(), outs.drop_last()), expansion(us.last().key, us.last().state, outs.last()), k, s);
        lemma_items_for_expansion(us.last().key, us.last().state, outs.last(), k, s);
        assert forall|j: int| 0 <= j < us.drop_last().len() implies !(#[trigger] us.drop_last()[j].key@ == k
            && us.drop_last()[j].state == s) by {
            assert(us.drop_last()[j] == us[j]);
        }
        lemma_expand_none(us.drop_last(), outs.drop_last(), k, s);
        assert(items_for(expand_all(us, outs), k, s) =~= Seq::<T>::empty());
    }
}

/// Expanding the update of a file into values and then grouping by file keeps
/// those values, in order, as the file's group: when update `i` is the only
/// one for its (file, state) and expands to `outs[i]`, its group holds
/// exactly `outs[i]`.
pub proof fn lemma_flat_map_keeps_order<I, T>(
    us: Seq<FileItemUpdate<I>>,
    outs: Seq<Seq<T>>,
    groups: Seq<FileGroup<T>>,
    i: int,
    g: int,
)
    requires
        0 <= i < us.len(),
        outs.len() == us.len(),
        forall|j: int|
            0 <= j < us.len() && j != i ==> !(#[trigger] us[j].key@ == us[i].key@ && us[j].state == us[i].state),
        is_grouping(expand_all(us, outs), groups),
        0 <= g < groups.len(),
        groups[g].0@ == us[i].key@,
        groups[g].1 == us[i].state,
    ensures
        groups[g].2@ == outs[i],
{
    lemma_expand_one(us, outs, i);
}

proof fn lemma_items_for_nonempty<T>(us: Seq<FileItemUpdate<T>>, k: Seq<char>, s: FileState)
    requires
        items_for(us, k, s).len() > 0,
    ensures
        exists|i: int| 0 <= i < us.len() && (#[trigger] us[i]).key@ == k && us[i].state == s,
    decreases us.len(),
{
    if us.last().key@ == k && us.last().state == s {
        assert(us[us.len() - 1] == us.last());
    } else {
        lemma_items_for_nonempty(us.drop_last(), k, s);
        let i = choose|i: int| 0 <= i < us.drop_last().len() && (#[trigger] us.drop_last()[i]).key@ == k
            && us.drop_last()[i].state == s;
        assert(us[i] == us.drop_last()[i]);
    }
}

/// Every group of a grouping that holds items comes from an update of its
/// file in its state: the state stored with items is one an update carried.
pub proof fn lemma_group_from_update<T>(us: Seq<FileItemUpdate<T>>, groups: Seq<FileGroup<T>>, g: int)
    requires
        is_grouping(us, groups),
        0 <= g < groups.len(),
        groups[g].2@.len() > 0,
    ensures
        exists|i: int| 0 <= i < us.len() && (#[trigger] us[i]).key@ == groups[g].0@ && us[i].state == groups[g].1,
{
    assert(groups[g].2@ == items_for(us, groups[g].0@, groups[g].1));
    lemma_items_for_nonempty(us, groups[g].0@, groups[g].1);
}

proof fn lemma_expand_all_pairs<I, T>(us: Seq<FileItemUpdate<I>>, outs: Seq<Seq<T>>, x: int)
    requires
        0 <= x < expand_all(us, outs).len(),
    ensures
        exists|j: int|
            0 <= j < us.len() && (#[trigger] us[j]).key == expand_all(us, outs)[x].key && us[j].state == expand_all(
                us,
                outs,
            )[x].state,
    decreases us.len(),
{
    let pre = expand_all(us.drop_last(), outs.drop_last());
    let n = us.len() - 1;
    if x < pre.len() {
        lemma_expand_all_pairs(us.drop_last(), outs.drop_last(), x);
        let j = choose|j: int|
            0 <= j < us.drop_last().len() && (#[trigger] us.drop_last()[j]).key == pre[x].key && us.drop_last()[j].state
                == pre[x].state;
        assert(us[j] == us.drop_last()[j]);
    } else {
        assert(us[n] == us.last());
    }
}

/// The values that `flat_map` gives for the only update of a file reach the
/// main table in that order: for a session whose files are its updates' pairs,
/// one update per file, after `flat_map` gives `outs` and `run` groups the
/// result, committing puts exactly `outs[i]` under the file of update `i`,
/// unless that file is deleted.
pub proof fn lemma_flat_map_order_reaches_table<I, T>(
    us: Seq<FileItemUpdate<I>>,
    files: Seq<(String, FileState)>,
    outs: Seq<Seq<T>>,
    main: Map<Seq<char>, Seq<T>>,
    c: Commit<T>,
    i: int,
)
    requires
        0 <= i < us.len(),
        outs.len() == us.len(),
        forall|a: int, b: int| 0 <= a < b < us.len() ==> (#[trigger] us[a]).key@ != (#[trigger] us[b]).key@,
        files == pairs_of(us),
        is_grouping(expand_all(us, outs), c.updates@),
        covers(files, c.updates@),
        groups_from(expand_all(us, outs), files, c.updates@),
        forall|j: int| 0 <= j < c.deletes.len() ==> c.deletes[j]@ != us[i].key@,
    ensures
        committed_main(main, c).contains_key(us[i].key@),
        committed_main(main, c)[us[i].key@] == outs[i],
{
    let k = us[i].key@;
    let s = us[i].state;
    let groups = c.updates@;
    assert(files[i] == (us[i].key, us[i].state));
    let g = choose|g: int| 0 <= g < groups.len() && groups[g].0@ == (#[trigger] files[i]).0@ && groups[g].1 == files[i].1;
    assert forall|j: int| 0 <= j < us.len() && j != i implies !(#[trigger] us[j].key@ == us[i].key@ && us[j].state == us[i].state) by {
        if j < i {
            assert(us[j].key@ != us[i].key@);
        } else {
            assert(us[i].key@ != us[j].key@);
        }
    }
    lemma_expand_one(us, outs, i);
    assert(groups[g].2@ == outs[i]);
    assert forall|h: int| 0 <= h < groups.len() && h != g implies groups[h].0@ != k by {
        if groups[h].0@ == k {
            let e = expand_all(us, outs);
            let st = groups[h].1;
            if exists|x: int| 0 <= x < e.len() && (#[trigger] e[x]).key@ == groups[h].0@ && e[x].state == groups[h].1 {
                let x = choose|x: int| 0 <= x < e.len() && (#[trigger] e[x]).key@ == groups[h].0@ && e[x].state == groups[h].1;
                lemma_expand_all_pairs(us, outs, x);
                let j = choose|j: int| 0 <= j < us.len() && (#[trigger] us[j]).key == e[x].key && us[j].state == e[x].state;
                if j != i {
                    if j < i {
                        assert(us[j].key@ != us[i].key@);
                    } else {
                        assert(us[i].key@ != us[j].key@);
                    }
                }
            } else {
                assert(has_pair(files, (#[trigger] groups[h]).0@, groups[h].1));
                let j = choose|j: int| 0 <= j < files.len() && files[j].0@ == groups[h].0@ && files[j].1 == groups[h].1;
                assert(files[j] == (us[j].key, us[j].state));
                if j != i {
                    if j < i {
                        assert(us[j].key@ != us[i].key@);
                    } else {
                        assert(us[i].key@ != us[j].key@);
                    }
                }
            }
            assert(st == s);
            if h < g {
                assert(!(groups[h].0@ == groups[g].0@ && groups[h].1 == groups[g].1));
            } else {
                assert(!(groups[g].0@ == groups[h].0@ && groups[g].1 == groups[h].1));
            }
        }
    }
    lemma_put_last_wins(main, Map::<Seq<char>, FileState>::empty(), groups, g);
    lemma_remove_keeps(put_items(main, groups), c.deletes@, k);
}

/// Syncing again when no file changed leaves both tables as they were: the
/// scan equals the stored pairs, so the session and its commit are empty.
pub proof fn lemma_resync_unchanged<T>(
    new: Seq<(String, FileState)>,
    old: Seq<(String, FileState)>,
    us: Seq<FileItemUpdate<()>>,
    files: Seq<(String, FileState)>,
    later: Seq<FileItemUpdate<T>>,
    c: Commit<T>,
    main: Map<Seq<char>, Seq<T>>,
    state: Map<Seq<char>, FileState>,
)
    requires
        is_diff(new, old, pairs_of(us), c.deletes@),
        files == pairs_of(us),
        forall|k: Seq<char>, s: FileState| #[trigger] has_pair(new, k, s) <==> has_pair(old, k, s),
        later.len() == us.len(),
        is_grouping(later, c.updates@),
        groups_from(later, files, c.updates@),
    ensures
        committed_main(main, c) == main,
        committed_state(state, c) == state,
{
    lemma_unchanged(new, old, pairs_of(us), c.deletes@);
    if c.updates.len() > 0 {
        assert(has_pair(files, (c.updates@[0]).0@, c.updates@[0].1) || exists|i: int|
            0 <= i < later.len() && (#[trigger] later[i]).key@ == c.updates@[0].0@ && later[i].state == c.updates@[0].1);
    }
    assert(c.updates@.len() == 0);
    assert(put_items(main, c.updates@) == main);
    assert(put_states(state, c.updates@) == state);
}

proof fn lemma_put_state_has<T>(state: Map<Seq<char>, FileState>, groups: Seq<FileGroup<T>>, i: int)
    requires
        0 <= i < groups.len(),
    ensures
        put_states(state, groups).contains_key(groups[i].0@),
    decreases groups.len(),
{
    if i < groups.len() - 1 {
        lemma_put_state_has(state, groups.drop_last(), i);
    }
}

} // verus!
