use vstd::prelude::*;

use crate::state::FileState;

verus! {

/// `v` holds the file `k` in state `s`.
pub open spec fn has_pair(v: Seq<(String, FileState)>, k: Seq<char>, s: FileState) -> bool {
    exists|i: int| 0 <= i < v.len() && v[i].0@ == k && v[i].1 == s
}

/// `v` holds the file `k`, in any state.
pub open spec fn has_key(v: Seq<(String, FileState)>, k: Seq<char>) -> bool {
    exists|i: int| 0 <= i < v.len() && v[i].0@ == k
}

/// `v` lists the file `k`.
pub open spec fn lists_key(v: Seq<String>, k: Seq<char>) -> bool {
    exists|i: int| 0 <= i < v.len() && v[i]@ == k
}

/// The (file, state) pairs of `new` that `old` does not hold, in the order of `new`.
pub open spec fn unstored(new: Seq<(String, FileState)>, old: Seq<(String, FileState)>) -> Seq<(String, FileState)>
    decreases new.len(),
{
    if new.len() == 0 {
        Seq::empty()
    } else if has_pair(old, new.last().0@, new.last().1) {
        unstored(new.drop_last(), old)
    } else {
        unstored(new.drop_last(), old).push(new.last())
    }
}

/// The files of `old` that `new` does not hold, each listed once, in the
/// order of their first place in `old`.
pub open spec fn gone(old: Seq<(String, FileState)>, new: Seq<(String, FileState)>) -> Seq<String>
    decreases old.len(),
{
    if old.len() == 0 {
        Seq::empty()
    } else if has_key(new, old.last().0@) || lists_key(gone(old.drop_last(), new), old.last().0@) {
        gone(old.drop_last(), new)
    } else {
        gone(old.drop_last(), new).push(old.last().0)
    }
}

/// No file is listed twice in `v`.
pub open spec fn distinct_names(v: Seq<String>) -> bool {
    forall|i: int, j: int| 0 <= i < j < v.len() ==> (#[trigger] v[i])@ != (#[trigger] v[j])@
}

/// `updates` and `deletes` are the difference between the scan `new` and the
/// stored states `old`: the updates are the (file, state) pairs of the scan
/// that are not stored, the deletes the stored files the scan no longer has.
pub open spec fn is_diff(
    new: Seq<(String, FileState)>,
    old: Seq<(String, FileState)>,
    updates: Seq<(String, FileState)>,
    deletes: Seq<String>,
) -> bool {
    &&& forall|k: Seq<char>, s: FileState|
        #[trigger] has_pair(updates, k, s) <==> has_pair(new, k, s) && !has_pair(old, k, s)
    &&& forall|k: Seq<char>| #[trigger] lists_key(deletes, k) <==> has_key(old, k) && !has_key(new, k)
}

proof fn lemma_has_pair_push(v: Seq<(String, FileState)>, p: (String, FileState), k: Seq<char>, s: FileState)
    ensures
        has_pair(v.push(p), k, s) <==> has_pair(v, k, s) || (p.0@ == k && p.1 == s),
{
    if has_pair(v, k, s) {
        let i = choose|i: int| 0 <= i < v.len() && v[i].0@ == k && v[i].1 == s;
        assert(v.push(p)[i] == v[i]);
    }
    if p.0@ == k && p.1 == s {
        assert(v.push(p)[v.len() as int] == p);
    }
    if has_pair(v.push(p), k, s) {
        let i = choose|i: int| 0 <= i < v.len() + 1 && v.push(p)[i].0@ == k && v.push(p)[i].1 == s;
        if i < v.len() {
            assert(v[i] == v.push(p)[i]);
        }
    }
}

proof fn lemma_has_key_push(v: Seq<(String, FileState)>, p: (String, FileState), k: Seq<char>)
    ensures
        has_key(v.push(p), k) <==> has_key(v, k) || p.0@ == k,
{
    if has_key(v, k) {
        let i = choose|i: int| 0 <= i < v.len() && v[i].0@ == k;
        assert(v.push(p)[i] == v[i]);
    }
    if p.0@ == k {
        assert(v.push(p)[v.len() as int] == p);
    }
    if has_key(v.push(p), k) {
        let i = choose|i: int| 0 <= i < v.len() + 1 && v.push(p)[i].0@ == k;
        if i < v.len() {
            assert(v[i] == v.push(p)[i]);
        }
    }
}

proof fn lemma_lists_key_push(v: Seq<String>, p: String, k: Seq<char>)
    ensures
        lists_key(v.push(p), k) <==> lists_key(v, k) || p@ == k,
{
    if lists_key(v, k) {
        let i = choose|i: int| 0 <= i < v.len() && v[i]@ == k;
        assert(v.push(p)[i] == v[i]);
    }
    if p@ == k {
        assert(v.push(p)[v.len() as int] == p);
    }
    if lists_key(v.push(p), k) {
        let i = choose|i: int| 0 <= i < v.len() + 1 && v.push(p)[i]@ == k;
        if i < v.len() {
            assert(v[i] == v.push(p)[i]);
        }
    }
}

fn contains_pair(v: &Vec<(String, FileState)>, k: &String, s: FileState) -> (r: bool)
    ensures
        r == has_pair(v@, k@, s),
{
    for i in 0..v.len()
        invariant
            !has_pair(v@.take(i as int), k@, s),
    {
        proof {
            assert(v@.take(i + 1) =~= v@.take(i as int).push(v@[i as int]));
            lemma_has_pair_push(v@.take(i as int), v@[i as int], k@, s);
        }
        if v[i].0 == *k && v[i].1.0 == s.0 {
            proof {
                assert(v@.take(v@.len() as int) =~= v@);
                assert(v@[i as int] == v@.take(v@.len() as int)[i as int]);
            }
            return true;
        }
    }
    proof {
        assert(v@.take(v@.len() as int) =~= v@);
    }
    false
}

fn contains_key(v: &Vec<(String, FileState)>, k: &String) -> (r: bool)
    ensures
        r == has_key(v@, k@),
{
    for i in 0..v.len()
        invariant
            !has_key(v@.take(i as int), k@),
    {
        proof {
            assert(v@.take(i + 1) =~= v@.take(i as int).push(v@[i as int]));
            lemma_has_key_push(v@.take(i as int), v@[i as int], k@);
        }
        if v[i].0 == *k {
            proof {
                assert(v@.take(v@.len() as int) =~= v@);
                assert(v@[i as int] == v@.take(v@.len() as int)[i as int]);
            }
            return true;
        }
    }
    proof {
        assert(v@.take(v@.len() as int) =~= v@);
    }
    false
}

fn contains_name(v: &Vec<String>, k: &String) -> (r: bool)
    ensures
        r == lists_key(v@, k@),
{
    for i in 0..v.len()
        invariant
            forall|j: int| 0 <= j < i ==> v@[j]@ != k@,
    {
        if v[i] == *k {
            return true;
        }
    }
    false
}

/// Compares a new scan with the stored states. Returns the updates, the
/// (file, state) pairs of the scan that are not stored, in the order of the
/// scan, and the deletes, the stored files that the scan no longer holds,
/// each listed once.
pub fn diff_states(new: &Vec<(String, FileState)>, old: &Vec<(String, FileState)>) -> (r: (
    Vec<(String, FileState)>,
    Vec<String>,
))
    ensures
        is_diff(new@, old@, r.0@, r.1@),
        r.0@ == unstored(new@, old@),
        r.1@ == gone(old@, new@),
        distinct_names(r.1@),
{
    let mut updates: Vec<(String, FileState)> = Vec::new();
    for i in 0..new.len()
        invariant
            forall|k: Seq<char>, s: FileState|
                #[trigger] has_pair(updates@, k, s) <==> has_pair(new@.take(i as int), k, s) && !has_pair(old@, k, s),
            updates@ == unstored(new@.take(i as int), old@),
    {
        let ghost before = updates@;
        proof {
            assert(new@.take(i + 1) =~= new@.take(i as int).push(new@[i as int]));
            assert(new@.take(i + 1).drop_last() =~= new@.take(i as int));
        }
        if !contains_pair(old, &new[i].0, new[i].1) {
            updates.push((new[i].0.clone(), new[i].1));
        }
        proof {
            assert forall|k: Seq<char>, s: FileState|
                #[trigger] has_pair(updates@, k, s) <==> has_pair(new@.take(i + 1), k, s) && !has_pair(old@, k, s) by {
                lemma_has_pair_push(new@.take(i as int), new@[i as int], k, s);
                if updates@.len() > before.len() {
                    assert(updates@ == before.push(new@[i as int]));
                    lemma_has_pair_push(before, new@[i as int], k, s);
                }
            }
        }
    }
    let mut deletes: Vec<String> = Vec::new();
    for j in 0..old.len()
        invariant
            forall|k: Seq<char>| #[trigger] lists_key(deletes@, k) <==> has_key(old@.take(j as int), k) && !has_key(new@, k),
            deletes@ == gone(old@.take(j as int), new@),
            distinct_names(deletes@),
    {
        let ghost before = deletes@;
        proof {
            assert(old@.take(j + 1) =~= old@.take(j as int).push(old@[j as int]));
            assert(old@.take(j + 1).drop_last() =~= old@.take(j as int));
        }
        if !contains_key(new, &old[j].0) && !contains_name(&deletes, &old[j].0) {
            deletes.push(old[j].0.clone());
            proof {
                assert forall|a: int, b: int| 0 <= a < b < deletes@.len() implies (#[trigger] deletes@[a])@ != (
                #[trigger] deletes@[b])@ by {
                    if b == before.len() {
                        assert(deletes@[a] == before[a]);
                    }
                }
            }
        }
        proof {
            assert forall|k: Seq<char>|
                #[trigger] lists_key(deletes@, k) <==> has_key(old@.take(j + 1), k) && !has_key(new@, k) by {
                lemma_has_key_push(old@.take(j as int), old@[j as int], k);
                if deletes@.len() > before.len() {
                    assert(deletes@ == before.push(old@[j as int].0));
                    lemma_lists_key_push(before, old@[j as int].0, k);
                }
            }
        }
    }
    proof {
        assert(new@.take(new@.len() as int) =~= new@);
        assert(old@.take(old@.len() as int) =~= old@);
    }
    (updates, deletes)
}

/// Against an empty store, every scanned (file, state) pair is an update and
/// nothing is deleted.
pub proof fn lemma_fresh_store(
    new: Seq<(String, FileState)>,
    updates: Seq<(String, FileState)>,
    deletes: Seq<String>,
)
    requires
        is_diff(new, Seq::empty(), updates, deletes),
    ensures
        forall|k: Seq<char>, s: FileState| #[trigger] has_pair(updates, k, s) <==> has_pair(new, k, s),
        deletes.len() == 0,
        unstored(new, Seq::empty()) == new,
{
    lemma_unstored_empty(new);
    assert forall|k: Seq<char>, s: FileState| #[trigger] has_pair(updates, k, s) <==> has_pair(new, k, s) by {
        assert(!has_pair(Seq::<(String, FileState)>::empty(), k, s));
    }
    if deletes.len() > 0 {
        assert(lists_key(deletes, deletes[0]@));
        assert(!has_key(Seq::<(String, FileState)>::empty(), deletes[0]@));
    }
}

proof fn lemma_unstored_empty(new: Seq<(String, FileState)>)
    ensures
        unstored(new, Seq::empty()) == new,
    decreases new.len(),
{
    if new.len() > 0 {
        lemma_unstored_empty(new.drop_last());
        assert(!has_pair(Seq::<(String, FileState)>::empty(), new.last().0@, new.last().1));
        assert(new.drop_last().push(new.last()) =~= new);
    }
}

/// A file renamed from `from` to `to` gives one delete of the old name and one
/// update of the new one.
pub proof fn lemma_rename(
    new: Seq<(String, FileState)>,
    old: Seq<(String, FileState)>,
    updates: Seq<(String, FileState)>,
    deletes: Seq<String>,
    from: Seq<char>,
    to: Seq<char>,
    s: FileState,
)
    requires
        is_diff(new, old, updates, deletes),
        has_key(old, from),
        !has_key(new, from),
        has_pair(new, to, s),
        !has_key(old, to),
    ensures
        lists_key(deletes, from),
        has_pair(updates, to, s),
        !lists_key(deletes, to),
        forall|t: FileState| !#[trigger] has_pair(updates, from, t),
{
    let i = choose|i: int| 0 <= i < new.len() && new[i].0@ == to && new[i].1 == s;
    assert(has_key(new, to));
    if has_pair(old, to, s) {
        let j = choose|j: int| 0 <= j < old.len() && old[j].0@ == to && old[j].1 == s;
        assert(old[j].0@ == to);
    }
    assert forall|t: FileState| !#[trigger] has_pair(updates, from, t) by {
        if has_pair(new, from, t) {
            let j = choose|j: int| 0 <= j < new.len() && new[j].0@ == from && new[j].1 == t;
            assert(new[j].0@ == from);
        }
    }
}

/// When the scan holds exactly the stored (file, state) pairs, there is
/// nothing to update and nothing to delete.
pub proof fn lemma_unchanged(
    new: Seq<(String, FileState)>,
    old: Seq<(String, FileState)>,
    updates: Seq<(String, FileState)>,
    deletes: Seq<String>,
)
    requires
        is_diff(new, old, updates, deletes),
        forall|k: Seq<char>, s: FileState| #[trigger] has_pair(new, k, s) <==> has_pair(old, k, s),
    ensures
        updates.len() == 0,
        deletes.len() == 0,
{
    if updates.len() > 0 {
        assert(has_pair(updates, updates[0].0@, updates[0].1));
    }
    if deletes.len() > 0 {
        let k = deletes[0]@;
        assert(lists_key(deletes, k));
        let j = choose|j: int| 0 <= j < old.len() && old[j].0@ == k;
        assert(has_pair(old, k, old[j].1));
        assert(has_pair(new, k, old[j].1));
        let i = choose|i: int| 0 <= i < new.len() && new[i].0@ == k && new[i].1 == old[j].1;
        assert(has_key(new, k));
    }
}

/// No file is both updated and deleted by the same sync.
pub proof fn lemma_updates_and_deletes_disjoint(
    new: Seq<(String, FileState)>,
    old: Seq<(String, FileState)>,
    updates: Seq<(String, FileState)>,
    deletes: Seq<String>,
    k: Seq<char>,
    s: FileState,
)
    requires
        is_diff(new, old, updates, deletes),
        has_pair(updates, k, s),
    ensures
        !lists_key(deletes, k),
{
    let i = choose|i: int| 0 <= i < new.len() && new[i].0@ == k && new[i].1 == s;
    assert(has_key(new, k));
}

} // verus!
