//! The changes that a changeset makes to the set of paths: which paths it
//! adds and which it removes, gathered from the differences between the
//! changeset's tree of files and those of its parents.

use vstd::prelude::*;
use crate::path::{lemma_path_asymmetric, lemma_path_irreflexive, lemma_path_total, lemma_path_transitive, path_lt, MPath, Order};
use crate::path_tree::{pairs_view, tree_from_pairs, PathTree};

verus! {

/// What a changeset does to a path.
#[derive(Clone, Copy, Debug, PartialEq, Eq, Structural)]
pub enum PathChange {
    /// The path was not there before.
    Add,
    /// The path was there and is no more.
    Remove,
    /// The path was a file and is now a directory, or the other way round.
    FileDirConflict,
}

/// One difference between the tree of a parent and the tree of the
/// changeset. The path is `None` for the root of the tree.
#[derive(Debug, PartialEq, Eq)]
pub enum Diff {
    /// The changeset has the path and the parent has not.
    Added(Option<MPath>),
    /// The parent has the path and the changeset has not.
    Removed(Option<MPath>),
    /// Both have the path, with different content.
    Changed(Option<MPath>),
}

/// A path with what the changeset does to it.
pub type Change = (Seq<Seq<u8>>, PathChange);

/// What a difference says of the existence of a path: nothing where the
/// path is the root, which is there in every tree, or only the content
/// differs. The root is told by `None` or by the path without elements.
pub open spec fn relevant(d: Diff) -> Option<Change> {
    match d {
        Diff::Added(Some(p)) => if p@.len() > 0 {
            Some((p@, PathChange::Add))
        } else {
            None
        },
        Diff::Removed(Some(p)) => if p@.len() > 0 {
            Some((p@, PathChange::Remove))
        } else {
            None
        },
        _ => None,
    }
}

/// `acc` has an entry for the path `p` at index `i`.
pub open spec fn path_at(acc: Seq<Change>, p: Seq<Seq<u8>>, i: int) -> bool {
    0 <= i < acc.len() && acc[i].0 == p
}

/// `acc` has an entry for the path `p`.
pub open spec fn has_path(acc: Seq<Change>, p: Seq<Seq<u8>>) -> bool {
    exists|i: int| path_at(acc, p, i)
}

/// The paths in `acc` ascend strictly.
pub open spec fn paths_ascending(acc: Seq<Change>) -> bool {
    forall|i: int, j: int| 0 <= i < j < acc.len() ==> path_lt((#[trigger] acc[i]).0, (#[trigger] acc[j]).0)
}

/// How many entries of the ascending list `acc` have a path that comes
/// before `p`.
pub open spec fn paths_before(acc: Seq<Change>, p: Seq<Seq<u8>>) -> int
    decreases acc.len(),
{
    if acc.len() == 0 {
        0
    } else if path_lt(acc.last().0, p) {
        acc.len() as int
    } else {
        paths_before(acc.drop_last(), p)
    }
}

/// The changes `acc`, which ascend by path, and one more, `e`. Where
/// `acc` has the path of `e` with another change, the path becomes a
/// conflict between file and directory; where it has none, `e` is put
/// where its path belongs.
pub open spec fn merge_change(acc: Seq<Change>, e: Change) -> Seq<Change> {
    if has_path(acc, e.0) {
        let i = choose|i: int| path_at(acc, e.0, i);
        if acc[i].1 != e.1 {
            acc.update(i, (e.0, PathChange::FileDirConflict))
        } else {
            acc
        }
    } else {
        acc.insert(paths_before(acc, e.0), e)
    }
}

/// The changes `acc` and those that the differences `ds` tell of.
pub open spec fn merge_diffs(acc: Seq<Change>, ds: Seq<Diff>) -> Seq<Change>
    decreases ds.len(),
{
    if ds.len() == 0 {
        acc
    } else {
        let before = merge_diffs(acc, ds.drop_last());
        match relevant(ds.last()) {
            Some(e) => merge_change(before, e),
            None => before,
        }
    }
}

/// The changes `acc` and those that the differences to each parent tell
/// of.
pub open spec fn merge_parents(acc: Seq<Change>, pds: Seq<Vec<Diff>>) -> Seq<Change>
    decreases pds.len(),
{
    if pds.len() == 0 {
        acc
    } else {
        merge_diffs(merge_parents(acc, pds.drop_last()), pds.last()@)
    }
}

/// The paths in `acc` are all different.
pub open spec fn distinct_paths(acc: Seq<Change>) -> bool {
    forall|i: int, j: int| 0 <= i < j < acc.len() ==> (#[trigger] acc[i]).0 != (#[trigger] acc[j]).0
}

/// Paths that ascend are all different.
pub proof fn lemma_ascending_distinct(acc: Seq<Change>)
    requires
        paths_ascending(acc),
    ensures
        distinct_paths(acc),
{
    assert forall|i: int, j: int| 0 <= i < j < acc.len() implies (#[trigger] acc[i]).0 != (#[trigger] acc[j]).0 by {
        lemma_path_irreflexive(acc[i].0);
    }
}

/// In an ascending list the paths that come before `p` are the first
/// ones.
pub proof fn lemma_paths_before(acc: Seq<Change>, p: Seq<Seq<u8>>)
    requires
        paths_ascending(acc),
    ensures
        0 <= paths_before(acc, p) <= acc.len(),
        forall|k: int| 0 <= k < paths_before(acc, p) ==> path_lt((#[trigger] acc[k]).0, p),
        forall|k: int| paths_before(acc, p) <= k < acc.len() ==> !path_lt((#[trigger] acc[k]).0, p),
    decreases acc.len(),
{
    if acc.len() > 0 {
        let last = acc[acc.len() - 1];
        if path_lt(last.0, p) {
            assert forall|k: int| 0 <= k < acc.len() implies path_lt((#[trigger] acc[k]).0, p) by {
                if k < acc.len() - 1 {
                    lemma_path_transitive(acc[k].0, last.0, p);
                }
            }
        } else {
            let rest = acc.drop_last();
            assert forall|i: int, j: int| 0 <= i < j < rest.len() implies path_lt(
                (#[trigger] rest[i]).0,
                (#[trigger] rest[j]).0,
            ) by {
                assert(rest[i] == acc[i] && rest[j] == acc[j]);
            }
            lemma_paths_before(rest, p);
            assert forall|k: int| 0 <= k < paths_before(acc, p) implies path_lt((#[trigger] acc[k]).0, p) by {
                assert(rest[k] == acc[k]);
            }
            assert forall|k: int| paths_before(acc, p) <= k < acc.len() implies !path_lt((#[trigger] acc[k]).0, p) by {
                if k < rest.len() {
                    assert(rest[k] == acc[k]);
                }
            }
        }
    }
}

/// Where a path would stand in an ascending list that has it not: after
/// the paths that come before it and before those that come after it.
pub proof fn lemma_place(acc: Seq<Change>, p: Seq<Seq<u8>>, pos: int)
    requires
        paths_ascending(acc),
        !has_path(acc, p),
        0 <= pos <= acc.len(),
        forall|k: int| 0 <= k < pos ==> path_lt((#[trigger] acc[k]).0, p),
        forall|k: int| pos <= k < acc.len() ==> !path_lt((#[trigger] acc[k]).0, p),
    ensures
        paths_before(acc, p) == pos,
        forall|k: int| pos <= k < acc.len() ==> path_lt(p, (#[trigger] acc[k]).0),
{
    lemma_paths_before(acc, p);
    let pb = paths_before(acc, p);
    if pb < pos {
        assert(path_lt(acc[pb].0, p));
    } else if pos < pb {
        assert(path_lt(acc[pos].0, p));
    }
    assert forall|k: int| pos <= k < acc.len() implies path_lt(p, (#[trigger] acc[k]).0) by {
        if !path_lt(p, acc[k].0) {
            lemma_path_total(p, acc[k].0);
            assert(path_at(acc, p, k));
        }
    }
}

/// Taking one more change keeps the paths ascending.
pub proof fn lemma_merge_ascending(acc: Seq<Change>, e: Change)
    requires
        paths_ascending(acc),
    ensures
        paths_ascending(merge_change(acc, e)),
        distinct_paths(merge_change(acc, e)),
{
    let r = merge_change(acc, e);
    if has_path(acc, e.0) {
        let i = choose|i: int| path_at(acc, e.0, i);
        assert(path_at(acc, e.0, i));
        assert forall|a: int, b: int| 0 <= a < b < r.len() implies path_lt((#[trigger] r[a]).0, (#[trigger] r[b]).0) by {
            assert(r[a].0 == acc[a].0);
            assert(r[b].0 == acc[b].0);
        }
    } else {
        lemma_paths_before(acc, e.0);
        let pos = paths_before(acc, e.0);
        lemma_place(acc, e.0, pos);
        assert forall|a: int, b: int| 0 <= a < b < r.len() implies path_lt((#[trigger] r[a]).0, (#[trigger] r[b]).0) by {
            if a < pos && b > pos {
                assert(r[a] == acc[a]);
                assert(r[b] == acc[b - 1]);
            } else if a < pos && b < pos {
                assert(r[a] == acc[a] && r[b] == acc[b]);
            } else if a > pos {
                assert(r[a] == acc[a - 1] && r[b] == acc[b - 1]);
            } else if a == pos {
                assert(r[b] == acc[b - 1]);
            } else {
                assert(r[a] == acc[a]);
            }
        }
    }
    lemma_ascending_distinct(r);
}

/// One of the changes `log` is the change `c` to the path `p`.
pub open spec fn logged(log: Seq<Change>, p: Seq<Seq<u8>>, c: PathChange) -> bool {
    exists|i: int| 0 <= i < log.len() && #[trigger] log[i] == (p, c)
}

/// What becomes of a path that is added or removed: a conflict between
/// file and directory where it is both, else what it is.
pub open spec fn merged_change(added: bool, removed: bool) -> PathChange {
    if added && removed {
        PathChange::FileDirConflict
    } else if added {
        PathChange::Add
    } else {
        PathChange::Remove
    }
}

/// `acc` holds the additions and removals `log`, gathered path by path.
pub open spec fn gathers(acc: Seq<Change>, log: Seq<Change>) -> bool {
    &&& paths_ascending(acc)
    &&& distinct_paths(acc)
    &&& forall|i: int| 0 <= i < log.len() ==> (#[trigger] log[i]).1 != PathChange::FileDirConflict
    &&& forall|i: int| 0 <= i < log.len() ==> has_path(acc, (#[trigger] log[i]).0)
    &&& forall|k: int|
        0 <= k < acc.len() ==> (logged(log, (#[trigger] acc[k]).0, PathChange::Add) || logged(
            log,
            acc[k].0,
            PathChange::Remove,
        )) && acc[k].1 == merged_change(
            logged(log, acc[k].0, PathChange::Add),
            logged(log, acc[k].0, PathChange::Remove),
        )
}

proof fn lemma_logged_push(log: Seq<Change>, e: Change, p: Seq<Seq<u8>>, c: PathChange)
    ensures
        logged(log.push(e), p, c) <==> (logged(log, p, c) || e == (p, c)),
{
    let l2 = log.push(e);
    if logged(l2, p, c) {
        let i = choose|i: int| 0 <= i < l2.len() && #[trigger] l2[i] == (p, c);
        if i < log.len() {
            assert(log[i] == (p, c));
        }
    }
    if logged(log, p, c) {
        let i = choose|i: int| 0 <= i < log.len() && #[trigger] log[i] == (p, c);
        assert(l2[i] == (p, c));
    }
    if e == (p, c) {
        assert(l2[log.len() as int] == (p, c));
    }
}

/// Taking one more addition or removal keeps the changes gathered.
proof fn lemma_gathers_step(acc: Seq<Change>, log: Seq<Change>, e: Change)
    requires
        gathers(acc, log),
        e.1 != PathChange::FileDirConflict,
    ensures
        gathers(merge_change(acc, e), log.push(e)),
{
    let r = merge_change(acc, e);
    let l2 = log.push(e);
    lemma_merge_ascending(acc, e);
    lemma_paths_before(acc, e.0);
    let pos = paths_before(acc, e.0);
    let had = has_path(acc, e.0);
    // every entry of the old list stands in the new one, with its path
    assert forall|j: int| 0 <= j < acc.len() implies path_at(r, (#[trigger] acc[j]).0, if had || j < pos {
        j
    } else {
        j + 1
    }) by {
        if had {
            assert(r[j].0 == acc[j].0);
        }
    }
    assert forall|i: int| 0 <= i < l2.len() implies has_path(r, (#[trigger] l2[i]).0) by {
        let p = l2[i].0;
        if i < log.len() {
            assert(has_path(acc, log[i].0));
            let k = choose|k: int| path_at(acc, p, k);
            assert(path_at(acc, p, k));
            assert(path_at(r, acc[k].0, if had || k < pos {
                k
            } else {
                k + 1
            }));
        } else {
            if had {
                let k = choose|k: int| path_at(acc, e.0, k);
                assert(path_at(acc, e.0, k));
                assert(r[k].0 == e.0);
                assert(path_at(r, p, k));
            } else {
                assert(path_at(r, p, pos));
            }
        }
    }
    assert forall|k: int| 0 <= k < r.len() implies (logged(l2, (#[trigger] r[k]).0, PathChange::Add) || logged(
        l2,
        r[k].0,
        PathChange::Remove,
    )) && r[k].1 == merged_change(
        logged(l2, r[k].0, PathChange::Add),
        logged(l2, r[k].0, PathChange::Remove),
    ) by {
        let p = r[k].0;
        lemma_logged_push(log, e, p, PathChange::Add);
        lemma_logged_push(log, e, p, PathChange::Remove);
        if had {
            let x = choose|x: int| path_at(acc, e.0, x);
            assert(path_at(acc, e.0, x));
            assert(r[k].0 == acc[k].0);
            if k != x {
                assert(acc[k].0 != acc[x].0);
                assert(r[k] == acc[k]);
            }
        } else {
            if k == pos {
                if logged(log, p, PathChange::Add) {
                    let i = choose|i: int| 0 <= i < log.len() && #[trigger] log[i] == (p, PathChange::Add);
                    assert(has_path(acc, log[i].0));
                }
                if logged(log, p, PathChange::Remove) {
                    let i = choose|i: int| 0 <= i < log.len() && #[trigger] log[i] == (p, PathChange::Remove);
                    assert(has_path(acc, log[i].0));
                }
            } else {
                let j = if k < pos {
                    k
                } else {
                    k - 1
                };
                assert(r[k] == acc[j]);
                assert(path_at(acc, p, j));
            }
        }
    }
}

/// The additions and removals that the differences `ds` tell of, after
/// those of `log`.
pub open spec fn log_diffs(log: Seq<Change>, ds: Seq<Diff>) -> Seq<Change>
    decreases ds.len(),
{
    if ds.len() == 0 {
        log
    } else {
        let before = log_diffs(log, ds.drop_last());
        match relevant(ds.last()) {
            Some(e) => before.push(e),
            None => before,
        }
    }
}

/// The additions and removals that the differences to each parent tell
/// of, after those of `log`.
pub open spec fn log_parents(log: Seq<Change>, pds: Seq<Vec<Diff>>) -> Seq<Change>
    decreases pds.len(),
{
    if pds.len() == 0 {
        log
    } else {
        log_diffs(log_parents(log, pds.drop_last()), pds.last()@)
    }
}

/// One of the differences `ds` tells of the change `c` to the path `p`.
pub open spec fn told(ds: Seq<Diff>, p: Seq<Seq<u8>>, c: PathChange) -> bool {
    exists|j: int| 0 <= j < ds.len() && relevant(#[trigger] ds[j]) == Some((p, c))
}

/// One of the differences to one of the parents tells of the change `c`
/// to the path `p`.
pub open spec fn says(pds: Seq<Vec<Diff>>, p: Seq<Seq<u8>>, c: PathChange) -> bool {
    exists|i: int| 0 <= i < pds.len() && told((#[trigger] pds[i])@, p, c)
}

proof fn lemma_gathers_diffs(acc: Seq<Change>, log: Seq<Change>, ds: Seq<Diff>)
    requires
        gathers(acc, log),
    ensures
        gathers(merge_diffs(acc, ds), log_diffs(log, ds)),
    decreases ds.len(),
{
    if ds.len() > 0 {
        lemma_gathers_diffs(acc, log, ds.drop_last());
        match relevant(ds.last()) {
            Some(e) => {
                lemma_gathers_step(merge_diffs(acc, ds.drop_last()), log_diffs(log, ds.drop_last()), e);
            },
            None => {},
        }
    }
}

proof fn lemma_log_diffs(log: Seq<Change>, ds: Seq<Diff>, p: Seq<Seq<u8>>, c: PathChange)
    ensures
        logged(log_diffs(log, ds), p, c) <==> (logged(log, p, c) || told(ds, p, c)),
    decreases ds.len(),
{
    if ds.len() > 0 {
        let rest = ds.drop_last();
        let d = ds[ds.len() - 1];
        assert(ds.last() == d);
        lemma_log_diffs(log, rest, p, c);
        match relevant(d) {
            Some(e) => {
                lemma_logged_push(log_diffs(log, rest), e, p, c);
            },
            None => {},
        }
        if told(ds, p, c) {
            let j = choose|j: int| 0 <= j < ds.len() && relevant(#[trigger] ds[j]) == Some((p, c));
            if j < rest.len() {
                assert(rest[j] == ds[j]);
                assert(told(rest, p, c));
            }
        }
        if told(rest, p, c) {
            let j = choose|j: int| 0 <= j < rest.len() && relevant(#[trigger] rest[j]) == Some((p, c));
            assert(ds[j] == rest[j]);
        }
        if relevant(d) == Some((p, c)) {
            assert(relevant(ds[ds.len() - 1]) == Some((p, c)));
        }
    } else {
        if told(ds, p, c) {
            let j = choose|j: int| 0 <= j < ds.len() && relevant(#[trigger] ds[j]) == Some((p, c));
        }
    }
}

proof fn lemma_gathers_parents(pds: Seq<Vec<Diff>>)
    ensures
        gathers(merge_parents(Seq::empty(), pds), log_parents(Seq::empty(), pds)),
    decreases pds.len(),
{
    if pds.len() > 0 {
        lemma_gathers_parents(pds.drop_last());
        lemma_gathers_diffs(
            merge_parents(Seq::empty(), pds.drop_last()),
            log_parents(Seq::empty(), pds.drop_last()),
            pds.last()@,
        );
    }
}

proof fn lemma_log_parents(pds: Seq<Vec<Diff>>, p: Seq<Seq<u8>>, c: PathChange)
    ensures
        logged(log_parents(Seq::empty(), pds), p, c) <==> says(pds, p, c),
    decreases pds.len(),
{
    if pds.len() > 0 {
        let rest = pds.drop_last();
        let last = pds[pds.len() - 1];
        assert(pds.last() == last);
        lemma_log_parents(rest, p, c);
        lemma_log_diffs(log_parents(Seq::empty(), rest), last@, p, c);
        if says(pds, p, c) {
            let i = choose|i: int| 0 <= i < pds.len() && told((#[trigger] pds[i])@, p, c);
            if i < rest.len() {
                assert(rest[i] == pds[i]);
                assert(says(rest, p, c));
            }
        }
        if says(rest, p, c) {
            let i = choose|i: int| 0 <= i < rest.len() && told((#[trigger] rest[i])@, p, c);
            assert(pds[i] == rest[i]);
        }
        if told(last@, p, c) {
            assert(told(pds[pds.len() - 1]@, p, c));
        }
    } else {
        let e = Seq::<Change>::empty();
        if logged(e, p, c) {
            let i = choose|i: int| 0 <= i < e.len() && #[trigger] e[i] == (p, c);
        }
        if says(pds, p, c) {
            let i = choose|i: int| 0 <= i < pds.len() && told((#[trigger] pds[i])@, p, c);
        }
    }
}

/// What the gathered changes say of a path: they ascend by path, and
/// the path is among them where
/// a difference to some parent adds or removes it. It is a removal where
/// some parent had the path and the changeset has it not, and no parent
/// lacked it while the changeset has it; an addition the other way
/// round; and a conflict between file and directory where it is both
/// added and removed.
pub proof fn law_changes(pds: Seq<Vec<Diff>>, p: Seq<Seq<u8>>)
    ensures
        paths_ascending(merge_parents(Seq::empty(), pds)),
        distinct_paths(merge_parents(Seq::empty(), pds)),
        has_path(merge_parents(Seq::empty(), pds), p) <==> (says(pds, p, PathChange::Add) || says(
            pds,
            p,
            PathChange::Remove,
        )),
        forall|k: int|
            path_at(merge_parents(Seq::empty(), pds), p, k) ==> (#[trigger] merge_parents(Seq::empty(), pds)[k]).1
                == merged_change(says(pds, p, PathChange::Add), says(pds, p, PathChange::Remove)),
{
    let r = merge_parents(Seq::empty(), pds);
    let log = log_parents(Seq::empty(), pds);
    lemma_gathers_parents(pds);
    lemma_log_parents(pds, p, PathChange::Add);
    lemma_log_parents(pds, p, PathChange::Remove);
    if has_path(r, p) {
        let k = choose|k: int| path_at(r, p, k);
        assert(path_at(r, p, k));
        assert(logged(log, r[k].0, PathChange::Add) || logged(log, r[k].0, PathChange::Remove));
    }
    if logged(log, p, PathChange::Add) {
        let i = choose|i: int| 0 <= i < log.len() && #[trigger] log[i] == (p, PathChange::Add);
        assert(has_path(r, log[i].0));
    }
    if logged(log, p, PathChange::Remove) {
        let i = choose|i: int| 0 <= i < log.len() && #[trigger] log[i] == (p, PathChange::Remove);
        assert(has_path(r, log[i].0));
    }
    assert forall|k: int| path_at(r, p, k) implies (#[trigger] r[k]).1 == merged_change(
        says(pds, p, PathChange::Add),
        says(pds, p, PathChange::Remove),
    ) by {
        assert(r[k].0 == p);
    }
}

/// Two ascending lists of changes that hold the same changes are the
/// same list.
pub proof fn lemma_ascending_unique(a: Seq<Change>, b: Seq<Change>)
    requires
        paths_ascending(a),
        paths_ascending(b),
        forall|e: Change| a.contains(e) <==> b.contains(e),
    ensures
        a == b,
    decreases a.len(),
{
    if a.len() == 0 {
        if b.len() > 0 {
            assert(b.contains(b[0]));
            assert(a.contains(b[0]));
        }
        assert(a =~= b);
    } else if b.len() == 0 {
        assert(a.contains(a[0]));
        assert(b.contains(a[0]));
    } else {
        let la = a[a.len() - 1];
        let lb = b[b.len() - 1];
        assert(a.contains(la));
        assert(b.contains(la));
        let j = choose|j: int| 0 <= j < b.len() && b[j] == la;
        assert(b.contains(lb));
        assert(a.contains(lb));
        let i = choose|i: int| 0 <= i < a.len() && a[i] == lb;
        if j < b.len() - 1 {
            assert(path_lt(b[j].0, b[b.len() - 1].0));
            if i < a.len() - 1 {
                assert(path_lt(a[i].0, a[a.len() - 1].0));
                lemma_path_asymmetric(la.0, lb.0);
            } else {
                lemma_path_irreflexive(la.0);
            }
        } else if i < a.len() - 1 {
            assert(path_lt(a[i].0, a[a.len() - 1].0));
            lemma_path_irreflexive(la.0);
        }
        assert(la == lb);
        let a1 = a.drop_last();
        let b1 = b.drop_last();
        assert forall|e: Change| a1.contains(e) implies b1.contains(e) by {
            let x = choose|x: int| 0 <= x < a1.len() && a1[x] == e;
            assert(a[x] == e);
            assert(a.contains(e));
            assert(b.contains(e));
            let y = choose|y: int| 0 <= y < b.len() && b[y] == e;
            if y == b.len() - 1 {
                assert(path_lt(a[x].0, a[a.len() - 1].0));
                lemma_path_irreflexive(la.0);
            }
            assert(b1[y] == e);
        }
        assert forall|e: Change| b1.contains(e) implies a1.contains(e) by {
            let y = choose|y: int| 0 <= y < b1.len() && b1[y] == e;
            assert(b[y] == e);
            assert(b.contains(e));
            assert(a.contains(e));
            let x = choose|x: int| 0 <= x < a.len() && a[x] == e;
            if x == a.len() - 1 {
                assert(path_lt(b[y].0, b[b.len() - 1].0));
                lemma_path_irreflexive(lb.0);
            }
            assert(a1[x] == e);
        }
        assert forall|x: int, y: int| 0 <= x < y < a1.len() implies path_lt((#[trigger] a1[x]).0, (#[trigger] a1[y]).0) by {
            assert(a1[x] == a[x] && a1[y] == a[y]);
        }
        assert forall|x: int, y: int| 0 <= x < y < b1.len() implies path_lt((#[trigger] b1[x]).0, (#[trigger] b1[y]).0) by {
            assert(b1[x] == b[x] && b1[y] == b[y]);
        }
        lemma_ascending_unique(a1, b1);
        assert(a =~= a1.push(la));
        assert(b =~= b1.push(lb));
    }
}

/// The differences `pds1` and `pds2` say the same of every path: what
/// one of them says of a path, the other says of it too.
pub open spec fn say_the_same(pds1: Seq<Vec<Diff>>, pds2: Seq<Vec<Diff>>) -> bool {
    forall|p: Seq<Seq<u8>>, c: PathChange| #[trigger] says(pds1, p, c) <==> #[trigger] says(pds2, p, c)
}

proof fn lemma_gathered_in(pds1: Seq<Vec<Diff>>, pds2: Seq<Vec<Diff>>, e: Change)
    requires
        say_the_same(pds1, pds2),
        merge_parents(Seq::empty(), pds1).contains(e),
    ensures
        merge_parents(Seq::empty(), pds2).contains(e),
{
    let r1 = merge_parents(Seq::empty(), pds1);
    let r2 = merge_parents(Seq::empty(), pds2);
    let k = choose|k: int| 0 <= k < r1.len() && r1[k] == e;
    let p = e.0;
    assert(path_at(r1, p, k));
    law_changes(pds1, p);
    law_changes(pds2, p);
    assert(says(pds1, p, PathChange::Add) <==> says(pds2, p, PathChange::Add));
    assert(says(pds1, p, PathChange::Remove) <==> says(pds2, p, PathChange::Remove));
    assert(has_path(r2, p));
    let k2 = choose|k2: int| path_at(r2, p, k2);
    assert(path_at(r2, p, k2));
    assert(r2[k2] == e);
}

/// The gathered changes do not depend on the order of the parents, nor
/// on that of the differences to one parent, nor on how often a
/// difference is told: differences that say the same of every path
/// give the same changes.
pub proof fn law_changes_order(pds1: Seq<Vec<Diff>>, pds2: Seq<Vec<Diff>>)
    requires
        say_the_same(pds1, pds2),
    ensures
        merge_parents(Seq::empty(), pds1) == merge_parents(Seq::empty(), pds2),
{
    let r1 = merge_parents(Seq::empty(), pds1);
    let r2 = merge_parents(Seq::empty(), pds2);
    lemma_gathers_parents(pds1);
    lemma_gathers_parents(pds2);
    assert forall|e: Change| r1.contains(e) <==> r2.contains(e) by {
        if r1.contains(e) {
            lemma_gathered_in(pds1, pds2, e);
        }
        if r2.contains(e) {
            lemma_gathered_in(pds2, pds1, e);
        }
    }
    lemma_ascending_unique(r1, r2);
}

/// Whether two paths are the same.
pub fn same_path(a: &MPath, b: &MPath) -> (r: bool)
    ensures
        r == (a@ == b@),
{
    a.order(b) == Order::Equal
}

/// Takes one more change into `out`, whose paths ascend.
fn merge_one(out: &mut Vec<(MPath, PathChange)>, path: &MPath, change: PathChange)
    requires
        paths_ascending(pairs_view(old(out)@)),
    ensures
        pairs_view(final(out)@) == merge_change(pairs_view(old(out)@), (path@, change)),
        paths_ascending(pairs_view(final(out)@)),
{
    let ghost acc = pairs_view(out@);
    let ghost e = (path@, change);
    proof {
        lemma_merge_ascending(acc, e);
        lemma_ascending_distinct(acc);
    }
    let mut lo: usize = 0;
    let mut hi: usize = out.len();
    while lo < hi
        invariant
            acc == pairs_view(out@),
            out@ == old(out)@,
            paths_ascending(acc),
            lo <= hi <= out.len(),
            forall|k: int| 0 <= k < lo ==> path_lt((#[trigger] acc[k]).0, path@),
            forall|k: int| hi <= k < out.len() ==> !path_lt((#[trigger] acc[k]).0, path@),
        decreases hi - lo,
    {
        let mid = lo + (hi - lo) / 2;
        let o = out[mid].0.order(path);
        assert(acc[mid as int].0 == out@[mid as int].0@);
        if o == Order::Less {
            assert forall|k: int| 0 <= k < mid + 1 implies path_lt((#[trigger] acc[k]).0, path@) by {
                if k < mid {
                    lemma_path_transitive(acc[k].0, acc[mid as int].0, path@);
                }
            }
            lo = mid + 1;
        } else {
            assert forall|k: int| mid <= k < out.len() implies !path_lt((#[trigger] acc[k]).0, path@) by {
                if mid < k && path_lt(acc[k].0, path@) {
                    lemma_path_transitive(acc[mid as int].0, acc[k].0, path@);
                }
            }
            hi = mid;
        }
    }
    let found = if lo < out.len() {
        let o = out[lo].0.order(path);
        assert(acc[lo as int].0 == out@[lo as int].0@);
        o == Order::Equal
    } else {
        false
    };
    if found {
        proof {
            assert(path_at(acc, e.0, lo as int));
            let c = choose|c: int| path_at(acc, e.0, c);
            assert(path_at(acc, e.0, c));
            if c < lo {
                assert(acc[c].0 != acc[lo as int].0);
            } else if lo < c {
                assert(acc[lo as int].0 != acc[c].0);
            }
        }
        if out[lo].1 != change {
            let p = out[lo].0.clone();
            out.set(lo, (p, PathChange::FileDirConflict));
            proof {
                assert(pairs_view(out@) =~= acc.update(lo as int, (e.0, PathChange::FileDirConflict)));
            }
        }
    } else {
        proof {
            if has_path(acc, e.0) {
                let c = choose|c: int| path_at(acc, e.0, c);
                assert(path_at(acc, e.0, c));
                lemma_path_irreflexive(e.0);
                if c > lo {
                    lemma_path_total(acc[lo as int].0, e.0);
                }
            }
            lemma_place(acc, e.0, lo as int);
        }
        out.insert(lo, (path.clone(), change));
        proof {
            assert(pairs_view(out@) =~= acc.insert(lo as int, e));
        }
    }
}

/// Gathers the changes that a changeset makes from its differences to
/// each of its parents. A path that one difference adds and another
/// removes is a conflict between file and directory. Each path comes
/// once, and the paths ascend: they are compared element by element, each
/// in lexicographic byte order, and a path comes before every path that
/// it is the beginning of. So the result does not depend on the order of
/// the parents, nor on that of the differences to one parent.
pub fn diff_against_parents(parent_diffs: &Vec<Vec<Diff>>) -> (r: Vec<(MPath, PathChange)>)
    ensures
        pairs_view(r@) == merge_parents(Seq::empty(), parent_diffs@),
        paths_ascending(pairs_view(r@)),
        distinct_paths(pairs_view(r@)),
{
    let mut out: Vec<(MPath, PathChange)> = Vec::new();
    let mut i: usize = 0;
    proof {
        assert(parent_diffs@.take(0) =~= Seq::empty());
        assert(pairs_view(out@) =~= Seq::empty());
    }
    while i < parent_diffs.len()
        invariant
            i <= parent_diffs.len(),
            pairs_view(out@) == merge_parents(Seq::empty(), parent_diffs@.take(i as int)),
            paths_ascending(pairs_view(out@)),
        decreases parent_diffs.len() - i,
    {
        let diffs = &parent_diffs[i];
        let ghost start = pairs_view(out@);
        let mut j: usize = 0;
        proof {
            assert(diffs@.take(0) =~= Seq::empty());
        }
        while j < diffs.len()
            invariant
                j <= diffs.len(),
                pairs_view(out@) == merge_diffs(start, diffs@.take(j as int)),
                paths_ascending(pairs_view(out@)),
            decreases diffs.len() - j,
        {
            proof {
                assert(diffs@.take(j + 1).drop_last() =~= diffs@.take(j as int));
                assert(diffs@.take(j + 1).last() == diffs@[j as int]);
            }
            match &diffs[j] {
                Diff::Added(Some(path)) => {
                    if path.len() > 0 {
                        merge_one(&mut out, path, PathChange::Add);
                    }
                },
                Diff::Removed(Some(path)) => {
                    if path.len() > 0 {
                        merge_one(&mut out, path, PathChange::Remove);
                    }
                },
                _ => {},
            }
            j += 1;
        }
        proof {
            assert(diffs@.take(j as int) =~= diffs@);
            assert(parent_diffs@.take(i + 1).drop_last() =~= parent_diffs@.take(i as int));
            assert(parent_diffs@.take(i + 1).last() == parent_diffs@[i as int]);
        }
        i += 1;
    }
    assert(parent_diffs@.take(i as int) =~= parent_diffs@);
    proof {
        lemma_ascending_distinct(pairs_view(out@));
    }
    out
}

/// The paths of a changeset without parents, each as an addition. The
/// root, which is told by `None` or by the path without elements, is
/// left out.
pub open spec fn all_added(entries: Seq<Option<MPath>>) -> Seq<Change>
    decreases entries.len(),
{
    if entries.len() == 0 {
        Seq::empty()
    } else {
        let before = all_added(entries.drop_last());
        match entries.last() {
            Some(p) => if p@.len() > 0 {
                before.push((p@, PathChange::Add))
            } else {
                before
            },
            None => before,
        }
    }
}

/// What is known of a changeset's tree of files.
pub enum ChangesetDiff {
    /// The changeset has no parents: the paths of its tree, `None` for the
    /// root.
    Root(Vec<Option<MPath>>),
    /// The differences between the tree of each parent and the tree of the
    /// changeset.
    Parents(Vec<Vec<Diff>>),
}

/// The changes that a changeset makes, path by path.
pub open spec fn changes_of(diff: ChangesetDiff) -> Seq<Change> {
    match diff {
        ChangesetDiff::Root(entries) => all_added(entries@),
        ChangesetDiff::Parents(parent_diffs) => merge_parents(Seq::empty(), parent_diffs@),
    }
}

/// The tree of the changes that a changeset makes: each changed path
/// holds its change, and the nodes above it hold none.
pub fn get_changes(diff: ChangesetDiff) -> (r: PathTree<PathChange>)
    ensures
        r@ == tree_from_pairs(changes_of(diff)),
{
    let changes = match diff {
        ChangesetDiff::Root(entries) => {
            let mut out: Vec<(MPath, PathChange)> = Vec::new();
            let mut i: usize = 0;
            proof {
                assert(entries@.take(0) =~= Seq::empty());
                assert(pairs_view(out@) =~= Seq::empty());
            }
            while i < entries.len()
                invariant
                    i <= entries.len(),
                    pairs_view(out@) == all_added(entries@.take(i as int)),
                decreases entries.len() - i,
            {
                proof {
                    assert(entries@.take(i + 1).drop_last() =~= entries@.take(i as int));
                    assert(entries@.take(i + 1).last() == entries@[i as int]);
                }
                match &entries[i] {
                    Some(path) => {
                        if path.len() > 0 {
                            let ghost before = pairs_view(out@);
                            out.push((path.clone(), PathChange::Add));
                            assert(pairs_view(out@) =~= before.push((path@, PathChange::Add)));
                        }
                    },
                    None => {},
                }
                i += 1;
            }
            assert(entries@.take(i as int) =~= entries@);
            out
        },
        ChangesetDiff::Parents(parent_diffs) => diff_against_parents(&parent_diffs),
    };
    PathTree::from_iter(changes)
}

} // verus!
