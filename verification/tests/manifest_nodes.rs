use deleted_files_manifest::fold::{collect_subentries, fold_manifest, Folded};
use deleted_files_manifest::derive::{DeletedManifestDeriver, DeriveError};
use deleted_files_manifest::hash::{Blake2, ChangesetId, ManifestId};
use deleted_files_manifest::manifest::DeletedManifest;
use deleted_files_manifest::path::{lex_order, MPath, Order, PathElement};
use deleted_files_manifest::path_tree::PathTree;
use deleted_files_manifest::store::ManifestStore;
use deleted_files_manifest::unfold::{
    check_consistency, DeletedManifestChange, DeletedManifestChangeType,
};
use deleted_files_manifest::changes::{diff_against_parents, get_changes, ChangesetDiff, Diff, PathChange};

fn el(s: &str) -> PathElement {
    PathElement::new(s.as_bytes().to_vec()).unwrap()
}

fn path(s: &str) -> MPath {
    MPath::from_elements(s.split('/').map(el).collect())
}

fn cs(n: u64) -> ChangesetId {
    ChangesetId { hash: Blake2 { w0: n, w1: 1, w2: 2, w3: 3 } }
}

fn mid(n: u64) -> ManifestId {
    ManifestId { hash: Blake2 { w0: n, w1: 0, w2: 0, w3: 0 } }
}

fn names(m: &DeletedManifest) -> Vec<String> {
    m.subentries().iter().map(|(n, _)| String::from_utf8(n.as_bytes().clone()).unwrap()).collect()
}

#[test]
fn path_elements_are_not_empty_and_hold_no_separator() {
    assert!(PathElement::new(Vec::new()).is_none());
    assert!(PathElement::new(b"a/b".to_vec()).is_none());
    assert!(PathElement::new(b"/".to_vec()).is_none());
    assert_eq!(PathElement::new(b"a.b".to_vec()).unwrap().as_bytes(), &b"a.b".to_vec());
}

#[test]
fn byte_order_is_lexicographic() {
    assert_eq!(lex_order(&b"dir".to_vec(), &b"dir-2".to_vec()), Order::Less);
    assert_eq!(lex_order(&b"dir-2".to_vec(), &b"dir".to_vec()), Order::Greater);
    assert_eq!(lex_order(&b"b".to_vec(), &b"ab".to_vec()), Order::Greater);
    assert_eq!(lex_order(&b"same".to_vec(), &b"same".to_vec()), Order::Equal);
    assert_eq!(lex_order(&Vec::new(), &b"a".to_vec()), Order::Less);
    assert_eq!(el("a").order(&el("b")), Order::Less);
}

#[test]
fn the_empty_node_is_live_and_empty() {
    let m = DeletedManifest::empty();
    assert!(m.is_empty());
    assert!(!m.is_deleted());
    assert_eq!(m.linknode(), None);
    assert_eq!(m.lookup(&el("a")), None);
    assert_eq!(m.into_blob(), vec![0, 0, 0, 0, 0, 0, 0, 0, 0]);
}

#[test]
fn updates_put_replace_and_remove_subentries() {
    let base = DeletedManifest::copy_and_update_subentries(
        None,
        Some(cs(1)),
        &vec![(el("b"), Some(mid(2))), (el("a"), Some(mid(1))), (el("c"), Some(mid(3)))],
    );
    assert!(base.is_deleted());
    assert_eq!(base.linknode(), Some(cs(1)));
    assert_eq!(names(&base), vec!["a", "b", "c"]);
    assert_eq!(base.lookup(&el("b")), Some(mid(2)));

    let next = DeletedManifest::copy_and_update_subentries(
        Some(&base),
        None,
        &vec![(el("b"), None), (el("d"), Some(mid(4))), (el("a"), Some(mid(9))), (el("zz"), None)],
    );
    assert!(!next.is_deleted());
    assert_eq!(names(&next), vec!["a", "c", "d"]);
    assert_eq!(next.lookup(&el("a")), Some(mid(9)));
    assert_eq!(next.lookup(&el("b")), None);
    assert_eq!(next.lookup(&el("c")), Some(mid(3)));
    // the base is left as it was
    assert_eq!(names(&base), vec!["a", "b", "c"]);
    assert_eq!(
        base.clone().into_subentries(),
        vec![(el("a"), mid(1)), (el("b"), mid(2)), (el("c"), mid(3))]
    );
    // of two updates of one name the later one stays
    let twice = DeletedManifest::copy_and_update_subentries(
        None,
        None,
        &vec![(el("a"), Some(mid(1))), (el("a"), None)],
    );
    assert!(twice.is_empty());
}

#[test]
fn the_blob_lists_linknode_count_and_sorted_subentries() {
    let m = DeletedManifest::copy_and_update_subentries(
        None,
        Some(ChangesetId { hash: Blake2 { w0: 1, w1: 2, w2: 3, w3: 4 } }),
        &vec![(el("b"), Some(mid(0x0102))), (el("ab"), Some(mid(7)))],
    );
    let mut expected: Vec<u8> = vec![1];
    for w in [1u64, 2, 3, 4] {
        expected.extend_from_slice(&w.to_le_bytes());
    }
    expected.extend_from_slice(&2u64.to_le_bytes());
    expected.extend_from_slice(&2u64.to_le_bytes());
    expected.extend_from_slice(b"ab");
    for w in [7u64, 0, 0, 0] {
        expected.extend_from_slice(&w.to_le_bytes());
    }
    expected.extend_from_slice(&1u64.to_le_bytes());
    expected.extend_from_slice(b"b");
    for w in [0x0102u64, 0, 0, 0] {
        expected.extend_from_slice(&w.to_le_bytes());
    }
    assert_eq!(m.clone().into_blob(), expected);
    assert_eq!(m.id().hash, Blake2::digest(&expected));
}

#[test]
fn the_hash_is_blake2b_with_32_bytes() {
    // The digest of the empty input, from the reference implementation.
    let expected: [u8; 32] = [
        0x0e, 0x57, 0x51, 0xc0, 0x26, 0xe5, 0x43, 0xb2, 0xe8, 0xab, 0x2e, 0xb0, 0x60, 0x99, 0xda,
        0xa1, 0xd1, 0xe5, 0xdf, 0x47, 0x77, 0x8f, 0x77, 0x87, 0xfa, 0xab, 0x45, 0xcd, 0xf1, 0x2f,
        0xe3, 0xa8,
    ];
    let h = Blake2::digest(&[]);
    assert_eq!(h.to_bytes(), expected.to_vec());
    assert_eq!(Blake2::from_bytes(&expected), h);
    assert_ne!(Blake2::digest(b"a"), h);
}

#[test]
fn equal_nodes_have_equal_identifiers() {
    let a = DeletedManifest::copy_and_update_subentries(
        None,
        Some(cs(1)),
        &vec![(el("x"), Some(mid(1))), (el("y"), Some(mid(2)))],
    );
    let b = DeletedManifest::copy_and_update_subentries(
        None,
        Some(cs(1)),
        &vec![(el("y"), Some(mid(2))), (el("q"), Some(mid(3))), (el("x"), Some(mid(1))), (el("q"), None)],
    );
    assert_eq!(a.id(), b.id());
    let c = DeletedManifest::copy_and_update_subentries(Some(&a), Some(cs(2)), &vec![]);
    assert_ne!(a.id(), c.id());
    let d = DeletedManifest::copy_and_update_subentries(Some(&a), Some(cs(1)), &vec![(el("x"), Some(mid(5)))]);
    assert_ne!(a.id(), d.id());
}

#[test]
fn the_store_holds_each_node_once_and_only_with_what_it_names() {
    let mut store = ManifestStore::new();
    let leaf = DeletedManifest::copy_and_update_subentries(None, Some(cs(1)), &vec![]);
    let leaf_id = leaf.id();
    let dangling = DeletedManifest::copy_and_update_subentries(None, None, &vec![(el("a"), Some(leaf_id))]);
    assert!(!store.resolves(&dangling));
    assert_eq!(store.put(dangling.clone()), None);
    assert_eq!(store.len(), 0);
    assert_eq!(store.put(leaf.clone()), Some(leaf_id));
    assert_eq!(store.put(leaf.clone()), Some(leaf_id));
    assert_eq!(store.len(), 1);
    assert!(store.resolves(&dangling));
    let top = store.put(dangling.clone()).unwrap();
    assert_eq!(store.len(), 2);
    assert_eq!(store.find(top), Some(1));
    assert_eq!(store.find(leaf_id), Some(0));
    assert_eq!(store.id_at(1), top);
    assert_eq!(store.manifest_at(0), &leaf);
    assert_eq!(store.load(top), Some(&dangling));
    assert_eq!(store.load(mid(77)), None);
    let (id, blob) = store.blob_at(1);
    assert_eq!(id, top);
    assert_eq!(blob, dangling.into_blob());
    assert_eq!(DeletedManifestDeriver::save_manifest(leaf, &mut store), leaf_id);
    assert_eq!(store.len(), 2);
}

#[test]
fn parents_agree_when_all_are_deleted_or_none_is() {
    let d1 = DeletedManifest::copy_and_update_subentries(None, Some(cs(1)), &vec![]);
    let d2 = DeletedManifest::copy_and_update_subentries(None, Some(cs(2)), &vec![]);
    let live = DeletedManifest::copy_and_update_subentries(None, None, &vec![(el("a"), Some(mid(1)))]);
    assert_eq!(check_consistency(&vec![]), Some(false));
    assert_eq!(check_consistency(&vec![d1.clone(), d2.clone()]), Some(true));
    assert_eq!(check_consistency(&vec![live.clone(), live.clone()]), Some(false));
    assert_eq!(check_consistency(&vec![d1.clone(), live.clone()]), None);
    assert_eq!(check_consistency(&vec![live, d1, d2]), None);
}

fn unfold(
    change: Option<PathChange>,
    below: bool,
    parents: &Vec<DeletedManifest>,
) -> Result<(DeletedManifestChangeType, bool, Vec<(String, bool, Vec<ManifestId>)>), DeriveError> {
    let mut tree: PathTree<PathChange> = PathTree::new();
    if let Some(c) = change {
        tree = tree.insert(&MPath::from_elements(vec![]), c);
    }
    if below {
        tree = tree.insert(&path("m/n"), PathChange::Add);
    }
    let (change, kids) = DeletedManifestDeriver::do_unfold(Some(&tree), parents)?;
    Ok((
        change.change_type,
        change.copy_subentries_from.is_some(),
        kids.into_iter()
            .map(|k| {
                (
                    String::from_utf8(k.path_element.unwrap().as_bytes().clone()).unwrap(),
                    k.changes.is_some(),
                    k.parents,
                )
            })
            .collect(),
    ))
}

#[test]
fn the_decision_at_a_node_follows_the_change_and_the_parents() {
    let (create, remove, reuse) = (
        DeletedManifestChangeType::CreateDeleted,
        DeletedManifestChangeType::RemoveIfNowEmpty,
        DeletedManifestChangeType::Reuse,
    );
    let d1 = DeletedManifest::copy_and_update_subentries(None, Some(cs(1)), &vec![(el("a"), Some(mid(1)))]);
    let d2 = DeletedManifest::copy_and_update_subentries(
        None,
        Some(cs(2)),
        &vec![(el("a"), Some(mid(1))), (el("m"), Some(mid(2)))],
    );
    let live = DeletedManifest::copy_and_update_subentries(
        None,
        None,
        &vec![(el("a"), Some(mid(3))), (el("z"), Some(mid(4)))],
    );
    let none: Vec<DeletedManifest> = vec![];
    let one = vec![d2.clone()];
    let two_deleted = vec![d1.clone(), d2.clone()];
    let two_live = vec![live.clone(), live.clone()];
    let mixed = vec![d1.clone(), live.clone()];

    // no change here, none below
    assert_eq!(unfold(None, false, &none), Ok((reuse, false, vec![])));
    assert_eq!(unfold(None, false, &one), Ok((reuse, true, vec![])));
    assert_eq!(
        unfold(None, false, &two_deleted),
        Ok((
            create,
            false,
            vec![("a".to_string(), false, vec![mid(1)]), ("m".to_string(), false, vec![mid(2)])]
        ))
    );
    assert_eq!(unfold(None, false, &two_live).unwrap().0, remove);
    assert_eq!(unfold(None, false, &mixed), Err(DeriveError::InconsistentParents));
    // no change here, some below
    assert_eq!(unfold(None, true, &none), Ok((remove, false, vec![("m".to_string(), true, vec![])])));
    assert_eq!(
        unfold(None, true, &one),
        Ok((remove, true, vec![("m".to_string(), true, vec![mid(2)])]))
    );
    assert_eq!(
        unfold(None, true, &mixed),
        Ok((
            remove,
            false,
            vec![
                ("a".to_string(), false, vec![mid(1), mid(3)]),
                ("m".to_string(), true, vec![]),
                ("z".to_string(), false, vec![mid(4)]),
            ]
        ))
    );
    // a change here
    for parents in [&none, &one, &two_deleted, &mixed] {
        for below in [false, true] {
            assert_eq!(unfold(Some(PathChange::Add), below, parents).unwrap().0, remove);
            assert_eq!(unfold(Some(PathChange::Remove), below, parents).unwrap().0, create);
            assert_eq!(unfold(Some(PathChange::FileDirConflict), below, parents).unwrap().0, remove);
            assert_eq!(
                unfold(Some(PathChange::Remove), below, parents).unwrap().1,
                parents.len() == 1
            );
        }
    }
}

#[test]
fn a_node_without_changes_has_no_tree() {
    let d = DeletedManifest::copy_and_update_subentries(None, Some(cs(1)), &vec![]);
    let (change, kids) = DeletedManifestDeriver::do_unfold(None, &vec![d.clone()]).unwrap();
    assert_eq!(change.change_type, DeletedManifestChangeType::Reuse);
    assert_eq!(change.copy_subentries_from, Some(d));
    assert!(kids.is_empty());
}

#[test]
fn the_fold_makes_reuses_or_drops() {
    let base = DeletedManifest::copy_and_update_subentries(None, Some(cs(1)), &vec![(el("a"), Some(mid(1)))]);
    let change = |t, b: Option<&DeletedManifest>| DeletedManifestChange {
        change_type: t,
        copy_subentries_from: b.cloned(),
    };
    match fold_manifest(cs(9), change(DeletedManifestChangeType::Reuse, Some(&base)), &vec![]) {
        Folded::Reused(id) => assert_eq!(id, Some(base.id())),
        _ => panic!("the parent's node is reused"),
    }
    match fold_manifest(cs(9), change(DeletedManifestChangeType::Reuse, None), &vec![]) {
        Folded::Reused(id) => assert_eq!(id, None),
        _ => panic!("nothing to reuse"),
    }
    match fold_manifest(
        cs(9),
        change(DeletedManifestChangeType::CreateDeleted, Some(&base)),
        &vec![(el("b"), Some(mid(2)))],
    ) {
        Folded::Created(m) => {
            assert_eq!(m.linknode(), Some(cs(9)));
            assert_eq!(names(&m), vec!["a", "b"]);
        }
        _ => panic!("a deleted path gets a node"),
    }
    match fold_manifest(cs(9), change(DeletedManifestChangeType::CreateDeleted, None), &vec![]) {
        Folded::Created(m) => {
            assert_eq!(m.linknode(), Some(cs(9)));
            assert!(m.is_empty());
        }
        _ => panic!("a deleted path gets a node"),
    }
    match fold_manifest(
        cs(9),
        change(DeletedManifestChangeType::RemoveIfNowEmpty, Some(&base)),
        &vec![(el("a"), None)],
    ) {
        Folded::Dropped => {}
        _ => panic!("nothing is deleted below"),
    }
    match fold_manifest(cs(9), change(DeletedManifestChangeType::RemoveIfNowEmpty, Some(&base)), &vec![]) {
        Folded::Created(m) => {
            assert_eq!(m.linknode(), None);
            assert_eq!(names(&m), vec!["a"]);
        }
        _ => panic!("something is deleted below"),
    }
}

#[test]
fn do_create_saves_what_the_fold_makes() {
    let mut store = ManifestStore::new();
    let leaf = DeletedManifest::copy_and_update_subentries(None, Some(cs(1)), &vec![]);
    let leaf_id = store.put(leaf).unwrap();
    let change = DeletedManifestChange {
        change_type: DeletedManifestChangeType::RemoveIfNowEmpty,
        copy_subentries_from: None,
    };
    let id = DeletedManifestDeriver::do_create(&mut store, cs(2), change, &vec![(el("f"), Some(leaf_id))]).unwrap();
    assert_eq!(store.len(), 2);
    assert_eq!(store.load(id).unwrap().lookup(&el("f")), Some(leaf_id));
    let change = DeletedManifestChange {
        change_type: DeletedManifestChangeType::RemoveIfNowEmpty,
        copy_subentries_from: None,
    };
    assert_eq!(DeletedManifestDeriver::do_create(&mut store, cs(2), change, &vec![(el("f"), None)]), None);
    assert_eq!(store.len(), 2);
}

#[test]
fn results_below_the_root_need_a_path() {
    let ok = collect_subentries(vec![(Some(el("a")), Some(mid(1))), (Some(el("b")), None)]);
    assert_eq!(ok, Ok(vec![(el("a"), Some(mid(1))), (el("b"), None)]));
    let bad = collect_subentries(vec![(Some(el("a")), Some(mid(1))), (None, Some(mid(2)))]);
    assert_eq!(bad, Err(DeriveError::SubentryWithoutPath));
}

#[test]
fn differences_to_several_parents_are_gathered_path_by_path() {
    let diffs = vec![
        vec![
            Diff::Changed(None),
            Diff::Added(Some(path("a"))),
            Diff::Removed(Some(path("x"))),
            Diff::Changed(Some(path("c"))),
            Diff::Removed(Some(path("d/e"))),
            Diff::Added(None),
        ],
        vec![
            Diff::Added(Some(path("x"))),
            Diff::Added(Some(path("a"))),
            Diff::Removed(Some(path("d/e"))),
            Diff::Removed(Some(path("a"))),
            Diff::Added(Some(path("x"))),
            Diff::Removed(None),
        ],
    ];
    assert_eq!(
        diff_against_parents(&diffs),
        vec![
            (path("a"), PathChange::FileDirConflict),
            (path("d/e"), PathChange::Remove),
            (path("x"), PathChange::FileDirConflict),
        ]
    );
    assert_eq!(diff_against_parents(&vec![]), vec![]);
}

#[test]
fn gathered_changes_ascend_by_path() {
    // descending paths come out ascending
    let diffs = vec![vec![
        Diff::Added(Some(path("dir/f-2"))),
        Diff::Added(Some(path("dir-2"))),
        Diff::Removed(Some(path("dir/sub/f"))),
        Diff::Added(Some(path("dir"))),
        Diff::Added(Some(path("b"))),
        Diff::Added(Some(path("a"))),
    ]];
    let gathered = diff_against_parents(&diffs);
    assert_eq!(
        gathered,
        vec![
            (path("a"), PathChange::Add),
            (path("b"), PathChange::Add),
            (path("dir"), PathChange::Add),
            (path("dir/f-2"), PathChange::Add),
            (path("dir/sub/f"), PathChange::Remove),
            (path("dir-2"), PathChange::Add),
        ]
    );
    // as a map ordered by path hands them out
    let mut sorted = gathered.clone();
    sorted.sort_by(|a, b| a.0.cmp(&b.0));
    assert_eq!(gathered, sorted);
    assert_eq!(path("dir").order(&path("dir/f-2")), Order::Less);
    assert_eq!(path("dir/f-2").order(&path("dir-2")), Order::Less);
    assert_eq!(path("dir-2").order(&path("dir")), Order::Greater);
    assert_eq!(path("a/b").order(&path("a/b")), Order::Equal);
}

#[test]
fn gathered_changes_do_not_depend_on_the_order_of_the_differences() {
    let one = || {
        vec![
            Diff::Added(Some(path("b"))),
            Diff::Removed(Some(path("c/d"))),
            Diff::Added(Some(path("a"))),
        ]
    };
    let two = || vec![Diff::Added(Some(path("c/d"))), Diff::Removed(Some(path("z")))];
    let swapped = vec![
        Diff::Added(Some(path("a"))),
        Diff::Added(Some(path("b"))),
        Diff::Removed(Some(path("c/d"))),
    ];
    let expected = vec![
        (path("a"), PathChange::Add),
        (path("b"), PathChange::Add),
        (path("c/d"), PathChange::FileDirConflict),
        (path("z"), PathChange::Remove),
    ];
    assert_eq!(diff_against_parents(&vec![one(), two()]), expected);
    assert_eq!(diff_against_parents(&vec![two(), one()]), expected);
    assert_eq!(diff_against_parents(&vec![swapped, two()]), expected);
}

#[test]
fn the_path_without_elements_is_the_root_and_changes_nothing() {
    let root = || MPath::from_elements(vec![]);
    let diffs = vec![vec![
        Diff::Added(Some(root())),
        Diff::Removed(Some(root())),
        Diff::Added(None),
        Diff::Added(Some(path("a"))),
    ]];
    assert_eq!(diff_against_parents(&diffs), vec![(path("a"), PathChange::Add)]);
    let tree = get_changes(ChangesetDiff::Root(vec![None, Some(root()), Some(path("a"))]));
    assert_eq!(*tree.value(), None);
    assert_eq!(tree.len(), 1);
    let tree = get_changes(ChangesetDiff::Parents(diffs));
    assert_eq!(*tree.value(), None);
    assert_eq!(tree.len(), 1);
    assert_eq!(*tree.child(0).value(), Some(PathChange::Add));
}
