use std::collections::{BTreeMap, BTreeSet};

use deleted_files_manifest::changes::{get_changes, ChangesetDiff, Diff, PathChange};
use deleted_files_manifest::derive::{DeletedManifestDeriver, DeriveError};
use deleted_files_manifest::hash::{Blake2, ChangesetId, ManifestId};
use deleted_files_manifest::path::{MPath, PathElement};
use deleted_files_manifest::store::ManifestStore;

#[derive(Debug, Clone, PartialEq, Eq)]
enum Status {
    Deleted(ChangesetId),
    Live,
}

type Files = BTreeMap<String, String>;

struct Repo {
    store: ManifestStore,
    files: BTreeMap<ChangesetId, Files>,
    roots: BTreeMap<ChangesetId, ManifestId>,
    next: u64,
}

fn path(s: &str) -> MPath {
    MPath::from_elements(
        s.split('/')
            .map(|e| PathElement::new(e.as_bytes().to_vec()).unwrap())
            .collect(),
    )
}

fn key(s: &str) -> Vec<Vec<u8>> {
    s.split('/').map(|e| e.as_bytes().to_vec()).collect()
}

/// The files and directories of a tree, each with whether it is a directory.
fn entries(files: &Files) -> BTreeSet<(Vec<Vec<u8>>, bool)> {
    let mut out = BTreeSet::new();
    for name in files.keys() {
        let k = key(name);
        for n in 1..k.len() {
            out.insert((k[..n].to_vec(), true));
        }
        out.insert((k, false));
    }
    out
}

fn to_mpath(k: &[Vec<u8>]) -> MPath {
    MPath::from_elements(k.iter().map(|e| PathElement::new(e.clone()).unwrap()).collect())
}

fn diff(parent: &Files, child: &Files) -> Vec<Diff> {
    let p = entries(parent);
    let c = entries(child);
    let mut out = vec![Diff::Changed(None)];
    for (k, _) in c.difference(&p) {
        out.push(Diff::Added(Some(to_mpath(k))));
    }
    for (k, _) in p.difference(&c) {
        out.push(Diff::Removed(Some(to_mpath(k))));
    }
    out
}

impl Repo {
    fn new() -> Repo {
        Repo { store: ManifestStore::new(), files: BTreeMap::new(), roots: BTreeMap::new(), next: 1 }
    }

    fn commit(&mut self, parents: &[ChangesetId], changes: &[(&str, Option<&str>)]) -> ChangesetId {
        let cs = ChangesetId { hash: Blake2 { w0: self.next, w1: 0, w2: 0, w3: 7 } };
        self.next += 1;
        let mut files = Files::new();
        for p in parents {
            for (k, v) in &self.files[p] {
                files.entry(k.clone()).or_insert_with(|| v.clone());
            }
        }
        for (name, content) in changes {
            match content {
                Some(c) => {
                    let below = format!("{}/", name);
                    files.retain(|k, _| !k.starts_with(&below));
                    let k = key(name);
                    for n in 1..k.len() {
                        let above: Vec<String> =
                            k[..n].iter().map(|e| String::from_utf8(e.clone()).unwrap()).collect();
                        files.remove(&above.join("/"));
                    }
                    files.insert(name.to_string(), c.to_string());
                }
                None => {
                    files.remove(*name);
                }
            }
        }
        let diff = if parents.is_empty() {
            let mut all = vec![None];
            for (k, _) in entries(&files) {
                all.push(Some(to_mpath(&k)));
            }
            ChangesetDiff::Root(all)
        } else {
            ChangesetDiff::Parents(parents.iter().map(|p| diff(&self.files[p], &files)).collect())
        };
        let tree = get_changes(diff);
        let parent_roots = parents.iter().map(|p| self.roots[p]).collect();
        let root = DeletedManifestDeriver::derive(&mut self.store, cs, parent_roots, tree).unwrap();
        assert!(self.store.load(root).is_some());
        self.files.insert(cs, files);
        self.roots.insert(cs, root);
        cs
    }

    fn nodes(&self, cs: ChangesetId) -> Vec<(Option<MPath>, Status)> {
        let mut out: Vec<(Vec<Vec<u8>>, Status)> = Vec::new();
        let mut todo = vec![(Vec::new(), self.roots[&cs])];
        while let Some((at, id)) = todo.pop() {
            let m = self.store.load(id).unwrap();
            let status = match m.linknode() {
                Some(c) => Status::Deleted(c),
                None => Status::Live,
            };
            for (name, sub) in m.subentries() {
                let mut below: Vec<Vec<u8>> = at.clone();
                below.push(name.as_bytes().clone());
                todo.push((below, *sub));
            }
            out.push((at, status));
        }
        out.sort_by(|a, b| a.0.cmp(&b.0));
        out.into_iter()
            .map(|(k, s)| (if k.is_empty() { None } else { Some(to_mpath(&k)) }, s))
            .collect()
    }
}

#[test]
fn linear_test() {
    // Test simple separate files and whole dir deletions
    let mut repo = Repo::new();

    // create parent deleted files manifest
    let bcs_id_1 = {
        let bcs_id = repo.commit(
            &[],
            &[
                ("file.txt", Some("1\n")),
                ("file-2.txt", Some("2\n")),
                ("dir/sub/f-1", Some("3\n")),
                ("dir/f-2", Some("4\n")),
                ("dir-2/sub/f-3", Some("5\n")),
                ("dir-2/f-4", Some("6\n")),
            ],
        );
        // nothing was deleted yet
        let expected_nodes = vec![(None, Status::Live)];
        assert_eq!(repo.nodes(bcs_id), expected_nodes);
        bcs_id
    };

    // delete some files and dirs
    let bcs_id_2 = {
        let bcs_id = repo.commit(
            &[bcs_id_1],
            &[
                ("file.txt", None),
                ("file-2.txt", Some("2\n2\n")),
                ("file-3.txt", Some("3\n3\n")),
                ("dir/sub/f-1", None),
                ("dir/f-2", None),
                ("dir-2/sub/f-3", None),
            ],
        );
        let expected_nodes = vec![
            (None, Status::Live),
            (Some(path("dir")), Status::Deleted(bcs_id)),
            (Some(path("dir/f-2")), Status::Deleted(bcs_id)),
            (Some(path("dir/sub")), Status::Deleted(bcs_id)),
            (Some(path("dir/sub/f-1")), Status::Deleted(bcs_id)),
            (Some(path("dir-2")), Status::Live),
            (Some(path("dir-2/sub")), Status::Deleted(bcs_id)),
            (Some(path("dir-2/sub/f-3")), Status::Deleted(bcs_id)),
            (Some(path("file.txt")), Status::Deleted(bcs_id)),
        ];
        assert_eq!(repo.nodes(bcs_id), expected_nodes);
        bcs_id
    };

    // reincarnate file and directory
    let bcs_id_3 = {
        let bcs_id = repo.commit(
            &[bcs_id_2],
            &[
                ("file.txt", Some("1\n1\n1\n")),
                ("file-2.txt", None),
                ("dir/sub/f-4", Some("4\n4\n4\n")),
            ],
        );
        let expected_nodes = vec![
            (None, Status::Live),
            (Some(path("dir")), Status::Live),
            (Some(path("dir/f-2")), Status::Deleted(bcs_id_2)),
            (Some(path("dir/sub")), Status::Live),
            (Some(path("dir/sub/f-1")), Status::Deleted(bcs_id_2)),
            (Some(path("dir-2")), Status::Live),
            (Some(path("dir-2/sub")), Status::Deleted(bcs_id_2)),
            (Some(path("dir-2/sub/f-3")), Status::Deleted(bcs_id_2)),
            (Some(path("file-2.txt")), Status::Deleted(bcs_id)),
        ];
        assert_eq!(repo.nodes(bcs_id), expected_nodes);
        bcs_id
    };

    // reincarnate file as dir and dir as file
    let bcs_id_4 = {
        let bcs_id = repo.commit(
            &[bcs_id_3],
            &[
                // file as dir
                ("file-2.txt/subfile.txt", Some("2\n2\n1\n")),
                // dir as file
                ("dir-2/sub", Some("file now!\n")),
            ],
        );
        let expected_nodes = vec![
            (None, Status::Live),
            (Some(path("dir")), Status::Live),
            (Some(path("dir/f-2")), Status::Deleted(bcs_id_2)),
            (Some(path("dir/sub")), Status::Live),
            (Some(path("dir/sub/f-1")), Status::Deleted(bcs_id_2)),
            (Some(path("dir-2")), Status::Live),
            (Some(path("dir-2/sub")), Status::Live),
            (Some(path("dir-2/sub/f-3")), Status::Deleted(bcs_id_2)),
        ];
        assert_eq!(repo.nodes(bcs_id), expected_nodes);
        bcs_id
    };

    // delete everything
    {
        let bcs_id = repo.commit(
            &[bcs_id_4],
            &[
                ("file.txt", None),
                ("file-2.txt/subfile.txt", None),
                ("file-3.txt", None),
                ("dir-2/f-4", None),
                ("dir-2/sub", None),
                ("dir/sub/f-4", None),
            ],
        );
        let expected_nodes = vec![
            (None, Status::Live),
            (Some(path("dir")), Status::Deleted(bcs_id)),
            (Some(path("dir/f-2")), Status::Deleted(bcs_id_2)),
            (Some(path("dir/sub")), Status::Deleted(bcs_id)),
            (Some(path("dir/sub/f-1")), Status::Deleted(bcs_id_2)),
            (Some(path("dir/sub/f-4")), Status::Deleted(bcs_id)),
            (Some(path("dir-2")), Status::Deleted(bcs_id)),
            (Some(path("dir-2/f-4")), Status::Deleted(bcs_id)),
            (Some(path("dir-2/sub")), Status::Deleted(bcs_id)),
            (Some(path("dir-2/sub/f-3")), Status::Deleted(bcs_id_2)),
            (Some(path("file-2.txt")), Status::Deleted(bcs_id)),
            (Some(path("file-2.txt/subfile.txt")), Status::Deleted(bcs_id)),
            (Some(path("file-3.txt")), Status::Deleted(bcs_id)),
            (Some(path("file.txt")), Status::Deleted(bcs_id)),
        ];
        assert_eq!(repo.nodes(bcs_id), expected_nodes);
    };
}

#[test]
fn merged_history_test() {
    //
    //  N
    //  | \
    //  K  M
    //  |  |
    //  J  L
    //  | /
    //  I
    //  | \
    //  |  H
    //  |  |
    //  |  G
    //  |  | \
    //  |  D  F
    //  |  |  |
    //  B  C  E
    //  | /
    //  A
    //
    let mut repo = Repo::new();

    let a = repo.commit(
        &[],
        &[
            ("file", Some("1")),
            ("dir/file", Some("2")),
            ("dir_2/file", Some("3")),
            ("dir_3/file_1", Some("1")),
            ("dir_3/file_2", Some("2")),
        ],
    );

    let b = repo.commit(
        &[a],
        &[
            ("file", None),
            ("dir/file", None),
            ("dir_3/file_1", None),
            ("dir/file_2", Some("file->file_2")),
        ],
    );
    let expected_nodes = vec![
        (None, Status::Live),
        (Some(path("dir")), Status::Live),
        (Some(path("dir/file")), Status::Deleted(b)),
        (Some(path("dir_3")), Status::Live),
        (Some(path("dir_3/file_1")), Status::Deleted(b)),
        (Some(path("file")), Status::Deleted(b)),
    ];
    assert_eq!(repo.nodes(b), expected_nodes);

    let c = repo.commit(&[a], &[("file", Some("1->2"))]);

    let d = repo.commit(&[c], &[("dir/file", None), ("dir_2/file", None)]);
    let expected_nodes = vec![
        (None, Status::Live),
        (Some(path("dir")), Status::Deleted(d)),
        (Some(path("dir/file")), Status::Deleted(d)),
        (Some(path("dir_2")), Status::Deleted(d)),
        (Some(path("dir_2/file")), Status::Deleted(d)),
    ];
    assert_eq!(repo.nodes(d), expected_nodes);

    let e = repo.commit(&[], &[("file", Some("3")), ("dir_2/file", Some("4"))]);

    let f = repo.commit(&[e], &[("file", None), ("dir_2/file", Some("4->5"))]);

    // first merge commit:
    // * dir_2/file - was deleted in branch D and modified in F, merge commit
    //   accepts modification. It means the file must be restored.
    // * file - was changed in branch D and deleted in F, merge commit accepts
    //   deletion. It means new deleted manifest node must be created and must
    //   point to the merge commit.
    // * dir/file - existed and was deleted in the one branch and never
    //   existed in the other, but still must be discoverable.
    let g = repo.commit(
        &[d, f],
        &[
            ("file", None),
            ("dir_2/file", Some("4->5")),
            ("dir_2/file_2", Some("5")),
        ],
    );
    let expected_nodes = vec![
        (None, Status::Live),
        (Some(path("dir")), Status::Deleted(d)),
        (Some(path("dir/file")), Status::Deleted(d)),
        (Some(path("file")), Status::Deleted(g)),
    ];
    assert_eq!(repo.nodes(g), expected_nodes);

    let h = repo.commit(
        &[g],
        &[
            ("dir_3/file_2", None),
            ("dir_2/file", Some("4->5")),
            ("dir_2/file_2", Some("5")),
        ],
    );
    let expected_nodes = vec![
        (None, Status::Live),
        (Some(path("dir")), Status::Deleted(d)),
        (Some(path("dir/file")), Status::Deleted(d)),
        (Some(path("dir_3")), Status::Live),
        (Some(path("dir_3/file_2")), Status::Deleted(h)),
        (Some(path("file")), Status::Deleted(g)),
    ];
    assert_eq!(repo.nodes(h), expected_nodes);

    // second merge commit
    // * dir/file - is deleted in both branches, new manifest node must
    //   have linknode pointed to the merge commit
    // * file - same as for dir/file
    // * dir - still exists because of dir/file_2
    let i = repo.commit(
        &[b, h],
        &[
            ("dir_3/file_1", None),
            ("dir_3/file_2", None),
            ("dir_2/file", Some("4->5")),
            ("dir_5/file_1", Some("5.1")),
            ("dir_5/file_2", Some("5.2")),
        ],
    );
    let expected_nodes = vec![
        (None, Status::Live),
        (Some(path("dir")), Status::Live),
        (Some(path("dir/file")), Status::Deleted(i)),
        (Some(path("dir_3")), Status::Deleted(i)),
        (Some(path("dir_3/file_1")), Status::Deleted(i)),
        (Some(path("dir_3/file_2")), Status::Deleted(i)),
        (Some(path("file")), Status::Deleted(i)),
    ];
    assert_eq!(repo.nodes(i), expected_nodes);

    // this commit creates a file in a new dir
    // and deletes one of the dir_5 files
    let j = repo.commit(&[i], &[("dir_5/file_1", None), ("dir_4/file_1", Some("new"))]);

    // this commit deletes the file created in its parent j
    // and adds a new file and dir
    let k = repo.commit(
        &[j],
        &[("dir_4/file_1", None), ("dir_to_file/file", Some("will be replaced"))],
    );

    // this commit creates a file in the same dir as the other branch
    // and deletes one of the dir_5 files
    let l = repo.commit(&[i], &[("dir_5/file_2", None), ("dir_4/file_2", Some("new"))]);

    // this commit deletes the file created in its parent l
    let m = repo.commit(&[l], &[("dir_4/file_2", None)]);

    // third merge commit
    let n = repo.commit(
        &[k, m],
        &[
            ("dir_5/file_1", None),
            ("dir_5/file_2", None),
            ("dir_to_file", Some("replaced!")),
        ],
    );
    let expected_nodes = vec![
        (None, Status::Live),
        (Some(path("dir")), Status::Live),
        (Some(path("dir/file")), Status::Deleted(i)),
        (Some(path("dir_3")), Status::Deleted(i)),
        (Some(path("dir_3/file_1")), Status::Deleted(i)),
        (Some(path("dir_3/file_2")), Status::Deleted(i)),
        (Some(path("dir_4")), Status::Deleted(n)),
        (Some(path("dir_4/file_1")), Status::Deleted(k)),
        (Some(path("dir_4/file_2")), Status::Deleted(m)),
        (Some(path("dir_5")), Status::Deleted(n)),
        (Some(path("dir_5/file_1")), Status::Deleted(n)),
        (Some(path("dir_5/file_2")), Status::Deleted(n)),
        (Some(path("dir_to_file")), Status::Live),
        (Some(path("dir_to_file/file")), Status::Deleted(n)),
        (Some(path("file")), Status::Deleted(i)),
    ];
    assert_eq!(repo.nodes(n), expected_nodes);
}

fn status_at(nodes: &[(Option<MPath>, Status)], p: &str) -> Option<Status> {
    let want = Some(path(p));
    nodes.iter().find(|(q, _)| *q == want).map(|(_, s)| s.clone())
}

fn id_at(repo: &Repo, cs: ChangesetId, p: &str) -> Option<ManifestId> {
    let mut id = repo.roots[&cs];
    for e in key(p) {
        let name = PathElement::new(e).unwrap();
        id = repo.store.load(id).unwrap().lookup(&name)?;
    }
    Some(id)
}

#[test]
fn zero_parents_without_deletions_gives_the_empty_root() {
    let mut repo = Repo::new();
    let a = repo.commit(&[], &[("file", Some("1")), ("dir/file", Some("2"))]);
    assert_eq!(repo.nodes(a), vec![(None, Status::Live)]);
    let root = repo.store.load(repo.roots[&a]).unwrap();
    assert!(root.is_empty());
    assert!(!root.is_deleted());
    assert_eq!(repo.store.len(), 1);
}

#[test]
fn simple_delete_makes_two_nodes() {
    let mut repo = Repo::new();
    let p = repo.commit(&[], &[("file.txt", Some("1")), ("dir/f-1", Some("2"))]);
    let before = repo.store.len();
    let c1 = repo.commit(&[p], &[("file.txt", None)]);
    assert_eq!(
        repo.nodes(c1),
        vec![(None, Status::Live), (Some(path("file.txt")), Status::Deleted(c1))]
    );
    assert_eq!(repo.store.len(), before + 2);
}

#[test]
fn directory_delete_marks_the_directory_and_its_files() {
    let mut repo = Repo::new();
    let p = repo.commit(&[], &[("dir/a", Some("1")), ("dir/b", Some("2")), ("keep", Some("3"))]);
    let c2 = repo.commit(&[p], &[("dir/a", None), ("dir/b", None)]);
    assert_eq!(
        repo.nodes(c2),
        vec![
            (None, Status::Live),
            (Some(path("dir")), Status::Deleted(c2)),
            (Some(path("dir/a")), Status::Deleted(c2)),
            (Some(path("dir/b")), Status::Deleted(c2)),
        ]
    );
}

#[test]
fn reincarnation_restores_the_path_and_keeps_its_siblings() {
    let mut repo = Repo::new();
    let p = repo.commit(&[], &[("dir/a", Some("1")), ("dir/b", Some("2")), ("keep", Some("3"))]);
    let c2 = repo.commit(&[p], &[("dir/a", None), ("dir/b", None)]);
    let c3 = repo.commit(&[c2], &[("dir/a", Some("1 again"))]);
    let nodes = repo.nodes(c3);
    assert_eq!(
        nodes,
        vec![
            (None, Status::Live),
            (Some(path("dir")), Status::Live),
            (Some(path("dir/b")), Status::Deleted(c2)),
        ]
    );
    assert_eq!(status_at(&nodes, "dir/a"), None);
    assert_ne!(id_at(&repo, c3, "dir"), id_at(&repo, c2, "dir"));
    assert_eq!(id_at(&repo, c3, "dir/b"), id_at(&repo, c2, "dir/b"));
}

#[test]
fn reincarnation_of_the_last_deleted_path_drops_the_node() {
    let mut repo = Repo::new();
    let p = repo.commit(&[], &[("dir/a", Some("1")), ("keep", Some("3"))]);
    let c2 = repo.commit(&[p], &[("dir/a", None)]);
    assert_eq!(status_at(&repo.nodes(c2), "dir"), Some(Status::Deleted(c2)));
    let c3 = repo.commit(&[c2], &[("dir/a", Some("back"))]);
    assert_eq!(repo.nodes(c3), vec![(None, Status::Live)]);
    assert_eq!(repo.roots[&c3], repo.roots[&p]);
}

#[test]
fn file_replaced_by_directory_is_a_conflict_and_stays_live() {
    let mut repo = Repo::new();
    let p = repo.commit(&[], &[("x/old", Some("1")), ("x/other", Some("1")), ("keep", Some("3"))]);
    let c1 = repo.commit(&[p], &[("x/old", None), ("x/other", None)]);
    assert_eq!(status_at(&repo.nodes(c1), "x"), Some(Status::Deleted(c1)));
    let c2 = repo.commit(&[c1], &[("x", Some("a file now"))]);
    assert_eq!(status_at(&repo.nodes(c2), "x"), Some(Status::Live));
    let c4 = repo.commit(&[c2], &[("x/y", Some("a directory again"))]);
    let nodes = repo.nodes(c4);
    assert_eq!(
        nodes,
        vec![
            (None, Status::Live),
            (Some(path("x")), Status::Live),
            (Some(path("x/old")), Status::Deleted(c1)),
            (Some(path("x/other")), Status::Deleted(c1)),
        ]
    );

    let d = diff(&repo.files[&c2], &repo.files[&c4]);
    let tree = get_changes(ChangesetDiff::Parents(vec![d]));
    assert_eq!(tree.len(), 1);
    assert_eq!(tree.name(0).as_bytes(), &b"x".to_vec());
    assert_eq!(*tree.child(0).value(), Some(PathChange::FileDirConflict));
    assert_eq!(*tree.child(0).child(0).value(), Some(PathChange::Add));
}

#[test]
fn merge_of_agreeing_parents_reuses_the_subtree() {
    let mut repo = Repo::new();
    let base = repo.commit(
        &[],
        &[("p/f", Some("1")), ("r1", Some("1")), ("r2", Some("2")), ("keep", Some("3"))],
    );
    let c0 = repo.commit(&[base], &[("p/f", None)]);
    let b1 = repo.commit(&[c0], &[("r1", None)]);
    let b2 = repo.commit(&[c0], &[("r2", None)]);
    assert_ne!(repo.roots[&b1], repo.roots[&b2]);
    assert_eq!(id_at(&repo, b1, "p"), id_at(&repo, b2, "p"));
    let before = repo.store.len();
    // Both parents record p as deleted by c0, and the merge says nothing of p.
    let m = repo.commit(&[b1, b2], &[]);
    assert_eq!(id_at(&repo, m, "p"), id_at(&repo, c0, "p"));
    assert_eq!(
        repo.nodes(m),
        vec![
            (None, Status::Live),
            (Some(path("p")), Status::Deleted(c0)),
            (Some(path("p/f")), Status::Deleted(c0)),
        ]
    );
    assert_eq!(repo.roots[&m], repo.roots[&c0]);
    assert_eq!(repo.store.len(), before);

    // A merge that removes what each parent still had: the two paths are
    // deleted by the merge, and p is untouched.
    let n = repo.commit(&[b1, b2], &[("r1", None), ("r2", None)]);
    assert_eq!(id_at(&repo, n, "p"), id_at(&repo, c0, "p"));
    assert_eq!(status_at(&repo.nodes(n), "p"), Some(Status::Deleted(c0)));
    assert_eq!(status_at(&repo.nodes(n), "r1"), Some(Status::Deleted(n)));
    assert_eq!(status_at(&repo.nodes(n), "r2"), Some(Status::Deleted(n)));
    assert_eq!(id_at(&repo, n, "r1"), id_at(&repo, n, "r2"));
    assert_eq!(repo.store.len(), before + 2);
}

#[test]
fn merge_of_disagreeing_parents_without_changes_fails() {
    let mut repo = Repo::new();
    let base = repo.commit(&[], &[("p/f", Some("1")), ("p/g", Some("1")), ("keep", Some("3"))]);
    let deleted = repo.commit(&[base], &[("p/f", None), ("p/g", None)]);
    let live = repo.commit(&[base], &[("p/f", None)]);
    assert_eq!(status_at(&repo.nodes(deleted), "p"), Some(Status::Deleted(deleted)));
    assert_eq!(status_at(&repo.nodes(live), "p"), Some(Status::Live));

    // The changes say nothing of p: nothing decides between the parents.
    let cs = ChangesetId { hash: Blake2 { w0: 100, w1: 0, w2: 0, w3: 7 } };
    let parents = vec![repo.roots[&deleted], repo.roots[&live]];
    let changes = get_changes(ChangesetDiff::Parents(vec![
        vec![Diff::Added(Some(path("new")))],
        vec![Diff::Added(Some(path("new")))],
    ]));
    let before = repo.store.len();
    let r = DeletedManifestDeriver::derive(&mut repo.store, cs, parents, changes);
    assert_eq!(r, Err(DeriveError::InconsistentParents));
    assert!(repo.store.len() >= before);
}

#[test]
fn merge_of_disagreeing_parents_with_a_change_keeps_what_is_deleted_below() {
    let mut repo = Repo::new();
    let base = repo.commit(&[], &[("p/f", Some("1")), ("p/g", Some("1")), ("keep", Some("3"))]);
    let deleted = repo.commit(&[base], &[("p/f", None), ("p/g", None)]);
    let live = repo.commit(&[base], &[("p/f", None)]);
    // The merge keeps the directory: p/g is there, p/f is not.
    let m = repo.commit(&[deleted, live], &[("p/g", Some("1"))]);
    assert_eq!(
        repo.nodes(m),
        vec![
            (None, Status::Live),
            (Some(path("p")), Status::Live),
            (Some(path("p/f")), Status::Deleted(m)),
        ]
    );
    // The merge restores all of it: nothing is left to record.
    let all = repo.commit(&[deleted, live], &[("p/g", Some("1")), ("p/f", Some("1"))]);
    assert_eq!(repo.nodes(all), vec![(None, Status::Live)]);
}

#[test]
fn deriving_again_gives_the_same_root_and_puts_nothing() {
    let mut repo = Repo::new();
    let p = repo.commit(&[], &[("dir/a", Some("1")), ("dir/b", Some("2")), ("keep", Some("3"))]);
    let cs = ChangesetId { hash: Blake2 { w0: 50, w1: 0, w2: 0, w3: 7 } };
    let mut files = repo.files[&p].clone();
    files.remove("dir/a");
    let parents = vec![repo.roots[&p]];
    let first = DeletedManifestDeriver::derive(
        &mut repo.store,
        cs,
        parents.clone(),
        get_changes(ChangesetDiff::Parents(vec![diff(&repo.files[&p], &files)])),
    )
    .unwrap();
    let len = repo.store.len();
    let second = DeletedManifestDeriver::derive(
        &mut repo.store,
        cs,
        parents,
        get_changes(ChangesetDiff::Parents(vec![diff(&repo.files[&p], &files)])),
    )
    .unwrap();
    assert_eq!(first, second);
    assert_eq!(repo.store.len(), len);
}

#[test]
fn a_parent_listed_twice_counts_once() {
    let mut repo = Repo::new();
    let p = repo.commit(&[], &[("a", Some("1")), ("b", Some("2"))]);
    let c = repo.commit(&[p], &[("a", None)]);
    let cs = ChangesetId { hash: Blake2 { w0: 60, w1: 0, w2: 0, w3: 7 } };
    let root = repo.roots[&c];
    let r = DeletedManifestDeriver::derive(
        &mut repo.store,
        cs,
        vec![root, root],
        get_changes(ChangesetDiff::Parents(vec![vec![], vec![]])),
    );
    assert_eq!(r, Ok(root));
}

#[test]
fn a_parent_that_is_not_in_the_store_is_missing() {
    let mut store = ManifestStore::new();
    let cs = ChangesetId { hash: Blake2 { w0: 1, w1: 0, w2: 0, w3: 7 } };
    let unknown = ManifestId { hash: Blake2 { w0: 9, w1: 9, w2: 9, w3: 9 } };
    let r = DeletedManifestDeriver::derive(
        &mut store,
        cs,
        vec![unknown],
        get_changes(ChangesetDiff::Parents(vec![vec![]])),
    );
    assert_eq!(r, Err(DeriveError::MissingManifest));
    assert_eq!(store.len(), 0);
}

#[test]
fn every_node_below_a_root_has_a_linknode_or_subentries() {
    let mut repo = Repo::new();
    let a = repo.commit(&[], &[("d/x", Some("1")), ("d/y", Some("2")), ("e/z", Some("3"))]);
    let b = repo.commit(&[a], &[("d/x", None), ("e/z", None)]);
    let c = repo.commit(&[b], &[("d/x", Some("1")), ("d/y", None)]);
    let d = repo.commit(&[c], &[("e/z", Some("3"))]);
    for cs in [a, b, c, d] {
        let root = repo.roots[&cs];
        let mut todo = vec![root];
        while let Some(id) = todo.pop() {
            let m = repo.store.load(id).unwrap();
            assert!(id == root || m.is_deleted() || !m.is_empty());
            for (_, sub) in m.subentries() {
                todo.push(*sub);
            }
        }
    }
}

#[test]
fn many_file_dirs_test() {
    let mut repo = Repo::new();
    let mut commits: BTreeMap<&str, ChangesetId> = BTreeMap::new();

    let mf_1 = {
        let hg_cs = "5a28e25f924a5d209b82ce0713d8d83e68982bc8";
        let bcs = repo.commit(&[], &[("1", Some("1\n"))]);
        commits.insert(hg_cs, bcs);
        // nothing was deleted yet
        let expected_nodes = vec![(None, Status::Live)];
        assert_eq!(repo.nodes(bcs), expected_nodes);
        bcs
    };

    let mf_2 = {
        let hg_cs = "2f866e7e549760934e31bf0420a873f65100ad63";
        let bcs = repo.commit(
            &[mf_1],
            &[
                ("2", Some("2\n")),
                ("dir1/file_1_in_dir1", Some("content1\n")),
                ("dir1/file_2_in_dir1", Some("content2\n")),
                ("dir1/subdir1/file_1", Some("content3\n")),
                ("dir2/file_1_in_dir2", Some("content4\n")),
            ],
        );
        commits.insert(hg_cs, bcs);
        // nothing was deleted yet
        let expected_nodes = vec![(None, Status::Live)];
        assert_eq!(repo.nodes(bcs), expected_nodes);
        bcs
    };

    let mf_3 = {
        let hg_cs = "d261bc7900818dea7c86935b3fb17a33b2e3a6b4";
        let bcs = repo.commit(
            &[mf_2],
            &[
                ("3", Some("3\n")),
                ("dir1/subdir1/subsubdir1/file_1", Some("content5\n")),
                ("dir1/subdir1/subsubdir2/file_1", Some("content6\n")),
                ("dir1/subdir1/subsubdir2/file_2", Some("content7\n")),
            ],
        );
        commits.insert(hg_cs, bcs);
        // nothing was deleted yet
        let expected_nodes = vec![(None, Status::Live)];
        assert_eq!(repo.nodes(bcs), expected_nodes);
        bcs
    };

    {
        let hg_cs = "051946ed218061e925fb120dac02634f9ad40ae2";
        let bcs_id = repo.commit(&[mf_3], &[("dir1", Some("dir1 is a file now\n"))]);
        commits.insert(hg_cs, bcs_id);

        let expected_nodes = vec![
            (None, Status::Live),
            (Some(path("dir1")), Status::Live),
            (Some(path("dir1/file_1_in_dir1")), Status::Deleted(bcs_id)),
            (Some(path("dir1/file_2_in_dir1")), Status::Deleted(bcs_id)),
            (Some(path("dir1/subdir1")), Status::Deleted(bcs_id)),
            (Some(path("dir1/subdir1/file_1")), Status::Deleted(bcs_id)),
            (Some(path("dir1/subdir1/subsubdir1")), Status::Deleted(bcs_id)),
            (Some(path("dir1/subdir1/subsubdir1/file_1")), Status::Deleted(bcs_id)),
            (Some(path("dir1/subdir1/subsubdir2")), Status::Deleted(bcs_id)),
            (Some(path("dir1/subdir1/subsubdir2/file_1")), Status::Deleted(bcs_id)),
            (Some(path("dir1/subdir1/subsubdir2/file_2")), Status::Deleted(bcs_id)),
        ];
        assert_eq!(repo.nodes(bcs_id), expected_nodes);
    };
    assert_eq!(commits.len(), 4);
}

#[test]
fn an_unknown_parent_beside_a_known_one_is_missing() {
    let mut repo = Repo::new();
    let p = repo.commit(&[], &[("a", Some("1"))]);
    let cs = ChangesetId { hash: Blake2 { w0: 70, w1: 0, w2: 0, w3: 7 } };
    let unknown = ManifestId { hash: Blake2 { w0: 9, w1: 9, w2: 9, w3: 9 } };
    let before = repo.store.len();
    let r = DeletedManifestDeriver::derive(
        &mut repo.store,
        cs,
        vec![repo.roots[&p], unknown],
        get_changes(ChangesetDiff::Parents(vec![vec![], vec![]])),
    );
    assert_eq!(r, Err(DeriveError::MissingManifest));
    assert_eq!(repo.store.len(), before);
}

#[test]
fn a_leaf_deleted_by_a_changeset_was_in_its_parent_and_is_not_in_it() {
    let mut repo = Repo::new();
    let a = repo.commit(&[], &[("d/x", Some("1")), ("d/y", Some("2")), ("e/z", Some("3")), ("f", Some("4"))]);
    let b = repo.commit(&[a], &[("d/x", None), ("f", None)]);
    let c = repo.commit(&[b], &[("d/x", Some("1")), ("d/y", None), ("e/z", None), ("f/g", Some("5"))]);
    let d = repo.commit(&[c], &[("f/g", None), ("d/x", None)]);
    let history = [(a, None), (b, Some(a)), (c, Some(b)), (d, Some(c))];
    for (cs, parent) in history {
        let own = entries(&repo.files[&cs]);
        for (at, status) in repo.nodes(cs) {
            let (Some(at), Status::Deleted(by)) = (at, status) else { continue };
            if by != cs {
                continue;
            }
            let k: Vec<Vec<u8>> = at.elements.iter().map(|e| e.as_bytes().clone()).collect();
            let before = entries(&repo.files[&parent.unwrap()]);
            assert!(before.iter().any(|(p, _)| *p == k));
            assert!(!own.iter().any(|(p, _)| *p == k));
        }
    }
}

#[test]
fn merge_of_disagreeing_parents_with_changes_below_is_live_or_dropped() {
    let mut repo = Repo::new();
    let base = repo.commit(&[], &[("p/f", Some("1")), ("p/g", Some("1")), ("keep", Some("3"))]);
    let deleted = repo.commit(&[base], &[("p/f", None), ("p/g", None)]);
    let live = repo.commit(&[base], &[("p/f", None)]);
    let parents = vec![repo.roots[&deleted], repo.roots[&live]];

    // The changes say nothing of p itself, but add a path below it:
    // what is deleted below p stays on record, and p is live.
    let m = ChangesetId { hash: Blake2 { w0: 200, w1: 0, w2: 0, w3: 7 } };
    let changes = get_changes(ChangesetDiff::Parents(vec![vec![Diff::Added(Some(path("p/x")))]]));
    let root = DeletedManifestDeriver::derive(&mut repo.store, m, parents.clone(), changes).unwrap();
    repo.roots.insert(m, root);
    assert_eq!(
        repo.nodes(m),
        vec![
            (None, Status::Live),
            (Some(path("p")), Status::Live),
            (Some(path("p/f")), Status::Deleted(m)),
            (Some(path("p/g")), Status::Deleted(deleted)),
        ]
    );

    // The changes restore all that was deleted below p: p is dropped.
    let n = ChangesetId { hash: Blake2 { w0: 201, w1: 0, w2: 0, w3: 7 } };
    let changes = get_changes(ChangesetDiff::Parents(vec![vec![
        Diff::Added(Some(path("p/f"))),
        Diff::Added(Some(path("p/g"))),
    ]]));
    let root = DeletedManifestDeriver::derive(&mut repo.store, n, parents, changes).unwrap();
    repo.roots.insert(n, root);
    assert_eq!(repo.nodes(n), vec![(None, Status::Live)]);
}
