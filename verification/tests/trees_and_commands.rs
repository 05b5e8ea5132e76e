use std::path::PathBuf;

use deleted_files_manifest::changes::{get_changes, same_path, ChangesetDiff, Diff, PathChange};
use deleted_files_manifest::instance::{DaemonHealthy, DaemonInfo, EdenFsInstance, Fb303Status};
use deleted_files_manifest::path::{MPath, PathElement};
use deleted_files_manifest::path_tree::PathTree;
use deleted_files_manifest::progress::{current_progress, enable_insecure_mode, InsecureMode, Total};
use deleted_files_manifest::runlog::{doc, name, parse_template, shows_entry, Format};
use deleted_files_manifest::skiplist::{get_blobstore_key, NoBlobstoreKey, SkiplistBuildArgs, SkiplistSubcommand};

fn path(s: &str) -> MPath {
    if s.is_empty() {
        return MPath::from_elements(vec![]);
    }
    MPath::from_elements(s.split('/').map(|e| PathElement::new(e.as_bytes().to_vec()).unwrap()).collect())
}

fn child<'a, V>(t: &'a PathTree<V>, name: &str) -> Option<&'a PathTree<V>> {
    (0..t.len()).find(|i| t.name(*i).as_bytes().as_slice() == name.as_bytes()).map(|i| t.child(i))
}

fn names<V>(t: &PathTree<V>) -> Vec<String> {
    (0..t.len()).map(|i| String::from_utf8(t.name(i).as_bytes().clone()).unwrap()).collect()
}

#[test]
fn a_tree_holds_each_value_at_its_path() {
    let t = PathTree::from_iter(vec![
        (path("b/c"), 1),
        (path("a"), 2),
        (path("b/a/x"), 3),
        (path("b"), 4),
        (path("b/c"), 5),
    ]);
    assert_eq!(*t.value(), None);
    assert_eq!(names(&t), vec!["a", "b"]);
    assert_eq!(*child(&t, "a").unwrap().value(), Some(2));
    assert_eq!(child(&t, "a").unwrap().len(), 0);
    let b = child(&t, "b").unwrap();
    assert_eq!(*b.value(), Some(4));
    assert_eq!(names(b), vec!["a", "c"]);
    assert_eq!(*child(b, "c").unwrap().value(), Some(5));
    assert_eq!(*child(b, "a").unwrap().value(), None);
    assert_eq!(*child(child(b, "a").unwrap(), "x").unwrap().value(), Some(3));
}

#[test]
fn the_empty_path_is_the_root() {
    let t: PathTree<u8> = PathTree::new();
    assert_eq!(*t.value(), None);
    assert_eq!(t.len(), 0);
    let t = t.insert(&path(""), 7);
    assert_eq!(*t.value(), Some(7));
    assert_eq!(t.len(), 0);
    assert_eq!(path("").len(), 0);
    assert_eq!(path("a/b").len(), 2);
    assert_eq!(path("a/b").clone(), path("a/b"));
    assert!(same_path(&path("a/b"), &path("a/b")));
    assert!(!same_path(&path("a/b"), &path("a")));
    assert!(!same_path(&path("a/b"), &path("a/c")));
}

#[test]
fn a_changeset_without_parents_adds_all_its_paths() {
    let t = get_changes(ChangesetDiff::Root(vec![None, Some(path("d")), Some(path("d/f")), Some(path("g"))]));
    assert_eq!(*t.value(), None);
    assert_eq!(names(&t), vec!["d", "g"]);
    assert_eq!(*child(&t, "d").unwrap().value(), Some(PathChange::Add));
    assert_eq!(*child(child(&t, "d").unwrap(), "f").unwrap().value(), Some(PathChange::Add));
    assert_eq!(*child(&t, "g").unwrap().value(), Some(PathChange::Add));
}

#[test]
fn nodes_above_a_change_hold_none() {
    let t = get_changes(ChangesetDiff::Parents(vec![vec![
        Diff::Removed(Some(path("d/e/f"))),
        Diff::Changed(Some(path("d/e/g"))),
    ]]));
    assert_eq!(names(&t), vec!["d"]);
    let d = child(&t, "d").unwrap();
    assert_eq!(*d.value(), None);
    let e = child(d, "e").unwrap();
    assert_eq!(*e.value(), None);
    assert_eq!(names(e), vec!["f"]);
    assert_eq!(*child(e, "f").unwrap().value(), Some(PathChange::Remove));
}

#[test]
fn the_directories_of_an_instance_lie_in_its_config_dir() {
    let instance = EdenFsInstance::new(
        PathBuf::from("/home/user/.eden"),
        PathBuf::from("/etc/eden"),
        Some(PathBuf::from("/home/user")),
    );
    assert_eq!(instance.clients_dir(), PathBuf::from("/home/user/.eden/clients"));
    assert_eq!(instance.logs_dir(), PathBuf::from("/home/user/.eden/logs"));
    assert_eq!(instance.storage_dir(), PathBuf::from("/home/user/.eden/storage"));
    assert_eq!(instance.socket_path(), PathBuf::from("/home/user/.eden/socket"));
    assert_eq!(instance.directory_map(), PathBuf::from("/home/user/.eden/config.json"));
    assert_eq!(instance.pidfile(false), PathBuf::from("/home/user/.eden/lock"));
    assert_eq!(instance.pidfile(true), PathBuf::from("/home/user/.eden/pid"));
    let (etc, home) = instance.config_sources();
    assert_eq!(etc, &PathBuf::from("/etc/eden"));
    assert_eq!(home, Some(&PathBuf::from("/home/user")));
    let bare = EdenFsInstance::new(PathBuf::from("c"), PathBuf::from("e"), None);
    assert_eq!(bare.config_sources().1, None);
}

#[test]
fn a_daemon_is_healthy_when_it_is_alive() {
    assert!(DaemonInfo { pid: 1, status: Some(Fb303Status::Alive) }.is_healthy());
    assert!(!DaemonInfo { pid: 1, status: Some(Fb303Status::Starting) }.is_healthy());
    assert!(!DaemonInfo { pid: 1, status: Some(Fb303Status::Dead) }.is_healthy());
    assert!(!DaemonInfo { pid: 1, status: None }.is_healthy());
}

#[test]
fn progress_counts_bytes_and_requests() {
    let mut total = Total::new();
    assert_eq!(current_progress(&total), (0, 0, 0));
    total.on_new_request();
    total.on_download_bytes(10);
    total.on_download_bytes(5);
    total.on_upload_bytes(3);
    total.on_new_request();
    assert_eq!(current_progress(&total), (15, 3, 2));
    total.on_upload_bytes(usize::MAX);
    assert_eq!(current_progress(&total), (15, 2, 2));
    let mut mode = InsecureMode { enabled: false };
    enable_insecure_mode(&mut mode);
    assert!(mode.enabled);
    enable_insecure_mode(&mut mode);
    assert!(mode.enabled);
}

#[test]
fn the_runlog_command_knows_two_templates() {
    assert_eq!(name(), "debugrunlog");
    assert_eq!(doc(), "display runlog entries");
    assert_eq!(parse_template(&"json".to_string()), Ok(Format::Json));
    assert_eq!(parse_template(&"".to_string()), Ok(Format::Text));
    assert!(parse_template(&"yaml".to_string()).is_err());
    assert!(parse_template(&"JSON".to_string()).is_err());
    assert!(shows_entry(false, true));
    assert!(shows_entry(true, false));
    assert!(!shows_entry(true, true));
    assert!(!shows_entry(false, false));
}

#[test]
fn the_blobstore_key_comes_from_the_argument_or_the_config() {
    assert_eq!(get_blobstore_key(Some("arg".to_string()), Some("config".to_string())), Ok("arg".to_string()));
    assert_eq!(get_blobstore_key(Some("arg".to_string()), None), Ok("arg".to_string()));
    assert_eq!(get_blobstore_key(None, Some("config".to_string())), Ok("config".to_string()));
    assert_eq!(get_blobstore_key(None, None), Err(NoBlobstoreKey {}));
    let build = SkiplistSubcommand::Build(SkiplistBuildArgs { rebuild: true, exponent: 16 });
    assert_ne!(build, SkiplistSubcommand::Read);
}
