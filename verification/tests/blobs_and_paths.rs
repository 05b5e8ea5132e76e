use deleted_files_manifest::blob::DecodeError;
use deleted_files_manifest::hash::{Blake2, ChangesetId, ManifestId};
use deleted_files_manifest::instance::{EdenFsInstance, InvalidDirectoryMap, LockStatus};
use deleted_files_manifest::manifest::DeletedManifest;
use deleted_files_manifest::path::{MPath, PathElement};
use deleted_files_manifest::segmented_changelog::{server_changelog, ServerChangelog};
use deleted_files_manifest::store::ManifestStore;

fn el(s: &str) -> PathElement {
    PathElement::new(s.as_bytes().to_vec()).unwrap()
}

fn mid(n: u64) -> ManifestId {
    ManifestId { hash: Blake2 { w0: n, w1: 0, w2: 0, w3: 0 } }
}

fn sample() -> DeletedManifest {
    DeletedManifest::copy_and_update_subentries(
        None,
        Some(ChangesetId { hash: Blake2 { w0: 1, w1: 2, w2: 3, w3: 4 } }),
        &vec![(el("b"), Some(mid(0x0102))), (el("ab"), Some(mid(7)))],
    )
}

fn entry(name: &[u8], id: u64) -> Vec<u8> {
    let mut out = (name.len() as u64).to_le_bytes().to_vec();
    out.extend_from_slice(name);
    for w in [id, 0, 0, 0] {
        out.extend_from_slice(&w.to_le_bytes());
    }
    out
}

fn live(entries: &[Vec<u8>], count: u64) -> Vec<u8> {
    let mut out = vec![0u8];
    out.extend_from_slice(&count.to_le_bytes());
    for e in entries {
        out.extend_from_slice(e);
    }
    out
}

#[test]
fn a_path_is_read_from_its_bytes() {
    let p = MPath::new(b"dir/sub/f-1").unwrap();
    assert_eq!(p, MPath::from_elements(vec![el("dir"), el("sub"), el("f-1")]));
    assert_eq!(MPath::new(b"file").unwrap(), MPath::from_elements(vec![el("file")]));
    assert_eq!(MPath::new(b"").unwrap(), MPath::from_elements(vec![]));
    assert_eq!(MPath::new(b"/a"), None);
    assert_eq!(MPath::new(b"a/"), None);
    assert_eq!(MPath::new(b"a//b"), None);
    assert_eq!(MPath::new(b"/"), None);
}

#[test]
fn paths_are_ordered_element_by_element() {
    let mut paths =
        vec![MPath::new(b"dir-2").unwrap(), MPath::new(b"dir/f-2").unwrap(), MPath::new(b"dir").unwrap()];
    paths.sort();
    assert_eq!(
        paths,
        vec![MPath::new(b"dir").unwrap(), MPath::new(b"dir/f-2").unwrap(), MPath::new(b"dir-2").unwrap()]
    );
}

#[test]
fn a_node_read_from_its_blob_is_the_node() {
    let m = sample();
    let blob = m.clone().into_blob();
    let back = DeletedManifest::from_blob(&blob).unwrap();
    assert_eq!(back, m);
    assert_eq!(back.id(), m.id());
    assert_eq!(back.into_blob(), blob);
    let empty = DeletedManifest::empty();
    assert_eq!(DeletedManifest::from_blob(&empty.clone().into_blob()), Ok(empty));
}

#[test]
fn bytes_that_are_no_blob_are_refused() {
    let blob = sample().into_blob();
    assert_eq!(DeletedManifest::from_blob(&[]), Err(DecodeError {}));
    // an unknown tag
    let mut bad = blob.clone();
    bad[0] = 2;
    assert_eq!(DeletedManifest::from_blob(&bad), Err(DecodeError {}));
    // cut short, anywhere
    for n in 0..blob.len() {
        assert_eq!(DeletedManifest::from_blob(&blob[..n]), Err(DecodeError {}));
    }
    // bytes after the end
    let mut long = blob.clone();
    long.push(0);
    assert_eq!(DeletedManifest::from_blob(&long), Err(DecodeError {}));
    // a linknode tag without a linknode
    assert_eq!(DeletedManifest::from_blob(&[1, 0, 0, 0, 0, 0, 0, 0, 0]), Err(DecodeError {}));
    // subentries out of order, or twice
    assert!(DeletedManifest::from_blob(&live(&[entry(b"a", 1), entry(b"b", 2)], 2)).is_ok());
    assert_eq!(
        DeletedManifest::from_blob(&live(&[entry(b"b", 1), entry(b"a", 2)], 2)),
        Err(DecodeError {})
    );
    assert_eq!(
        DeletedManifest::from_blob(&live(&[entry(b"a", 1), entry(b"a", 1)], 2)),
        Err(DecodeError {})
    );
    // names that are no path elements
    assert_eq!(DeletedManifest::from_blob(&live(&[entry(b"", 1)], 1)), Err(DecodeError {}));
    assert_eq!(DeletedManifest::from_blob(&live(&[entry(b"a/b", 1)], 1)), Err(DecodeError {}));
    // a count that does not match
    assert_eq!(DeletedManifest::from_blob(&live(&[entry(b"a", 1)], 2)), Err(DecodeError {}));
    assert_eq!(DeletedManifest::from_blob(&live(&[entry(b"a", 1)], 0)), Err(DecodeError {}));
    assert_eq!(DeletedManifest::from_blob(&live(&[], u64::MAX)), Err(DecodeError {}));
    // a name longer than the bytes
    let mut huge = vec![0u8];
    huge.extend_from_slice(&1u64.to_le_bytes());
    huge.extend_from_slice(&u64::MAX.to_le_bytes());
    huge.extend_from_slice(&[b'a'; 40]);
    assert_eq!(DeletedManifest::from_blob(&huge), Err(DecodeError {}));
}

#[test]
fn blobs_are_put_into_the_store() {
    let mut store = ManifestStore::new();
    let leaf = DeletedManifest::copy_and_update_subentries(None, sample().linknode(), &vec![]);
    let top = DeletedManifest::copy_and_update_subentries(None, None, &vec![(el("a"), Some(leaf.id()))]);
    assert_eq!(store.put_blob(&[7u8]), Err(DecodeError {}));
    assert_eq!(store.put_blob(&top.clone().into_blob()), Ok(None));
    assert_eq!(store.len(), 0);
    assert_eq!(store.put_blob(&leaf.clone().into_blob()), Ok(Some(leaf.id())));
    assert_eq!(store.put_blob(&top.clone().into_blob()), Ok(Some(top.id())));
    assert_eq!(store.put_blob(&top.clone().into_blob()), Ok(Some(top.id())));
    assert_eq!(store.len(), 2);
    assert_eq!(store.load(top.id()), Some(&top));
}

#[test]
fn the_key_of_a_node_is_the_prefix_and_the_hash_in_hex() {
    let id = ManifestId { hash: Blake2 { w0: 0x0807060504030201, w1: 0xf0, w2: 0, w3: 0xff00000000000000 } };
    let key = String::from_utf8(id.blobstore_key()).unwrap();
    assert_eq!(
        key,
        "deletedmanifest.blake2.0102030405060708f000000000000000000000000000000000000000000000ff"
    );
    assert_eq!(key.len(), 23 + 64);
}

#[test]
fn the_lock_tells_whether_the_daemon_is_alive() {
    assert_eq!(EdenFsInstance::status_from_lock(&"edenfs".to_string(), false), LockStatus::ProcessAlive);
    assert_eq!(EdenFsInstance::status_from_lock(&"fake_edenfs".to_string(), false), LockStatus::ProcessAlive);
    assert_eq!(EdenFsInstance::status_from_lock(&"bash".to_string(), false), LockStatus::NotRunning);
    assert_eq!(EdenFsInstance::status_from_lock(&"edenfs.exe".to_string(), false), LockStatus::NotRunning);
    assert_eq!(EdenFsInstance::status_from_lock(&"edenfs.exe".to_string(), true), LockStatus::ProcessAlive);
    assert_eq!(EdenFsInstance::status_from_lock(&"my_edenfs.exe".to_string(), true), LockStatus::ProcessAlive);
    assert_eq!(EdenFsInstance::status_from_lock(&"edenfs.exe.bak".to_string(), true), LockStatus::NotRunning);
    assert_eq!(EdenFsInstance::status_from_lock(&"".to_string(), true), LockStatus::NotRunning);
}

#[test]
fn the_directory_map_is_a_json_object_of_strings() {
    assert_eq!(EdenFsInstance::get_configured_mounts_map(None), Ok(vec![]));
    assert_eq!(
        EdenFsInstance::get_configured_mounts_map(Some("{\"/data/b\": \"two\", \"/data/a\": \"one\"}")),
        Ok(vec![("/data/a".to_string(), "one".to_string()), ("/data/b".to_string(), "two".to_string())])
    );
    assert_eq!(EdenFsInstance::get_configured_mounts_map(Some("{}")), Ok(vec![]));
    // the keys ascend by code point
    assert_eq!(
        EdenFsInstance::get_configured_mounts_map(Some("{\"\\u00e9\": \"1\", \"z\": \"2\", \"Z\": \"3\"}")),
        Ok(vec![
            ("Z".to_string(), "3".to_string()),
            ("z".to_string(), "2".to_string()),
            ("\u{e9}".to_string(), "1".to_string()),
        ])
    );
    // a key that the text holds twice comes once, with its last value
    assert_eq!(
        EdenFsInstance::get_configured_mounts_map(Some("{\"/a\": \"x\", \"/a\": \"y\"}")),
        Ok(vec![("/a".to_string(), "y".to_string())])
    );
    assert_eq!(EdenFsInstance::get_configured_mounts_map(Some("{\"/a\": 1}")), Err(InvalidDirectoryMap {}));
    assert_eq!(EdenFsInstance::get_configured_mounts_map(Some("not json")), Err(InvalidDirectoryMap {}));
    assert_eq!(EdenFsInstance::get_configured_mounts_map(Some("")), Err(InvalidDirectoryMap {}));
}

#[test]
fn the_configuration_picks_the_segmented_changelog() {
    assert_eq!(server_changelog(false, true, true), ServerChangelog::Disabled);
    assert_eq!(server_changelog(false, false, false), ServerChangelog::Disabled);
    assert_eq!(server_changelog(true, true, true), ServerChangelog::OnDemand);
    assert_eq!(server_changelog(true, true, false), ServerChangelog::OnDemand);
    assert_eq!(server_changelog(true, false, true), ServerChangelog::PeriodicReload);
    assert_eq!(server_changelog(true, false, false), ServerChangelog::Loaded);
}
