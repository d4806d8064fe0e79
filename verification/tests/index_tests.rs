use std::path::Path;

use resource_index::discover::{dedup_entries, is_hidden};
use resource_index::index::ResourceIndex;
use resource_index::meta::{DiscoveredEntry, IndexError, ResourceId, ResourceMeta};

fn canon(p: &Path) -> String {
    canonical_path::CanonicalPathBuf::canonicalize(p)
        .unwrap()
        .as_path()
        .to_str()
        .unwrap()
        .to_string()
}

#[test]
fn hidden_names_start_with_a_dot() {
    assert!(is_hidden(".config"));
    assert!(is_hidden("."));
    assert!(!is_hidden("config"));
    assert!(!is_hidden(""));
    assert!(!is_hidden("a.hidden"));
}

#[test]
fn dedup_keeps_one_entry_per_path() {
    let entries = vec![
        DiscoveredEntry { path: "/x/a".to_string(), modified: Some(1) },
        DiscoveredEntry { path: "/x/b".to_string(), modified: Some(2) },
        DiscoveredEntry { path: "/x/a".to_string(), modified: Some(3) },
    ];
    let out = dedup_entries(entries);
    assert_eq!(out.len(), 2);
    let paths: Vec<&str> = out.iter().map(|e| e.path.as_str()).collect();
    assert!(paths.contains(&"/x/a"));
    assert!(paths.contains(&"/x/b"));
}

#[test]
fn from_scan_builds_the_exact_state() {
    let id1 = ResourceId { data_size: 4, crc32: 7 };
    let id2 = ResourceId { data_size: 9, crc32: 9 };
    let metadata = vec![
        ("/r/a".to_string(), ResourceMeta { id: id1, modified: 10 }),
        ("/r/b".to_string(), ResourceMeta { id: id1, modified: 20 }),
        ("/r/c".to_string(), ResourceMeta { id: id2, modified: 30 }),
    ];
    let root = "/r".to_string();
    let index = ResourceIndex::from_scan(&root, metadata);

    assert_eq!(index.size(), 3);
    assert_eq!(index.get_meta(&"/r/b".to_string()).unwrap().modified, 20);
    assert_eq!(index.get_meta(&"/r/b".to_string()).unwrap().id, id1);
    assert!(index.get_meta(&"/r/d".to_string()).is_none());
    assert!(index.contains_id(id1));
    assert!(index.contains_id(id2));
    assert_eq!(index.collision_count(id1), Some(2));
    assert_eq!(index.collision_count(id2), None);
    assert_eq!(index.collisions, vec![(id1, 2)]);
}

#[test]
fn build_tracks_non_hidden_files() {
    let dir = tempfile::Builder::new().prefix("fsidx").tempdir().unwrap();
    fs_err::write(dir.path().join("a.txt"), b"alpha").unwrap();
    fs_err::create_dir(dir.path().join("sub")).unwrap();
    fs_err::write(dir.path().join("sub").join("b.txt"), b"beta").unwrap();
    fs_err::write(dir.path().join(".hidden.txt"), b"ssh").unwrap();
    fs_err::create_dir(dir.path().join(".hiddendir")).unwrap();
    fs_err::write(dir.path().join(".hiddendir").join("c.txt"), b"nested").unwrap();

    let root = dir.path().to_str().unwrap().to_string();
    let index = ResourceIndex::build(&root).unwrap();

    assert_eq!(index.size(), 2);
    assert!(index.contains_path(&canon(&dir.path().join("a.txt"))));
    assert!(index.contains_path(&canon(&dir.path().join("sub").join("b.txt"))));
    assert!(!index.contains_path(&canon(&dir.path().join(".hidden.txt"))));
    assert!(!index.contains_path(&canon(&dir.path().join(".hiddendir").join("c.txt"))));
}

#[test]
fn build_counts_collisions_exactly() {
    let dir = tempfile::Builder::new().prefix("fsidx").tempdir().unwrap();
    fs_err::write(dir.path().join("a1.txt"), b"same bytes").unwrap();
    fs_err::write(dir.path().join("a2.txt"), b"same bytes").unwrap();
    fs_err::write(dir.path().join("b.txt"), b"other bytes").unwrap();

    let root = dir.path().to_str().unwrap().to_string();
    let index = ResourceIndex::build(&root).unwrap();

    assert_eq!(index.size(), 3);
    assert_eq!(index.size(), index.path2meta.len());

    let id_a = index.get_meta(&canon(&dir.path().join("a1.txt"))).unwrap().id;
    let id_a2 = index.get_meta(&canon(&dir.path().join("a2.txt"))).unwrap().id;
    let id_b = index.get_meta(&canon(&dir.path().join("b.txt"))).unwrap().id;
    assert_eq!(id_a, id_a2);
    assert_ne!(id_a, id_b);
    assert!(index.contains_id(id_a));
    assert!(index.contains_id(id_b));
    assert_eq!(index.collision_count(id_a), Some(2));
    assert_eq!(index.collision_count(id_b), None);
}

#[test]
fn update_without_changes_is_empty_twice() {
    let dir = tempfile::Builder::new().prefix("fsidx").tempdir().unwrap();
    fs_err::write(dir.path().join("a.txt"), b"alpha").unwrap();
    fs_err::write(dir.path().join("b.txt"), b"beta").unwrap();

    let root = dir.path().to_str().unwrap().to_string();
    let mut index = ResourceIndex::build(&root).unwrap();
    assert_eq!(index.size(), 2);

    let first = index.update().unwrap();
    assert_eq!(first.deleted.len(), 0);
    assert_eq!(first.added.len(), 0);
    let second = index.update().unwrap();
    assert_eq!(second.deleted.len(), 0);
    assert_eq!(second.added.len(), 0);
    assert_eq!(index.size(), 2);
}

#[test]
fn deleting_unique_content_reports_it_deleted() {
    let dir = tempfile::Builder::new().prefix("fsidx").tempdir().unwrap();
    fs_err::write(dir.path().join("a.txt"), b"alone").unwrap();
    fs_err::write(dir.path().join("b.txt"), b"stays").unwrap();

    let root = dir.path().to_str().unwrap().to_string();
    let mut index = ResourceIndex::build(&root).unwrap();
    let id_a = index.get_meta(&canon(&dir.path().join("a.txt"))).unwrap().id;
    let id_b = index.get_meta(&canon(&dir.path().join("b.txt"))).unwrap().id;

    fs_err::remove_file(dir.path().join("a.txt")).unwrap();
    let upd = index.update().unwrap();

    assert_eq!(upd.deleted, vec![id_a]);
    assert_eq!(upd.added.len(), 0);
    assert!(!index.contains_id(id_a));
    assert!(index.contains_id(id_b));
    assert_eq!(index.size(), 1);
}

#[test]
fn deleting_one_of_two_duplicates_reports_nothing() {
    let dir = tempfile::Builder::new().prefix("fsidx").tempdir().unwrap();
    fs_err::write(dir.path().join("a.txt"), b"twin bytes").unwrap();
    fs_err::write(dir.path().join("b.txt"), b"twin bytes").unwrap();

    let root = dir.path().to_str().unwrap().to_string();
    let mut index = ResourceIndex::build(&root).unwrap();
    let id = index.get_meta(&canon(&dir.path().join("a.txt"))).unwrap().id;
    assert_eq!(index.collision_count(id), Some(2));
    assert_eq!(index.size(), 2);

    fs_err::remove_file(dir.path().join("a.txt")).unwrap();
    let upd = index.update().unwrap();

    assert_eq!(upd.deleted.len(), 0);
    assert_eq!(upd.added.len(), 0);
    assert_eq!(index.collision_count(id), None);
    assert!(index.contains_id(id));
    assert_eq!(index.size(), 1);
    assert_eq!(index.size(), index.path2meta.len());
}

#[test]
fn changing_content_is_a_delete_plus_add() {
    let dir = tempfile::Builder::new().prefix("fsidx").tempdir().unwrap();
    let a = dir.path().join("a.txt");
    fs_err::write(&a, b"first version").unwrap();
    filetime::set_file_mtime(&a, filetime::FileTime::from_unix_time(1_600_000_000, 0)).unwrap();
    fs_err::write(dir.path().join("b.txt"), b"untouched").unwrap();

    let root = dir.path().to_str().unwrap().to_string();
    let mut index = ResourceIndex::build(&root).unwrap();
    let canon_a = canon(&a);
    let old_id = index.get_meta(&canon_a).unwrap().id;

    fs_err::write(&a, b"second version, longer").unwrap();
    filetime::set_file_mtime(&a, filetime::FileTime::from_unix_time(1_700_000_000, 0)).unwrap();
    let upd = index.update().unwrap();

    assert_eq!(upd.deleted, vec![old_id]);
    assert_eq!(upd.added.len(), 1);
    assert_eq!(upd.added[0].0, canon_a);
    let new_id = upd.added[0].1.id;
    assert_ne!(new_id, old_id);
    assert!(index.contains_id(new_id));
    assert!(!index.contains_id(old_id));
    assert_eq!(index.get_meta(&canon_a).unwrap().id, new_id);
}

#[test]
fn renaming_a_unique_resource_is_a_delete_plus_add() {
    let dir = tempfile::Builder::new().prefix("fsidx").tempdir().unwrap();
    let a = dir.path().join("a.txt");
    fs_err::write(&a, b"moving bytes").unwrap();

    let root = dir.path().to_str().unwrap().to_string();
    let mut index = ResourceIndex::build(&root).unwrap();
    let canon_a = canon(&a);
    let id = index.get_meta(&canon_a).unwrap().id;

    let a2 = dir.path().join("a2.txt");
    fs_err::rename(&a, &a2).unwrap();
    let upd = index.update().unwrap();

    assert_eq!(upd.deleted, vec![id]);
    assert_eq!(upd.added.len(), 1);
    let canon_a2 = canon(&a2);
    assert_eq!(upd.added[0].0, canon_a2);
    assert_eq!(upd.added[0].1.id, id);
    assert!(index.contains_path(&canon_a2));
    assert!(!index.contains_path(&canon_a));
    assert!(index.contains_id(id));
}

#[test]
fn new_duplicate_path_is_invisible() {
    let dir = tempfile::Builder::new().prefix("fsidx").tempdir().unwrap();
    fs_err::write(dir.path().join("a.txt"), b"shared bytes").unwrap();

    let root = dir.path().to_str().unwrap().to_string();
    let mut index = ResourceIndex::build(&root).unwrap();
    let id = index.get_meta(&canon(&dir.path().join("a.txt"))).unwrap().id;
    assert_eq!(index.size(), 1);

    let c = dir.path().join("c.txt");
    fs_err::write(&c, b"shared bytes").unwrap();
    let canon_c = canon(&c);
    let upd = index.update().unwrap();

    assert_eq!(upd.deleted.len(), 0);
    assert_eq!(upd.added.len(), 0);
    assert!(!index.contains_path(&canon_c));
    assert_eq!(index.size(), 1);
    assert_eq!(index.collision_count(id), None);
}

#[test]
fn build_fails_only_for_an_unreadable_root() {
    let missing = "/surely/not/a/real/root".to_string();
    match ResourceIndex::build(&missing) {
        Err(IndexError::RootUnreadable) => {}
        Ok(_) => panic!("build of a missing root succeeded"),
    }
}

#[test]
fn update_fails_when_the_root_vanishes() {
    let dir = tempfile::Builder::new().prefix("fsidx").tempdir().unwrap();
    fs_err::write(dir.path().join("a.txt"), b"short lived").unwrap();
    let root = dir.path().to_str().unwrap().to_string();
    let mut index = ResourceIndex::build(&root).unwrap();
    assert_eq!(index.size(), 1);

    dir.close().unwrap();
    match index.update() {
        Err(IndexError::RootUnreadable) => {}
        Ok(_) => panic!("update succeeded without a root"),
    }
    assert_eq!(index.size(), 1);
}
