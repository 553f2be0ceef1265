use rfs_client::{BackendError, EntryType, RemoteBackend, SetAttrRequest, StubBackend};

#[test]
fn sample_tree_lists_root() {
    let mut b = StubBackend::new();
    let entries = b.list_dir(1).unwrap();
    let names: Vec<String> = entries.iter().map(|e| e.name.clone()).collect();
    assert_eq!(names, vec!["cartella1", "cartella2", "file1.txt", "file2.txt"]);
}

#[test]
fn create_then_get_attr_returns_created_entry() {
    let mut b = StubBackend::new();
    let created = b.create_file(1, "a.txt").unwrap();
    let fetched = b.get_attr(created.ino).unwrap();
    assert_eq!(created, fetched);
    assert_eq!(fetched.kind, EntryType::File);
    assert_eq!(fetched.size, 0);
    assert_eq!(fetched.name, "a.txt");
    assert_eq!(fetched.path, "/a.txt");
}

#[test]
fn create_is_reflected_in_listing() {
    let mut b = StubBackend::new();
    let created = b.create_file(2, "neu.txt").unwrap();
    let listing = b.list_dir(2).unwrap();
    assert_eq!(listing.len(), 1);
    assert_eq!(listing[0].ino, created.ino);
    assert_eq!(listing[0].name, "neu.txt");
    assert_eq!(listing[0].path, "/cartella1/neu.txt");
}

#[test]
fn create_duplicate_name_conflicts() {
    let mut b = StubBackend::new();
    b.create_file(1, "a.txt").unwrap();
    match b.create_file(1, "a.txt") {
        Err(BackendError::Conflict(_)) => {}
        other => panic!("expected a conflict, got {:?}", other),
    }
}

#[test]
fn create_under_missing_parent_is_not_found() {
    let mut b = StubBackend::new();
    match b.create_file(999, "a.txt") {
        Err(BackendError::NotFound(_)) => {}
        other => panic!("expected not found, got {:?}", other),
    }
}

#[test]
fn lookup_finds_by_name() {
    let mut b = StubBackend::new();
    let e = b.lookup(1, "file1.txt").unwrap();
    assert_eq!(e.ino, 4);
    match b.lookup(1, "no-such-name") {
        Err(BackendError::NotFound(_)) => {}
        other => panic!("expected not found, got {:?}", other),
    }
}

#[test]
fn rename_moves_entry_and_keeps_inode() {
    let mut b = StubBackend::new();
    let created = b.create_file(1, "a.txt").unwrap();
    let moved = b.rename(1, "a.txt", 3, "b.txt").unwrap();
    assert_eq!(moved.ino, created.ino);
    assert_eq!(moved.name, "b.txt");
    match b.lookup(1, "a.txt") {
        Err(BackendError::NotFound(_)) => {}
        other => panic!("expected not found, got {:?}", other),
    }
    let found = b.lookup(3, "b.txt").unwrap();
    assert_eq!(found.ino, created.ino);
}

#[test]
fn rename_across_directories_updates_both_listings() {
    let mut b = StubBackend::new();
    b.create_file(1, "a.txt").unwrap();
    b.rename(1, "a.txt", 2, "b.txt").unwrap();
    let root = b.list_dir(1).unwrap();
    assert!(root.iter().all(|e| e.name != "a.txt"));
    let sub = b.list_dir(2).unwrap();
    assert!(sub.iter().any(|e| e.name == "b.txt"));
}

#[test]
fn set_size_then_get_attr_reports_it() {
    let mut b = StubBackend::new();
    let e = b.create_file(1, "a.txt").unwrap();
    b.write_chunk(e.ino, 0, b"hello world".to_vec()).unwrap();
    let req = SetAttrRequest::with_size(3);
    let after = b.set_attr(e.ino, req).unwrap();
    assert_eq!(after.size, 3);
    assert_eq!(b.get_attr(e.ino).unwrap().size, 3);
}

#[test]
fn truncate_cuts_content_and_extension_zero_fills() {
    let mut b = StubBackend::new();
    let e = b.create_file(1, "a.txt").unwrap();
    b.write_chunk(e.ino, 0, b"abcdef".to_vec()).unwrap();
    b.set_attr(e.ino, SetAttrRequest::with_size(3)).unwrap();
    assert_eq!(b.read_chunk(e.ino, 0, 100).unwrap(), b"abc".to_vec());
    b.set_attr(e.ino, SetAttrRequest::with_size(5)).unwrap();
    assert_eq!(b.read_chunk(e.ino, 0, 100).unwrap(), vec![b'a', b'b', b'c', 0, 0]);
}

#[test]
fn read_entirely_past_eof_is_empty() {
    let mut b = StubBackend::new();
    let e = b.create_file(1, "a.txt").unwrap();
    b.write_chunk(e.ino, 0, b"abc".to_vec()).unwrap();
    assert_eq!(b.read_chunk(e.ino, 3, 10).unwrap(), Vec::<u8>::new());
    assert_eq!(b.read_chunk(e.ino, 100, 10).unwrap(), Vec::<u8>::new());
}

#[test]
fn read_straddling_eof_returns_existing_bytes() {
    let mut b = StubBackend::new();
    let e = b.create_file(1, "a.txt").unwrap();
    b.write_chunk(e.ino, 0, b"abcdef".to_vec()).unwrap();
    assert_eq!(b.read_chunk(e.ino, 4, 10).unwrap(), b"ef".to_vec());
}

#[test]
fn write_at_offset_zero_extends_gap() {
    let mut b = StubBackend::new();
    let e = b.create_file(1, "a.txt").unwrap();
    b.write_chunk(e.ino, 4, b"xy".to_vec()).unwrap();
    assert_eq!(b.read_chunk(e.ino, 0, 10).unwrap(), vec![0, 0, 0, 0, b'x', b'y']);
    assert_eq!(b.get_attr(e.ino).unwrap().size, 6);
}

#[test]
fn write_bumps_mtime_strictly() {
    let mut b = StubBackend::new();
    let e = b.create_file(1, "a.txt").unwrap();
    let before = b.get_attr(e.ino).unwrap().mtime;
    b.write_chunk(e.ino, 0, b"x".to_vec()).unwrap();
    let after = b.get_attr(e.ino).unwrap().mtime;
    assert!(after > before);
}

#[test]
fn get_attr_if_modified_since_tracks_mtime() {
    let mut b = StubBackend::new();
    let e = b.create_file(1, "a.txt").unwrap();
    let t = b.get_attr(e.ino).unwrap().mtime;
    assert!(b.get_attr_if_modified_since(e.ino, t).unwrap().is_none());
    b.write_chunk(e.ino, 0, b"x".to_vec()).unwrap();
    let fresh = b.get_attr_if_modified_since(e.ino, t).unwrap();
    assert!(fresh.is_some());
    assert!(fresh.unwrap().mtime > t);
}

#[test]
fn delete_file_removes_entry_and_listing_row() {
    let mut b = StubBackend::new();
    let e = b.create_file(1, "a.txt").unwrap();
    b.delete_file(1, "a.txt").unwrap();
    match b.get_attr(e.ino) {
        Err(BackendError::NotFound(_)) => {}
        other => panic!("expected not found, got {:?}", other),
    }
    assert!(b.list_dir(1).unwrap().iter().all(|x| x.name != "a.txt"));
}

#[test]
fn delete_dir_requires_empty() {
    let mut b = StubBackend::new();
    b.create_dir(1, "d").unwrap();
    let d = b.lookup(1, "d").unwrap();
    b.create_file(d.ino, "inner").unwrap();
    match b.delete_dir(1, "d") {
        Err(BackendError::Conflict(_)) => {}
        other => panic!("expected a conflict, got {:?}", other),
    }
    b.delete_file(d.ino, "inner").unwrap();
    b.delete_dir(1, "d").unwrap();
}

#[test]
fn mkdir_then_create_inside() {
    let mut b = StubBackend::new();
    let d = b.create_dir(1, "sub").unwrap();
    assert_eq!(d.kind, EntryType::Directory);
    assert_eq!(d.nlinks, 2);
    let f = b.create_file(d.ino, "x").unwrap();
    assert_eq!(f.path, "/sub/x");
}

#[test]
fn inode_numbers_are_fresh_and_increasing() {
    let mut b = StubBackend::new();
    let a = b.create_file(1, "a").unwrap();
    let c = b.create_file(1, "b").unwrap();
    assert_eq!(a.ino, 6);
    assert_eq!(c.ino, 7);
}

#[test]
fn parent_dir_of_paths() {
    assert_eq!(StubBackend::get_parent_dir("/a/b"), "/a");
    assert_eq!(StubBackend::get_parent_dir("/a"), "/");
    assert_eq!(StubBackend::get_parent_dir("/"), "/");
    assert_eq!(StubBackend::get_parent_dir("/cartella1/file"), "/cartella1");
}

#[test]
fn validate_parent_checks_directories_only() {
    let b = StubBackend::new();
    assert!(b.validate_parent_exists(1).is_ok());
    assert!(b.validate_parent_exists(2).is_ok());
    assert!(b.validate_parent_exists(4).is_err());
    assert!(b.validate_parent_exists(999).is_err());
}

#[test]
fn links_are_not_supported_by_the_sample_backend() {
    let mut b = StubBackend::new();
    assert!(b.link(4, 1, "hard").is_err());
    assert!(b.symlink("/file1.txt", 1, "soft").is_err());
    assert!(b.readlink(4).is_err());
}

#[test]
fn volume_size_is_reported() {
    let mut b = StubBackend::new();
    let (total, free) = b.get_size().unwrap();
    assert!(total > free);
}

#[test]
fn error_descriptions_name_the_kind() {
    assert_eq!(
        BackendError::NotFound("x".to_string()).describe(),
        "not found: x"
    );
    assert_eq!(BackendError::Unauthorized.describe(), "unauthorized");
    assert_eq!(BackendError::Conflict("y".to_string()).describe(), "conflict: y");
    assert_eq!(BackendError::Forbidden.describe(), "forbidden");
    assert_eq!(BackendError::ServerUnreachable.describe(), "server unreachable");
    assert_eq!(BackendError::BadAnswerFormat.describe(), "bad answer format");
}
