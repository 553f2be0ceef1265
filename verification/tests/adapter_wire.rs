use std::cell::RefCell;
use std::rc::Rc;

use rfs_client::adapter::{
    entry_to_attr, filetime_from_millis, map_error, readdir_cookie, readdir_start, Adapter,
    ERR_ACCES, ERR_EXIST, ERR_HOSTUNREACH, ERR_IO, ERR_NOENT, ERR_NOTEMPTY, ERR_PERM, ERR_PROTO,
    ERR_SPIPE,
};
use rfs_client::wire::{
    classify_login, classify_status, dec_u64, endpoint_attr, endpoint_dir, endpoint_file,
    endpoint_read, endpoint_stream, entry_from_fields, file_name_of, login_body,
    parse_bytes_written, parse_entry, parse_error_body, parse_listing, reanchor_path, rename_body,
    status_error, StatusClass, WireEntry,
};
use rfs_client::{
    BackendError, Cache, EntryType, FileEntry, RemoteBackend, SetAttrRequest, StubBackend,
    BLOCK_SIZE, LARGE_FILE_SIZE,
};

struct TracingBackend {
    inner: Rc<RefCell<StubBackend>>,
    write_calls: Rc<RefCell<usize>>,
    stream_calls: Rc<RefCell<usize>>,
}

impl RemoteBackend for TracingBackend {
    fn list_dir(&mut self, ino: u64) -> Result<Vec<FileEntry>, BackendError> {
        self.inner.borrow_mut().list_dir(ino)
    }
    fn get_attr(&mut self, ino: u64) -> Result<FileEntry, BackendError> {
        self.inner.borrow_mut().get_attr(ino)
    }
    fn get_attr_if_modified_since(
        &mut self,
        ino: u64,
        since: u64,
    ) -> Result<Option<FileEntry>, BackendError> {
        self.inner.borrow_mut().get_attr_if_modified_since(ino, since)
    }
    fn lookup(&mut self, parent_ino: u64, name: &str) -> Result<FileEntry, BackendError> {
        self.inner.borrow_mut().lookup(parent_ino, name)
    }
    fn create_file(&mut self, parent_ino: u64, name: &str) -> Result<FileEntry, BackendError> {
        self.inner.borrow_mut().create_file(parent_ino, name)
    }
    fn create_dir(&mut self, parent_ino: u64, name: &str) -> Result<FileEntry, BackendError> {
        self.inner.borrow_mut().create_dir(parent_ino, name)
    }
    fn delete_file(&mut self, parent_ino: u64, name: &str) -> Result<(), BackendError> {
        self.inner.borrow_mut().delete_file(parent_ino, name)
    }
    fn delete_dir(&mut self, parent_ino: u64, name: &str) -> Result<(), BackendError> {
        self.inner.borrow_mut().delete_dir(parent_ino, name)
    }
    fn read_chunk(&mut self, ino: u64, offset: u64, size: u64) -> Result<Vec<u8>, BackendError> {
        self.inner.borrow_mut().read_chunk(ino, offset, size)
    }
    fn write_chunk(&mut self, ino: u64, offset: u64, data: Vec<u8>) -> Result<u64, BackendError> {
        *self.write_calls.borrow_mut() += 1;
        self.inner.borrow_mut().write_chunk(ino, offset, data)
    }
    fn write_stream(&mut self, ino: u64, offset: u64, data: Vec<u8>) -> Result<(), BackendError> {
        *self.stream_calls.borrow_mut() += 1;
        self.inner.borrow_mut().write_stream(ino, offset, data)
    }
    fn rename(
        &mut self,
        old_parent_ino: u64,
        old_name: &str,
        new_parent_ino: u64,
        new_name: &str,
    ) -> Result<FileEntry, BackendError> {
        self.inner
            .borrow_mut()
            .rename(old_parent_ino, old_name, new_parent_ino, new_name)
    }
    fn set_attr(&mut self, ino: u64, attrs: SetAttrRequest) -> Result<FileEntry, BackendError> {
        self.inner.borrow_mut().set_attr(ino, attrs)
    }
    fn link(
        &mut self,
        target_ino: u64,
        link_parent_ino: u64,
        link_name: &str,
    ) -> Result<FileEntry, BackendError> {
        self.inner.borrow_mut().link(target_ino, link_parent_ino, link_name)
    }
    fn symlink(
        &mut self,
        target_path: &str,
        link_parent_ino: u64,
        link_name: &str,
    ) -> Result<FileEntry, BackendError> {
        self.inner.borrow_mut().symlink(target_path, link_parent_ino, link_name)
    }
    fn readlink(&mut self, ino: u64) -> Result<String, BackendError> {
        self.inner.borrow_mut().readlink(ino)
    }
    fn get_size(&mut self) -> Result<(u64, u64), BackendError> {
        self.inner.borrow_mut().get_size()
    }
}

fn adapter_fixture() -> (
    Adapter<Cache<TracingBackend>>,
    Rc<RefCell<StubBackend>>,
    Rc<RefCell<usize>>,
    Rc<RefCell<usize>>,
) {
    let stub = Rc::new(RefCell::new(StubBackend::new()));
    let writes = Rc::new(RefCell::new(0usize));
    let streams = Rc::new(RefCell::new(0usize));
    let tracing = TracingBackend {
        inner: stub.clone(),
        write_calls: writes.clone(),
        stream_calls: streams.clone(),
    };
    let cache = Cache::new(tracing, 256, 16, 64, 16);
    (Adapter::new(cache), stub, writes, streams)
}

#[test]
fn create_write_flush_read_round_trip() {
    let (mut ad, _stub, writes, _streams) = adapter_fixture();
    let (fh, attr) = ad.create(1, "a.txt").unwrap();
    assert_eq!(fh, 3);
    let ino = attr.ino;
    assert_eq!(ad.write(fh, 0, b"hello".to_vec()).unwrap(), 5);
    assert_eq!(ad.write(fh, 5, b" world".to_vec()).unwrap(), 6);
    ad.flush_fh(fh, ino).unwrap();
    assert_eq!(*writes.borrow(), 1);
    let (fh2, _flags, _a) = ad.open(ino, true, false, false).unwrap();
    assert_eq!(fh2, 4);
    let data = ad.read_paged(ino, 0, 11).unwrap();
    assert_eq!(data, b"hello world".to_vec());
}

#[test]
fn contiguous_writes_flush_as_one_call_gapped_as_three() {
    let (mut ad, _stub, writes, _streams) = adapter_fixture();
    let (fh, attr) = ad.create(1, "c.bin").unwrap();
    let n = 4u64;
    ad.write(fh, 0, vec![1; 4]).unwrap();
    ad.write(fh, n, vec![2; 4]).unwrap();
    ad.write(fh, 2 * n, vec![3; 4]).unwrap();
    ad.flush_fh(fh, attr.ino).unwrap();
    assert_eq!(*writes.borrow(), 1);
    let (fh2, attr2) = ad.create(1, "d.bin").unwrap();
    ad.write(fh2, 0, vec![1; 4]).unwrap();
    ad.write(fh2, 2 * n, vec![2; 4]).unwrap();
    ad.write(fh2, 4 * n, vec![3; 4]).unwrap();
    ad.flush_fh(fh2, attr2.ino).unwrap();
    assert_eq!(*writes.borrow(), 4);
}

#[test]
fn flushing_an_empty_buffer_calls_no_backend_write() {
    let (mut ad, _stub, writes, streams) = adapter_fixture();
    let (fh, attr) = ad.create(1, "e.txt").unwrap();
    ad.flush_fh(fh, attr.ino).unwrap();
    ad.flush_fh(999, attr.ino).unwrap();
    assert_eq!(*writes.borrow(), 0);
    assert_eq!(*streams.borrow(), 0);
}

#[test]
fn write_buffers_of_handles_are_independent() {
    let (mut ad, _stub, writes, _streams) = adapter_fixture();
    let (fh_a, attr_a) = ad.create(1, "one.txt").unwrap();
    let (fh_b, attr_b) = ad.create(1, "two.txt").unwrap();
    ad.write(fh_a, 0, b"aaa".to_vec()).unwrap();
    ad.write(fh_b, 0, b"bbb".to_vec()).unwrap();
    ad.release(fh_a);
    // closing one handle leaves the other's buffered bytes intact
    ad.flush_fh(fh_b, attr_b.ino).unwrap();
    assert_eq!(*writes.borrow(), 1);
    let got = ad.read_paged(attr_b.ino, 0, 3).unwrap();
    assert_eq!(got, b"bbb".to_vec());
    let empty = ad.read_paged(attr_a.ino, 0, 3).unwrap();
    assert_eq!(empty, Vec::<u8>::new());
}

#[test]
fn large_files_stream_and_refuse_seeks() {
    let (mut ad, stub, _writes, _streams) = adapter_fixture();
    let e = stub.borrow_mut().create_file(1, "huge.bin").unwrap();
    stub
        .borrow_mut()
        .write_chunk(e.ino, LARGE_FILE_SIZE, vec![9u8; 1])
        .unwrap();
    let (fh, flags, attr) = ad.open(e.ino, true, false, false).unwrap();
    assert!(attr.size > LARGE_FILE_SIZE);
    assert!(flags.nonseekable);
    assert!(flags.direct_io);
    let plan = ad.stream_plan(fh, 0).unwrap();
    assert!(plan.need_open);
    assert_eq!(plan.pos, 0);
    ad.stream_mark_started(fh);
    ad.stream_push(fh, vec![5u8; 8192]);
    let got = ad.stream_take(fh, 4096).unwrap();
    assert_eq!(got, vec![5u8; 4096]);
    let plan2 = ad.stream_plan(fh, 4096).unwrap();
    assert!(!plan2.need_open);
    assert_eq!(plan2.buffered, 4096);
    // a read anywhere but the stream position is not seekable
    assert_eq!(ad.stream_plan(fh, 0).unwrap_err(), ERR_SPIPE);
    assert_eq!(ad.stream_plan(fh, 9999).unwrap_err(), ERR_SPIPE);
    ad.stream_mark_eof(fh);
    let plan3 = ad.stream_plan(fh, 4096).unwrap();
    assert!(plan3.eof);
}

#[test]
fn small_files_keep_kernel_cache() {
    let (mut ad, _stub, _writes, _streams) = adapter_fixture();
    let (_fh, attr) = ad.create(1, "small.txt").unwrap();
    let (_fh2, flags, _a) = ad.open(attr.ino, true, false, false).unwrap();
    assert!(flags.keep_cache);
    assert!(!flags.nonseekable);
}

#[test]
fn open_with_truncate_zeroes_the_file() {
    let (mut ad, stub, _writes, _streams) = adapter_fixture();
    let e = stub.borrow_mut().create_file(1, "t.txt").unwrap();
    stub.borrow_mut().write_chunk(e.ino, 0, b"content".to_vec()).unwrap();
    let (_fh, _flags, attr) = ad.open(e.ino, true, true, true).unwrap();
    assert_eq!(attr.size, 0);
}

#[test]
fn delete_on_close_runs_at_cleanup() {
    let (mut ad, stub, _writes, _streams) = adapter_fixture();
    let (fh, attr) = ad.create(1, "doomed.txt").unwrap();
    ad.set_delete(fh, attr.ino, 1, "doomed.txt".to_string(), false, true)
        .unwrap();
    ad.cleanup(fh, attr.ino).unwrap();
    assert!(stub.borrow_mut().lookup(1, "doomed.txt").is_err());
}

#[test]
fn deleting_a_nonempty_directory_fails_eagerly() {
    let (mut ad, stub, _writes, _streams) = adapter_fixture();
    let d = stub.borrow_mut().create_dir(1, "full").unwrap();
    stub.borrow_mut().create_file(d.ino, "x").unwrap();
    let (fh, _flags, _a) = ad.open(d.ino, false, false, false).unwrap();
    let r = ad.set_delete(fh, d.ino, 1, "full".to_string(), true, true);
    assert_eq!(r.unwrap_err(), ERR_NOTEMPTY);
    assert!(stub.borrow_mut().lookup(1, "full").is_ok());
}

#[test]
fn readdir_starts_with_dot_entries_and_resumes_at_cookies() {
    let (mut ad, _stub, _writes, _streams) = adapter_fixture();
    let rows = ad.readdir(1, 0).unwrap();
    assert_eq!(rows.len(), 6);
    assert_eq!(rows[0].name, ".");
    assert_eq!(rows[0].cookie, 1);
    assert_eq!(rows[0].ino, 1);
    assert_eq!(rows[1].name, "..");
    assert_eq!(rows[1].cookie, 2);
    assert_eq!(rows[2].name, "cartella1");
    assert_eq!(rows[2].cookie, 3);
    assert_eq!(rows[2].ino, 2);
    assert_eq!(rows[5].name, "file2.txt");
    assert_eq!(rows[5].cookie, 6);
    // resuming after the first dot row serves the other dot row first
    let after_dot = ad.readdir(1, 1).unwrap();
    assert_eq!(after_dot.len(), 5);
    assert_eq!(after_dot[0].name, "..");
    // resuming after a listing row skips everything at or before it
    let resumed = ad.readdir(1, rows[3].cookie).unwrap();
    assert_eq!(resumed.len(), 2);
    assert_eq!(resumed[0].name, "file1.txt");
    assert_eq!(resumed[0].cookie, 5);
    let done = ad.readdir(1, rows[5].cookie).unwrap();
    assert_eq!(done.len(), 0);
}

#[test]
fn coalesce_merges_contiguous_fragments_only() {
    let runs = rfs_client::adapter::coalesce(vec![
        (0, b"ab".to_vec()),
        (2, b"cd".to_vec()),
        (10, b"x".to_vec()),
    ]);
    assert_eq!(runs.len(), 2);
    assert_eq!(runs[0], (0, b"abcd".to_vec()));
    assert_eq!(runs[1], (10, b"x".to_vec()));
    let single = rfs_client::adapter::coalesce(vec![(7, b"z".to_vec())]);
    assert_eq!(single, vec![(7, b"z".to_vec())]);
}

#[test]
fn setattr_masks_mode_to_nine_bits() {
    let (mut ad, _stub, _writes, _streams) = adapter_fixture();
    let (_fh, attr) = ad.create(1, "m.txt").unwrap();
    let a = ad
        .setattr(attr.ino, Some(0o7777), None, None, Some(2), None)
        .unwrap();
    assert_eq!(a.perm, 0o777);
    assert_eq!(a.size, 2);
}

#[test]
fn errno_mapping_is_exact() {
    assert_eq!(map_error(&BackendError::NotFound("p".into())), ERR_NOENT);
    assert_eq!(map_error(&BackendError::Unauthorized), ERR_PERM);
    assert_eq!(map_error(&BackendError::Forbidden), ERR_ACCES);
    assert_eq!(map_error(&BackendError::Conflict("c".into())), ERR_EXIST);
    assert_eq!(map_error(&BackendError::InternalServerError), ERR_IO);
    assert_eq!(map_error(&BackendError::BadAnswerFormat), ERR_PROTO);
    assert_eq!(map_error(&BackendError::ServerUnreachable), ERR_HOSTUNREACH);
    assert_eq!(map_error(&BackendError::Other("o".into())), ERR_IO);
}

#[test]
fn attr_blocks_round_up_and_block_size_matches_cache() {
    let mut stub = StubBackend::new();
    let e = stub.create_file(1, "a").unwrap();
    stub.write_chunk(e.ino, 0, vec![0u8; 513]).unwrap();
    let entry = stub.get_attr(e.ino).unwrap();
    let attr = entry_to_attr(&entry);
    assert_eq!(attr.blocks, 2);
    assert_eq!(attr.blksize, BLOCK_SIZE as u32);
    assert_eq!(attr.ino, e.ino);
}

#[test]
fn filetime_conversion_matches_epoch_offset() {
    assert_eq!(filetime_from_millis(0), 11644473600 * 10000000);
    assert_eq!(filetime_from_millis(1500), 11644473601 * 10000000 + 500 * 10000);
    assert_eq!(filetime_from_millis(u64::MAX), u64::MAX);
}

#[test]
fn readdir_cookie_math() {
    assert_eq!(readdir_start(0), 0);
    assert_eq!(readdir_start(2), 0);
    assert_eq!(readdir_start(3), 1);
    assert_eq!(readdir_start(7), 5);
    assert_eq!(readdir_cookie(0), 3);
    assert_eq!(readdir_cookie(5), 8);
}

#[test]
fn status_classification_retries_exactly_once() {
    assert_eq!(classify_status(200, false), StatusClass::Success);
    assert_eq!(classify_status(201, false), StatusClass::Success);
    assert_eq!(classify_status(401, false), StatusClass::Retry);
    assert_eq!(classify_status(200, true), StatusClass::Success);
    assert_eq!(classify_status(401, true), StatusClass::Fail);
    assert_eq!(classify_status(404, false), StatusClass::Fail);
    // a single injected expired-session answer, then success: the
    // caller retries once and observes the success
    let answers = [401u16, 200u16];
    let mut retried = false;
    let mut outcome = None;
    for &status in answers.iter() {
        match classify_status(status, retried) {
            StatusClass::Success => {
                outcome = Some(Ok::<(), i32>(()));
                break;
            }
            StatusClass::Retry => {
                retried = true;
            }
            StatusClass::Fail => {
                outcome = Some(Err(map_error(&status_error(status, String::new()))));
                break;
            }
        }
    }
    assert_eq!(outcome, Some(Ok(())));
}

#[test]
fn status_errors_follow_the_taxonomy() {
    assert!(matches!(status_error(401, String::new()), BackendError::Unauthorized));
    assert!(matches!(status_error(403, String::new()), BackendError::Forbidden));
    assert!(matches!(status_error(404, String::new()), BackendError::NotFound(_)));
    assert!(matches!(status_error(409, "dup".into()), BackendError::Conflict(_)));
    assert!(matches!(status_error(500, String::new()), BackendError::InternalServerError));
    assert!(matches!(status_error(503, String::new()), BackendError::ServerUnreachable));
    assert!(matches!(status_error(418, String::new()), BackendError::Other(_)));
    assert!(classify_login(200).is_ok());
    assert!(matches!(classify_login(401), Err(BackendError::Unauthorized)));
    assert!(matches!(classify_login(500), Err(BackendError::Other(_))));
}

#[test]
fn endpoints_speak_the_wire_grammar() {
    assert_eq!(endpoint_dir("/a/b"), "api/directories/a/b");
    assert_eq!(endpoint_file("/a.txt"), "api/files/a.txt");
    assert_eq!(endpoint_attr("//x"), "api/files/attributes/x");
    assert_eq!(endpoint_read("/a.txt", 0, 16384), "api/files/a.txt?offset=0&size=16384");
    assert_eq!(endpoint_stream("/big", 4096), "api/files/stream/big?offset=4096");
    assert_eq!(dec_u64(0), "0");
    assert_eq!(dec_u64(907), "907");
    assert_eq!(dec_u64(u64::MAX), "18446744073709551615");
}

#[test]
fn request_bodies_escape_quotes_and_backslashes() {
    assert_eq!(
        login_body("alice", "secret").unwrap(),
        "{\"username\":\"alice\",\"password\":\"secret\"}"
    );
    assert_eq!(
        login_body("a\"b", "c\\d").unwrap(),
        "{\"username\":\"a\\\"b\",\"password\":\"c\\\\d\"}"
    );
    assert!(login_body("bad\nname", "x").is_none());
    assert_eq!(rename_body("/new/place").unwrap(), "{\"new_path\":\"/new/place\"}");
}

#[test]
fn renamed_prefixes_reanchor_descendants_only() {
    assert_eq!(reanchor_path("/a/b", "/a/b", "/c").unwrap(), "/c");
    assert_eq!(reanchor_path("/a/b/deep/x", "/a/b", "/c").unwrap(), "/c/deep/x");
    assert!(reanchor_path("/a/bc", "/a/b", "/c").is_none());
    assert!(reanchor_path("/other", "/a/b", "/c").is_none());
}

#[test]
fn file_names_are_the_last_path_segment() {
    assert_eq!(file_name_of("/a/b.txt"), "b.txt");
    assert_eq!(file_name_of("/top"), "top");
    assert_eq!(file_name_of("plain"), "plain");
    assert_eq!(file_name_of("/"), "/");
}

#[test]
fn failure_bodies_yield_their_error_field() {
    assert_eq!(
        parse_error_body(br#"{"error":"already exists"}"#),
        Some("already exists".to_string())
    );
    assert_eq!(parse_error_body(b"{}"), None);
    assert_eq!(parse_error_body(b"plain text"), None);
}

#[test]
fn wire_entries_become_metadata_records() {
    let w = WireEntry {
        path: "/docs/readme.md".to_string(),
        owner: 1000,
        group: None,
        ty: 0,
        permissions: 0o644,
        size: 42,
        atime: 1,
        mtime: 2,
        ctime: 3,
        btime: 4,
    };
    let e = entry_from_fields(&w, 77).unwrap();
    assert_eq!(e.ino, 77);
    assert_eq!(e.name, "readme.md");
    assert_eq!(e.kind, EntryType::File);
    assert_eq!(e.size, 42);
    assert_eq!(e.gid, 1000);
    assert_eq!(e.nlinks, 1);
    let d = WireEntry { ty: 1, group: Some(5), ..w };
    let de = entry_from_fields(&d, 78).unwrap();
    assert_eq!(de.kind, EntryType::Directory);
    assert_eq!(de.size, 0);
    assert_eq!(de.gid, 5);
    assert_eq!(de.nlinks, 2);
    let bad = WireEntry { ty: 9, ..blank_wire_entry() };
    assert!(entry_from_fields(&bad, 79).is_none());
}

fn blank_wire_entry() -> WireEntry {
    WireEntry {
        path: "/x".to_string(),
        owner: 0,
        group: None,
        ty: 0,
        permissions: 0,
        size: 0,
        atime: 0,
        mtime: 0,
        ctime: 0,
        btime: 0,
    }
}

#[test]
fn json_bodies_parse_into_entries() {
    let body = br#"{"path":"/a/b.txt","owner":7,"group":null,"type":0,"permissions":420,"size":9,"atime":10,"mtime":20,"ctime":30,"btime":40}"#;
    let e = parse_entry(body, 55).unwrap();
    assert_eq!(e.ino, 55);
    assert_eq!(e.name, "b.txt");
    assert_eq!(e.perms, 420);
    assert_eq!(e.size, 9);
    assert_eq!(e.mtime, 20);
    assert_eq!(e.uid, 7);
    assert_eq!(e.gid, 7);
    assert!(matches!(parse_entry(b"not json", 1), Err(BackendError::BadAnswerFormat)));
    assert!(matches!(parse_entry(b"{}", 1), Err(BackendError::BadAnswerFormat)));
    let listing = br#"[{"path":"/a","owner":1,"group":2,"type":1,"permissions":493,"size":0,"atime":1,"mtime":1,"ctime":1,"btime":1}]"#;
    let ws = parse_listing(listing).unwrap();
    assert_eq!(ws.len(), 1);
    assert_eq!(ws[0].ty, 1);
    assert_eq!(ws[0].group, Some(2));
    assert_eq!(parse_bytes_written(br#"{"bytes":11}"#).unwrap(), 11);
    assert!(parse_bytes_written(b"{}").is_err());
}
