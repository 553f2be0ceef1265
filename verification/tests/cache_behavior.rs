use std::cell::RefCell;
use std::rc::Rc;

use rfs_client::{
    BackendError, Cache, FileEntry, RemoteBackend, SetAttrRequest, StubBackend, BLOCK_SIZE,
};

/// Counts how often each backend operation runs, so tests can observe
/// which calls the cache avoided; the filesystem state is shared, so a
/// test can also change it behind the cache's back.
#[derive(Default)]
struct Counts {
    list_dir: usize,
    get_attr: usize,
    get_attr_ims: usize,
    read_chunk: usize,
    write_chunk: usize,
    write_stream: usize,
}

struct CountingBackend {
    inner: Rc<RefCell<StubBackend>>,
    counts: Rc<RefCell<Counts>>,
}

impl RemoteBackend for CountingBackend {
    fn list_dir(&mut self, ino: u64) -> Result<Vec<FileEntry>, BackendError> {
        self.counts.borrow_mut().list_dir += 1;
        self.inner.borrow_mut().list_dir(ino)
    }
    fn get_attr(&mut self, ino: u64) -> Result<FileEntry, BackendError> {
        self.counts.borrow_mut().get_attr += 1;
        self.inner.borrow_mut().get_attr(ino)
    }
    fn get_attr_if_modified_since(
        &mut self,
        ino: u64,
        since: u64,
    ) -> Result<Option<FileEntry>, BackendError> {
        self.counts.borrow_mut().get_attr_ims += 1;
        self.inner.borrow_mut().get_attr_if_modified_since(ino, since)
    }
    fn lookup(&mut self, parent_ino: u64, name: &str) -> Result<FileEntry, BackendError> {
        self.inner.borrow_mut().lookup(parent_ino, name)
    }
    fn create_file(&mut self, parent_ino: u64, name: &str) -> Result<FileEntry, BackendError> {
        self.inner.borrow_mut().create_file(parent_ino, name)
    }
    fn create_dir(&mut self, parent_ino: u64, name: &str) -> Result<FileEntry, BackendError> {
        self.inner.borrow_mut().create_dir(parent_ino, name)
    }
    fn delete_file(&mut self, parent_ino: u64, name: &str) -> Result<(), BackendError> {
        self.inner.borrow_mut().delete_file(parent_ino, name)
    }
    fn delete_dir(&mut self, parent_ino: u64, name: &str) -> Result<(), BackendError> {
        self.inner.borrow_mut().delete_dir(parent_ino, name)
    }
    fn read_chunk(&mut self, ino: u64, offset: u64, size: u64) -> Result<Vec<u8>, BackendError> {
        self.counts.borrow_mut().read_chunk += 1;
        self.inner.borrow_mut().read_chunk(ino, offset, size)
    }
    fn write_chunk(&mut self, ino: u64, offset: u64, data: Vec<u8>) -> Result<u64, BackendError> {
        self.counts.borrow_mut().write_chunk += 1;
        self.inner.borrow_mut().write_chunk(ino, offset, data)
    }
    fn write_stream(&mut self, ino: u64, offset: u64, data: Vec<u8>) -> Result<(), BackendError> {
        self.counts.borrow_mut().write_stream += 1;
        self.inner.borrow_mut().write_stream(ino, offset, data)
    }
    fn rename(
        &mut self,
        old_parent_ino: u64,
        old_name: &str,
        new_parent_ino: u64,
        new_name: &str,
    ) -> Result<FileEntry, BackendError> {
        self.inner
            .borrow_mut()
            .rename(old_parent_ino, old_name, new_parent_ino, new_name)
    }
    fn set_attr(&mut self, ino: u64, attrs: SetAttrRequest) -> Result<FileEntry, BackendError> {
        self.inner.borrow_mut().set_attr(ino, attrs)
    }
    fn link(
        &mut self,
        target_ino: u64,
        link_parent_ino: u64,
        link_name: &str,
    ) -> Result<FileEntry, BackendError> {
        self.inner.borrow_mut().link(target_ino, link_parent_ino, link_name)
    }
    fn symlink(
        &mut self,
        target_path: &str,
        link_parent_ino: u64,
        link_name: &str,
    ) -> Result<FileEntry, BackendError> {
        self.inner.borrow_mut().symlink(target_path, link_parent_ino, link_name)
    }
    fn readlink(&mut self, ino: u64) -> Result<String, BackendError> {
        self.inner.borrow_mut().readlink(ino)
    }
    fn get_size(&mut self) -> Result<(u64, u64), BackendError> {
        self.inner.borrow_mut().get_size()
    }
}

fn fixture() -> (Cache<CountingBackend>, Rc<RefCell<StubBackend>>, Rc<RefCell<Counts>>) {
    let stub = Rc::new(RefCell::new(StubBackend::new()));
    let counts = Rc::new(RefCell::new(Counts::default()));
    let backend = CountingBackend { inner: stub.clone(), counts: counts.clone() };
    let cache = Cache::new(backend, 256, 16, 64, 16);
    (cache, stub, counts)
}

#[test]
fn zero_size_read_is_empty_without_backend_calls() {
    let (mut cache, _stub, counts) = fixture();
    let data = cache.read_chunk(4, 0, 0).unwrap();
    assert_eq!(data, Vec::<u8>::new());
    let c = counts.borrow();
    assert_eq!(c.read_chunk, 0);
    assert_eq!(c.get_attr, 0);
    assert_eq!(c.get_attr_ims, 0);
}

#[test]
fn read_after_write_observes_written_bytes() {
    let (mut cache, _stub, _counts) = fixture();
    let e = cache.create_file(1, "w.txt").unwrap();
    cache.write_chunk(e.ino, 0, b"hello world".to_vec()).unwrap();
    let data = cache.read_chunk(e.ino, 0, 11).unwrap();
    assert_eq!(data, b"hello world".to_vec());
    cache.write_chunk(e.ino, 6, b"again".to_vec()).unwrap();
    let data2 = cache.read_chunk(e.ino, 0, 11).unwrap();
    assert_eq!(data2, b"hello again".to_vec());
}

#[test]
fn cached_blocks_avoid_refetch_until_invalidated() {
    let (mut cache, _stub, counts) = fixture();
    let e = cache.create_file(1, "w.txt").unwrap();
    cache.write_chunk(e.ino, 0, b"abcdef".to_vec()).unwrap();
    cache.read_chunk(e.ino, 0, 6).unwrap();
    let fetched_once = counts.borrow().read_chunk;
    cache.read_chunk(e.ino, 0, 6).unwrap();
    assert_eq!(counts.borrow().read_chunk, fetched_once);
    cache.write_chunk(e.ino, 0, b"XY".to_vec()).unwrap();
    let d = cache.read_chunk(e.ino, 0, 6).unwrap();
    assert_eq!(d, b"XYcdef".to_vec());
    assert!(counts.borrow().read_chunk > fetched_once);
}

#[test]
fn background_mtime_bump_invalidates_blocks() {
    let (mut cache, stub, counts) = fixture();
    let e = cache.create_file(1, "w.txt").unwrap();
    cache.write_chunk(e.ino, 0, b"old-bytes".to_vec()).unwrap();
    cache.read_chunk(e.ino, 0, 9).unwrap();
    assert!(cache.blocks_of(e.ino) > 0);
    // a writer on another client changes the file behind the cache
    stub.borrow_mut().write_chunk(e.ino, 0, b"new-bytes".to_vec()).unwrap();
    let fresh = cache.get_attr(e.ino).unwrap();
    assert_eq!(fresh.size, 9);
    assert_eq!(cache.blocks_of(e.ino), 0);
    let before = counts.borrow().read_chunk;
    let d = cache.read_chunk(e.ino, 0, 9).unwrap();
    assert_eq!(d, b"new-bytes".to_vec());
    assert!(counts.borrow().read_chunk > before);
}

#[test]
fn unchanged_attr_is_served_from_cache() {
    let (mut cache, _stub, counts) = fixture();
    let e = cache.create_file(1, "w.txt").unwrap();
    let a = cache.get_attr(e.ino).unwrap();
    let b = cache.get_attr(e.ino).unwrap();
    assert_eq!(a, b);
    // both calls revalidate conditionally, neither fetches unconditionally
    assert_eq!(counts.borrow().get_attr, 0);
    assert!(counts.borrow().get_attr_ims >= 2);
}

#[test]
fn listing_is_reused_until_a_mutation_evicts_it() {
    let (mut cache, _stub, counts) = fixture();
    cache.list_dir(1).unwrap();
    assert_eq!(counts.borrow().list_dir, 1);
    cache.list_dir(1).unwrap();
    assert_eq!(counts.borrow().list_dir, 1);
    cache.create_file(1, "fresh.txt").unwrap();
    let l = cache.list_dir(1).unwrap();
    assert_eq!(counts.borrow().list_dir, 2);
    assert!(l.iter().any(|x| x.name == "fresh.txt"));
}

#[test]
fn rename_through_cache_updates_both_listings() {
    let (mut cache, _stub, _counts) = fixture();
    cache.create_file(1, "a.txt").unwrap();
    cache.list_dir(1).unwrap();
    let moved = cache.rename(1, "a.txt", 3, "b.txt").unwrap();
    let root = cache.list_dir(1).unwrap();
    assert!(root.iter().all(|x| x.name != "a.txt"));
    let sub = cache.list_dir(3).unwrap();
    assert!(sub.iter().any(|x| x.name == "b.txt" && x.ino == moved.ino));
}

#[test]
fn truncate_through_cache_drops_tail_blocks() {
    let (mut cache, _stub, _counts) = fixture();
    let e = cache.create_file(1, "big.txt").unwrap();
    let block = BLOCK_SIZE as usize;
    let payload = vec![7u8; 2 * block + 10];
    cache.write_chunk(e.ino, 0, payload).unwrap();
    cache.read_chunk(e.ino, 0, (2 * block + 10) as u64).unwrap();
    assert!(cache.blocks_of(e.ino) >= 2);
    cache.set_attr(e.ino, SetAttrRequest::with_size(3)).unwrap();
    assert!(cache.blocks_of(e.ino) <= 1);
    let d = cache.read_chunk(e.ino, 0, 100).unwrap();
    assert_eq!(d, vec![7u8, 7u8, 7u8]);
}

#[test]
fn capacities_are_never_exceeded() {
    let stub = Rc::new(RefCell::new(StubBackend::new()));
    let counts = Rc::new(RefCell::new(Counts::default()));
    let backend = CountingBackend { inner: stub.clone(), counts };
    let mut cache = Cache::new(backend, 4, 2, 2, 2);
    let mut inos = Vec::new();
    for i in 0..10 {
        let name = format!("f{}", i);
        let e = cache.create_file(1, name.as_str()).unwrap();
        inos.push(e.ino);
    }
    for &ino in &inos {
        cache.write_chunk(ino, 0, vec![1u8; (BLOCK_SIZE * 3) as usize]).unwrap();
        cache.read_chunk(ino, 0, BLOCK_SIZE * 3).unwrap();
        assert!(cache.meta_len() <= 4);
        assert!(cache.dir_len() <= 2);
        assert!(cache.block_file_count() <= 2);
        assert!(cache.blocks_of(ino) <= 2);
    }
}

#[test]
fn reads_straddling_eof_through_cache() {
    let (mut cache, _stub, _counts) = fixture();
    let e = cache.create_file(1, "s.txt").unwrap();
    cache.write_chunk(e.ino, 0, b"abcdef".to_vec()).unwrap();
    assert_eq!(cache.read_chunk(e.ino, 4, 100).unwrap(), b"ef".to_vec());
    assert_eq!(cache.read_chunk(e.ino, 6, 100).unwrap(), Vec::<u8>::new());
    assert_eq!(cache.read_chunk(e.ino, 600, 100).unwrap(), Vec::<u8>::new());
}

#[test]
fn block_span_covers_requested_ranges() {
    assert_eq!(rfs_client::block_span(0, 1), (0, 0));
    assert_eq!(rfs_client::block_span(0, BLOCK_SIZE), (0, 0));
    assert_eq!(rfs_client::block_span(0, BLOCK_SIZE + 1), (0, 1));
    assert_eq!(rfs_client::block_span(BLOCK_SIZE, 1), (1, 1));
    assert_eq!(rfs_client::block_span(5, 0), (0, 0));
    assert_eq!(rfs_client::block_span(BLOCK_SIZE - 1, 2), (0, 1));
}

#[test]
fn delete_file_through_cache_updates_listing() {
    let (mut cache, _stub, _counts) = fixture();
    cache.create_file(1, "gone.txt").unwrap();
    cache.list_dir(1).unwrap();
    cache.delete_file(1, "gone.txt").unwrap();
    let l = cache.list_dir(1).unwrap();
    assert!(l.iter().all(|x| x.name != "gone.txt"));
}

#[test]
fn cache_forwards_errors_unchanged() {
    let (mut cache, _stub, _counts) = fixture();
    match cache.get_attr(999) {
        Err(BackendError::NotFound(_)) => {}
        other => panic!("expected not found, got {:?}", other),
    }
    match cache.create_file(1, "cartella1") {
        Err(BackendError::Conflict(_)) => {}
        other => panic!("expected a conflict, got {:?}", other),
    }
}
