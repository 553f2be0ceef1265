use vstd::prelude::*;

use std::num::NonZeroUsize;

use crate::models::{EntryView, FileEntry};

verus! {

// The three cache tiers are bounded least-recently-used maps from the
// `lru` crate. Verus sees each tier only through the names below: what
// it holds, and the capacity it was created with. Reads through `get`
// refresh recency and leave the contents unchanged; `put` inserts its
// pair and, only when a new key does not fit, evicts the
// least-recently-used entry.
#[verifier::external_type_specification]
#[verifier::external_body]
#[verifier::reject_recursive_types(K)]
#[verifier::reject_recursive_types(V)]
#[verifier::reject_recursive_types(S)]
pub struct ExLruCache<K, V, S>(lru::LruCache<K, V, S>);

#[verifier::external_type_specification]
#[verifier::external_body]
pub struct ExDefaultHasher(lru::DefaultHasher);

/// The metadata tier: entry records by inode.
pub type MetaLru = lru::LruCache<u64, FileEntry>;

/// The directory-listing tier: child-inode lists by directory inode.
pub type ListingLru = lru::LruCache<u64, Vec<u64>>;

/// What the metadata tier holds: entry views by inode.
pub uninterp spec fn meta_contents(c: MetaLru) -> Map<u64, EntryView>;

/// The capacity the metadata tier was created with.
pub uninterp spec fn meta_cap(c: MetaLru) -> nat;

/// Relies on lru::LruCache::new: an empty cache with the given capacity.
#[verifier::external_body]
pub fn meta_lru_new(cap: usize) -> (r: MetaLru)
    requires
        cap >= 1,
    ensures
        meta_cap(r) == cap,
        meta_contents(r).dom().finite(),
        forall|k: u64| !meta_contents(r).contains_key(k),
{
    lru::LruCache::new(NonZeroUsize::new(cap).unwrap())
}

/// Relies on lru::LruCache::get: returns the entry under the key and
/// only refreshes its recency.
#[verifier::external_body]
pub fn meta_lru_get(c: &mut MetaLru, ino: u64) -> (r: Option<FileEntry>)
    ensures
        meta_contents(*final(c)) == meta_contents(*old(c)),
        meta_cap(*final(c)) == meta_cap(*old(c)),
        meta_contents(*final(c)).dom().finite(),
        match r {
            Some(e) => meta_contents(*old(c)).contains_key(ino) && e@ == meta_contents(*old(c))[
                ino
            ],
            None => !meta_contents(*old(c)).contains_key(ino),
        },
{
    c.get(&ino).cloned()
}

/// Relies on lru::LruCache::put: inserts the pair; an existing key is
/// replaced in place, and only a new key that does not fit evicts the
/// least-recently-used entry.
#[verifier::external_body]
pub fn meta_lru_put(c: &mut MetaLru, ino: u64, e: FileEntry)
    ensures
        meta_cap(*final(c)) == meta_cap(*old(c)),
        meta_contents(*final(c)).dom().finite(),
        meta_contents(*final(c)).contains_key(ino),
        meta_contents(*final(c))[ino] == e@,
        meta_contents(*final(c)).dom().subset_of(meta_contents(*old(c)).dom().insert(ino)),
        forall|k: u64| #[trigger]
            meta_contents(*final(c)).contains_key(k) && k != ino ==> meta_contents(
                *old(c),
            ).contains_key(k) && meta_contents(*final(c))[k] == meta_contents(*old(c))[k],
        meta_contents(*final(c)).len() <= meta_cap(*old(c)),
        meta_contents(*old(c)).contains_key(ino) || meta_contents(*old(c)).len() < meta_cap(
            *old(c),
        ) ==> meta_contents(*final(c)) == meta_contents(*old(c)).insert(ino, e@),
{
    c.put(ino, e);
}

/// Relies on lru::LruCache::pop: removes the entry under the key.
#[verifier::external_body]
pub fn meta_lru_pop(c: &mut MetaLru, ino: u64)
    ensures
        meta_cap(*final(c)) == meta_cap(*old(c)),
        meta_contents(*final(c)).dom().finite(),
        meta_contents(*final(c)) == meta_contents(*old(c)).remove(ino),
{
    c.pop(&ino);
}

/// Relies on lru::LruCache::len: how many entries the tier holds.
#[verifier::external_body]
pub fn meta_lru_len(c: &MetaLru) -> (r: usize)
    ensures
        r == meta_contents(*c).len(),
{
    c.len()
}

/// What the directory-listing tier holds: child-inode lists by
/// directory inode.
pub uninterp spec fn dir_contents(c: ListingLru) -> Map<u64, Seq<u64>>;

/// The capacity the directory-listing tier was created with.
pub uninterp spec fn dir_cap(c: ListingLru) -> nat;

/// Relies on lru::LruCache::new: an empty cache with the given capacity.
#[verifier::external_body]
pub fn dir_lru_new(cap: usize) -> (r: ListingLru)
    requires
        cap >= 1,
    ensures
        forall|k: u64| !dir_contents(r).contains_key(k),
        dir_cap(r) == cap,
{
    lru::LruCache::new(NonZeroUsize::new(cap).unwrap())
}

/// Relies on lru::LruCache::get: returns the listing under the key and
/// only refreshes its recency.
#[verifier::external_body]
pub fn dir_lru_get(c: &mut ListingLru, ino: u64) -> (r: Option<Vec<u64>>)
    ensures
        dir_contents(*final(c)) == dir_contents(*old(c)),
        dir_cap(*final(c)) == dir_cap(*old(c)),
        dir_contents(*final(c)).dom().finite(),
        match r {
            Some(v) => dir_contents(*old(c)).contains_key(ino) && v@ == dir_contents(*old(c))[ino],
            None => !dir_contents(*old(c)).contains_key(ino),
        },
{
    c.get(&ino).cloned()
}

/// Relies on lru::LruCache::put: inserts the pair; an existing key is
/// replaced in place, and only a new key that does not fit evicts the
/// least-recently-used entry.
#[verifier::external_body]
pub fn dir_lru_put(c: &mut ListingLru, ino: u64, v: Vec<u64>)
    ensures
        dir_cap(*final(c)) == dir_cap(*old(c)),
        dir_contents(*final(c)).dom().finite(),
        dir_contents(*final(c)).contains_key(ino),
        dir_contents(*final(c))[ino] == v@,
        dir_contents(*final(c)).dom().subset_of(dir_contents(*old(c)).dom().insert(ino)),
        forall|k: u64| #[trigger]
            dir_contents(*final(c)).contains_key(k) && k != ino ==> dir_contents(
                *old(c),
            ).contains_key(k) && dir_contents(*final(c))[k] == dir_contents(*old(c))[k],
        dir_contents(*final(c)).len() <= dir_cap(*old(c)),
        dir_contents(*old(c)).contains_key(ino) || dir_contents(*old(c)).len() < dir_cap(*old(c))
            ==> dir_contents(*final(c)) == dir_contents(*old(c)).insert(ino, v@),
{
    c.put(ino, v);
}

/// Relies on lru::LruCache::pop: removes the listing under the key.
#[verifier::external_body]
pub fn dir_lru_pop(c: &mut ListingLru, ino: u64)
    ensures
        dir_cap(*final(c)) == dir_cap(*old(c)),
        dir_contents(*final(c)).dom().finite(),
        dir_contents(*final(c)) == dir_contents(*old(c)).remove(ino),
{
    c.pop(&ino);
}

/// Relies on lru::LruCache::len: how many listings the tier holds.
#[verifier::external_body]
pub fn dir_lru_len(c: &ListingLru) -> (r: usize)
    ensures
        r == dir_contents(*c).len(),
{
    c.len()
}

/// The block tier: an outer least-recently-used map from inode to an
/// inner least-recently-used map from block index to block bytes. The
/// inner tier of every file is created with the same capacity, held
/// beside the collection; Verus sees the structure only through
/// `blocks_map`, `blocks_file_cap` and `blocks_inner_cap`.
#[verifier::external_body]
pub struct BlockStore {
    inner: lru::LruCache<u64, lru::LruCache<u64, Vec<u8>>>,
    block_cap: NonZeroUsize,
}

/// What the block tier holds: for each inode, block bytes by block index.
pub uninterp spec fn blocks_map(c: BlockStore) -> Map<u64, Map<u64, Seq<u8>>>;

/// How many per-file block caches the outer tier may hold.
pub uninterp spec fn blocks_file_cap(c: BlockStore) -> nat;

/// How many blocks each per-file inner tier may hold.
pub uninterp spec fn blocks_inner_cap(c: BlockStore) -> nat;

impl BlockStore {
    /// Relies on lru::LruCache::new: an empty two-level cache with the
    /// given outer and inner capacities.
    #[verifier::external_body]
    pub fn new(file_cap: usize, inner_cap: usize) -> (r: BlockStore)
        requires
            file_cap >= 1,
            inner_cap >= 1,
        ensures
            forall|k: u64| !blocks_map(r).contains_key(k),
            blocks_file_cap(r) == file_cap,
            blocks_inner_cap(r) == inner_cap,
            blocks_map(r).dom().finite(),
    {
        BlockStore {
            inner: lru::LruCache::new(NonZeroUsize::new(file_cap).unwrap()),
            block_cap: NonZeroUsize::new(inner_cap).unwrap(),
        }
    }

    /// Relies on lru::LruCache::get_mut and get: returns the block and
    /// only refreshes recency at both levels.
    #[verifier::external_body]
    pub fn get_block(&mut self, ino: u64, idx: u64) -> (r: Option<Vec<u8>>)
        ensures
            blocks_map(*final(self)) == blocks_map(*old(self)),
            blocks_file_cap(*final(self)) == blocks_file_cap(*old(self)),
            blocks_inner_cap(*final(self)) == blocks_inner_cap(*old(self)),
            blocks_map(*final(self)).dom().finite(),
            match r {
                Some(b) => blocks_map(*old(self)).contains_key(ino) && blocks_map(*old(self))[
                    ino
                ].contains_key(idx) && b@ == blocks_map(*old(self))[ino][idx],
                None => !blocks_map(*old(self)).contains_key(ino) || !blocks_map(*old(self))[
                    ino
                ].contains_key(idx),
            },
    {
        self.inner.get_mut(&ino).and_then(|l| l.get(&idx)).cloned()
    }

    /// Relies on lru::LruCache::put and get_mut: stores the block,
    /// creating the file's inner tier lazily; an existing index is
    /// replaced in place; a new index or file that does not fit evicts
    /// only least-recently-used entries of its own level.
    #[verifier::external_body]
    pub fn put_block(&mut self, ino: u64, idx: u64, data: Vec<u8>)
        ensures
            blocks_file_cap(*final(self)) == blocks_file_cap(*old(self)),
            blocks_inner_cap(*final(self)) == blocks_inner_cap(*old(self)),
            blocks_map(*final(self)).dom().finite(),
            forall|k: u64| #[trigger]
                blocks_map(*final(self)).contains_key(k) ==> blocks_map(
                    *final(self),
                )[k].dom().finite(),
            blocks_map(*final(self)).contains_key(ino),
            blocks_map(*final(self))[ino].contains_key(idx),
            blocks_map(*final(self))[ino][idx] == data@,
            blocks_map(*final(self)).dom().subset_of(
                blocks_map(*old(self)).dom().insert(ino),
            ),
            forall|k: u64| #[trigger]
                blocks_map(*final(self)).contains_key(k) && k != ino ==> blocks_map(
                    *old(self),
                ).contains_key(k) && blocks_map(*final(self))[k] == blocks_map(*old(self))[k],
            blocks_map(*final(self))[ino].dom().subset_of(
                (if blocks_map(*old(self)).contains_key(ino) {
                    blocks_map(*old(self))[ino].dom()
                } else {
                    Set::<u64>::empty()
                }).insert(idx),
            ),
            forall|j: u64| #[trigger]
                blocks_map(*final(self))[ino].contains_key(j) && j != idx ==> blocks_map(
                    *old(self),
                ).contains_key(ino) && blocks_map(*old(self))[ino].contains_key(j) && blocks_map(
                    *final(self),
                )[ino][j] == blocks_map(*old(self))[ino][j],
            blocks_map(*final(self)).len() <= blocks_file_cap(*old(self)),
            forall|k: u64| #[trigger]
                blocks_map(*final(self)).contains_key(k) ==> blocks_map(*final(self))[k].len()
                    <= blocks_inner_cap(*old(self)) && blocks_map(*final(self))[k].len() >= 1,
            blocks_map(*old(self)).contains_key(ino) && (blocks_map(*old(self))[ino].contains_key(
                idx,
            ) || blocks_map(*old(self))[ino].len() < blocks_inner_cap(*old(self))) ==> blocks_map(
                *final(self),
            ) == blocks_map(*old(self)).insert(
                ino,
                blocks_map(*old(self))[ino].insert(idx, data@),
            ),
            !blocks_map(*old(self)).contains_key(ino) && blocks_map(*old(self)).len()
                < blocks_file_cap(*old(self)) ==> blocks_map(*final(self)) == blocks_map(
                *old(self),
            ).insert(ino, Map::<u64, Seq<u8>>::empty().insert(idx, data@)),
    {
        if !self.inner.contains(&ino) {
            self.inner.put(ino, lru::LruCache::new(self.block_cap));
        }
        self.inner.get_mut(&ino).unwrap().put(idx, data);
    }

    /// Relies on lru::LruCache::pop: drops every cached block of the
    /// inode.
    #[verifier::external_body]
    pub fn pop_file(&mut self, ino: u64)
        ensures
            blocks_file_cap(*final(self)) == blocks_file_cap(*old(self)),
            blocks_inner_cap(*final(self)) == blocks_inner_cap(*old(self)),
            blocks_map(*final(self)).dom().finite(),
            blocks_map(*final(self)) == blocks_map(*old(self)).remove(ino),
    {
        self.inner.pop(&ino);
    }

    /// Relies on lru::LruCache::get_mut, pop and is_empty: drops one
    /// block, and the file's inner tier once it holds nothing.
    #[verifier::external_body]
    pub fn pop_block(&mut self, ino: u64, idx: u64)
        ensures
            blocks_file_cap(*final(self)) == blocks_file_cap(*old(self)),
            blocks_inner_cap(*final(self)) == blocks_inner_cap(*old(self)),
            blocks_map(*final(self)).dom().finite(),
            blocks_map(*final(self)) == (if blocks_map(*old(self)).contains_key(ino) {
                if blocks_map(*old(self))[ino].remove(idx).len() == 0 {
                    blocks_map(*old(self)).remove(ino)
                } else {
                    blocks_map(*old(self)).insert(ino, blocks_map(*old(self))[ino].remove(idx))
                }
            } else {
                blocks_map(*old(self))
            }),
    {
        if let Some(l) = self.inner.get_mut(&ino) {
            l.pop(&idx);
            if l.is_empty() {
                self.inner.pop(&ino);
            }
        }
    }

    /// Relies on lru::LruCache::get_mut and iter: hands out the block
    /// indices the inode currently has cached.
    #[verifier::external_body]
    pub fn block_indices(&mut self, ino: u64) -> (r: Vec<u64>)
        ensures
            blocks_map(*final(self)) == blocks_map(*old(self)),
            blocks_file_cap(*final(self)) == blocks_file_cap(*old(self)),
            blocks_inner_cap(*final(self)) == blocks_inner_cap(*old(self)),
            r@.no_duplicates(),
            r@.to_set() == (if blocks_map(*old(self)).contains_key(ino) {
                blocks_map(*old(self))[ino].dom()
            } else {
                Set::<u64>::empty()
            }),
    {
        match self.inner.get_mut(&ino) {
            Some(l) => l.iter().map(|(k, _)| *k).collect(),
            None => Vec::new(),
        }
    }

    /// Relies on lru::LruCache::len: how many files have cached blocks.
    #[verifier::external_body]
    pub fn file_count(&self) -> (r: usize)
        ensures
            r == blocks_map(*self).len(),
    {
        self.inner.len()
    }

    /// Relies on lru::LruCache::peek and len: how many blocks the inode
    /// has cached, without touching recency.
    #[verifier::external_body]
    pub fn blocks_of(&self, ino: u64) -> (r: usize)
        ensures
            r == (if blocks_map(*self).contains_key(ino) {
                blocks_map(*self)[ino].len() as int
            } else {
                0
            }),
    {
        match self.inner.peek(&ino) {
            Some(l) => l.len(),
            None => 0,
        }
    }
}

} // verus!
