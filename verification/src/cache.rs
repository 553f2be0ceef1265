use vstd::prelude::*;

use crate::backend::RemoteBackend;
use crate::lru_store::{
    blocks_file_cap, blocks_inner_cap, blocks_map, dir_cap, dir_contents, dir_lru_get, dir_lru_len,
    dir_lru_new, dir_lru_pop, dir_lru_put, meta_cap, meta_contents, meta_lru_get, meta_lru_len,
    meta_lru_new, meta_lru_pop, meta_lru_put, BlockStore, ListingLru, MetaLru,
};
use crate::models::{BackendError, EntryView, FileEntry, SetAttrRequest, BLOCK_SIZE, MAX_IO_END};
use crate::strutil::str_eq;

verus! {

broadcast use vstd::set::group_set_axioms;

/// The first and last block index covered by `len` bytes at `offset`;
/// for an empty range, the block of the offset itself.
pub open spec fn spec_block_span(offset: u64, len: u64) -> (u64, u64) {
    (
        (offset / BLOCK_SIZE) as u64,
        if len == 0 {
            (offset / BLOCK_SIZE) as u64
        } else {
            (((offset + len - 1) as u64) / BLOCK_SIZE) as u64
        },
    )
}

/// Computes the covering block range of `len` bytes at `offset`.
pub fn block_span(offset: u64, len: u64) -> (r: (u64, u64))
    requires
        offset + len <= u64::MAX,
    ensures
        r == spec_block_span(offset, len),
        r.0 <= r.1,
{
    let start = offset / BLOCK_SIZE;
    let end = if len == 0 {
        offset / BLOCK_SIZE
    } else {
        (offset + (len - 1)) / BLOCK_SIZE
    };
    proof {
        if len > 0 {
            vstd::arithmetic::div_mod::lemma_div_is_ordered(
                offset as int,
                (offset + len - 1) as int,
                BLOCK_SIZE as int,
            );
        }
    }
    (start, end)
}

/// The bytes a paged read yields from consecutive blocks: for each
/// block, the slice of it that falls inside `[offset, offset + size)`;
/// assembly stops at the first block shorter than the block size, which
/// means end of file.
pub open spec fn spec_assemble(parts: Seq<Seq<u8>>, first: u64, offset: u64, size: u64) -> Seq<u8>
    decreases parts.len(),
{
    if parts.len() == 0 {
        Seq::empty()
    } else {
        let b = parts[0];
        let boff = first as int * (BLOCK_SIZE as int);
        let lo0: int = if offset as int > boff {
            offset - boff
        } else {
            0
        };
        let hi0: int = offset + size - boff;
        let hi1: int = if hi0 < 0 {
            0
        } else {
            hi0
        };
        let hi2: int = if hi1 > b.len() {
            b.len() as int
        } else {
            hi1
        };
        let hi3: int = if hi2 > BLOCK_SIZE as int {
            BLOCK_SIZE as int
        } else {
            hi2
        };
        let lo: int = if lo0 > hi3 {
            hi3
        } else {
            lo0
        };
        let piece = b.subrange(lo, hi3);
        if b.len() < BLOCK_SIZE {
            piece
        } else {
            piece + spec_assemble(parts.drop_first(), (first + 1) as u64, offset, size)
        }
    }
}

/// The cached blocks covering a span, in block order.
pub open spec fn spec_span_blocks(
    bm: Map<u64, Map<u64, Seq<u8>>>,
    ino: u64,
    first: u64,
    last: u64,
) -> Seq<Seq<u8>> {
    Seq::new((last - first + 1) as nat, |t: int| bm[ino][(first + t) as u64])
}

/// The fully-cached read hypothesis: the inode's metadata was cached and
/// stayed untouched, and every block of the span was cached.
pub open spec fn spec_read_all_cached(
    meta0: Map<u64, EntryView>,
    meta1: Map<u64, EntryView>,
    bm: Map<u64, Map<u64, Seq<u8>>>,
    ino: u64,
    first: u64,
    last: u64,
) -> bool {
    meta0.contains_key(ino) && meta1 == meta0 && (forall|j: u64|
        first <= j <= last ==> bm.contains_key(ino) && #[trigger] bm[ino].contains_key(j))
}

/// Assembly stops at the first short block: the blocks after it do not
/// change the answer.
proof fn lemma_assemble_stop(full: Seq<Seq<u8>>, n: int, first: u64, offset: u64, size: u64)
    requires
        1 <= n <= full.len(),
        forall|k: int| 0 <= k < n - 1 ==> (#[trigger] full[k]).len() >= BLOCK_SIZE,
        full[n - 1].len() < BLOCK_SIZE,
    ensures
        spec_assemble(full.take(n), first, offset, size) == spec_assemble(
            full,
            first,
            offset,
            size,
        ),
    decreases n,
{
    if n == 1 {
        assert(full.take(1)[0] == full[0]);
    } else {
        let d = full.drop_first();
        assert(forall|k: int| 0 <= k < d.len() ==> d[k] == full[k + 1]);
        assert(full.take(n)[0] == full[0]);
        assert(full.take(n).drop_first() =~= d.take(n - 1));
        lemma_assemble_stop(d, n - 1, (first + 1) as u64, offset, size);
    }
}

/// Assembles the answer of a paged read from the blocks covering it,
/// copying only the requested subrange of each block.
pub fn assemble_read(parts: &Vec<Vec<u8>>, first: u64, offset: u64, size: u64) -> (r: Vec<u8>)
    requires
        size > 0,
        offset + size <= u64::MAX,
        first == spec_block_span(offset, size).0,
        parts@.len() <= spec_block_span(offset, size).1 - spec_block_span(offset, size).0 + 1,
    ensures
        r@ == spec_assemble(parts@.map_values(|v: Vec<u8>| v@), first, offset, size),
        r@.len() <= size,
{
    let ghost ps = parts@.map_values(|v: Vec<u8>| v@);
    let ghost target = spec_assemble(ps, first, offset, size);
    let ghost last = spec_block_span(offset, size).1;
    proof {
        vstd::arithmetic::div_mod::lemma_fundamental_div_mod((offset + size - 1) as int, BLOCK_SIZE as int);
        assert(last * BLOCK_SIZE <= offset + size - 1);
    }
    proof {
        assert(ps.skip(0) =~= ps);
    }
    let mut out: Vec<u8> = Vec::new();
    let mut i: usize = 0;
    let mut stop = false;
    while i < parts.len() && !stop
        invariant
            i <= parts@.len(),
            size > 0,
            offset + size <= u64::MAX,
            first == spec_block_span(offset, size).0,
            last == spec_block_span(offset, size).1,
            last * BLOCK_SIZE <= offset + size - 1,
            parts@.len() <= last - first + 1,
            ps == parts@.map_values(|v: Vec<u8>| v@),
            ps.len() == parts@.len(),
            !stop ==> target == out@ + spec_assemble(
                ps.skip(i as int),
                (first + i) as u64,
                offset,
                size,
            ),
            stop ==> out@ == target,
            !stop && i == 0 ==> out@.len() == 0,
            !stop && i >= 1 ==> out@.len() <= (if offset + size < (first + i) * BLOCK_SIZE {
                offset + size
            } else {
                (first + i) * BLOCK_SIZE
            }) - offset,
            stop ==> out@.len() <= size,
        decreases parts@.len() - i,
    {
        let b: &Vec<u8> = &parts[i];
        proof {
            assert(first + i as u64 <= last);
        }
        let boff: u64 = (first + i as u64) * BLOCK_SIZE;
        let lo: u64 = if offset > boff {
            offset - boff
        } else {
            0
        };
        let mut hi: u64 = offset + size - boff;
        if hi > b.len() as u64 {
            hi = b.len() as u64;
        }
        if hi > BLOCK_SIZE {
            hi = BLOCK_SIZE;
        }
        let lo2: u64 = if lo > hi {
            hi
        } else {
            lo
        };
        let ghost out0 = out@;
        let lo_us: usize = lo2 as usize;
        let hi_us: usize = hi as usize;
        let mut k: usize = lo_us;
        while k < hi_us
            invariant
                lo_us <= k <= hi_us,
                hi_us <= b@.len(),
                out@ == out0 + b@.subrange(lo_us as int, k as int),
            decreases hi_us - k,
        {
            out.push(b[k]);
            proof {
                assert(out@ =~= out0 + b@.subrange(lo_us as int, k + 1 as int));
            }
            k = k + 1;
        }
        let is_short = b.len() < BLOCK_SIZE as usize;
        proof {
            assert(ps.skip(i as int)[0] == ps[i as int]);
            assert(ps.skip(i as int).drop_first() =~= ps.skip(i as int + 1));
            assert(ps[i as int] == parts@[i as int]@);
            assert(out@ == out0 + b@.subrange(lo2 as int, hi as int));
        }
        if is_short {
            stop = true;
        }
        i = i + 1;
    }
    proof {
        if !stop {
            assert(ps.skip(i as int) =~= Seq::<Seq<u8>>::empty());
        }
    }
    out
}

/// Removing a key from a finite map never grows it.
proof fn lemma_remove_len_le<V>(m: Map<u64, V>, k: u64)
    requires
        m.dom().finite(),
    ensures
        m.remove(k).len() <= m.len(),
        m.remove(k).dom().finite(),
{
    assert(m.remove(k).dom() =~= m.dom().remove(k));
}

/// How a bounded least-recently-used map may change when one pair is
/// stored: the pair is present afterwards, nothing else was added or
/// altered, the bound holds, and when the key was already present or
/// there was room, nothing was evicted at all.
pub open spec fn lru_put_shape<V>(
    old_m: Map<u64, V>,
    new_m: Map<u64, V>,
    k: u64,
    v: V,
    cap: nat,
) -> bool {
    &&& new_m.contains_key(k)
    &&& new_m[k] == v
    &&& new_m.dom().subset_of(old_m.dom().insert(k))
    &&& forall|k2: u64| #[trigger]
        new_m.contains_key(k2) && k2 != k ==> old_m.contains_key(k2) && new_m[k2] == old_m[k2]
    &&& new_m.len() <= cap
    &&& (old_m.contains_key(k) || old_m.len() < cap) ==> new_m == old_m.insert(k, v)
}

/// The coherent multi-tier cache: wraps a backend and exposes the same
/// operation surface, with bounded tiers for metadata, directory
/// listings and aligned file blocks; read paths revalidate against the
/// server's modification time, write paths invalidate what they touched.
pub struct Cache<B: RemoteBackend> {
    backend: B,
    meta: MetaLru,
    dir: ListingLru,
    blocks: BlockStore,
}

impl<B: RemoteBackend> Cache<B> {
    /// What the metadata tier holds.
    pub closed spec fn meta_view(self) -> Map<u64, EntryView> {
        meta_contents(self.meta)
    }

    /// What the directory-listing tier holds.
    pub closed spec fn dir_view(self) -> Map<u64, Seq<u64>> {
        dir_contents(self.dir)
    }

    /// What the block tier holds.
    pub closed spec fn blocks_view(self) -> Map<u64, Map<u64, Seq<u8>>> {
        blocks_map(self.blocks)
    }

    /// The backend the cache wraps.
    pub closed spec fn backend_view(self) -> B {
        self.backend
    }

    /// The configured capacity of the metadata tier.
    pub closed spec fn meta_cap_view(self) -> nat {
        meta_cap(self.meta)
    }

    /// The configured capacity of the directory-listing tier.
    pub closed spec fn dir_cap_view(self) -> nat {
        dir_cap(self.dir)
    }

    /// The configured number of per-file block caches.
    pub closed spec fn file_cap_view(self) -> nat {
        blocks_file_cap(self.blocks)
    }

    /// The configured capacity of each per-file block cache.
    pub closed spec fn inner_cap_view(self) -> nat {
        blocks_inner_cap(self.blocks)
    }

    /// Every tier is within its configured capacity, cached metadata is
    /// keyed by its own inode, and the wrapped backend is in a good
    /// state.
    pub closed spec fn wf(self) -> bool {
        &&& self.backend.ok()
        &&& meta_cap(self.meta) >= 1
        &&& dir_cap(self.dir) >= 1
        &&& blocks_file_cap(self.blocks) >= 1
        &&& blocks_inner_cap(self.blocks) >= 1
        &&& meta_contents(self.meta).dom().finite()
        &&& dir_contents(self.dir).dom().finite()
        &&& blocks_map(self.blocks).dom().finite()
        &&& meta_contents(self.meta).len() <= meta_cap(self.meta)
        &&& dir_contents(self.dir).len() <= dir_cap(self.dir)
        &&& blocks_map(self.blocks).len() <= blocks_file_cap(self.blocks)
        &&& forall|i: u64| #[trigger]
            blocks_map(self.blocks).contains_key(i) ==> blocks_map(self.blocks)[i].len()
                <= blocks_inner_cap(self.blocks) && blocks_map(self.blocks)[i].dom().finite()
        &&& forall|i: u64| #[trigger]
            meta_contents(self.meta).contains_key(i) ==> meta_contents(self.meta)[i].ino == i
    }

    /// Builds a cache with the given tier capacities around a backend.
    pub fn new(
        http_backend: B,
        attr_cap: usize,
        dir_cap_n: usize,
        file_block_cap: usize,
        file_num: usize,
    ) -> (r: Cache<B>)
        requires
            http_backend.ok(),
            attr_cap >= 1,
            dir_cap_n >= 1,
            file_block_cap >= 1,
            file_num >= 1,
        ensures
            r.wf(),
            r.backend_view() == http_backend,
            forall|k: u64| !r.meta_view().contains_key(k),
            forall|k: u64| !r.dir_view().contains_key(k),
            forall|k: u64| !r.blocks_view().contains_key(k),
    {
        let meta = meta_lru_new(attr_cap);
        let dir = dir_lru_new(dir_cap_n);
        let blocks = BlockStore::new(file_num, file_block_cap);
        let r = Cache { backend: http_backend, meta, dir, blocks };
        proof {
            assert(r.meta_view().dom() =~= Set::<u64>::empty());
            assert(r.dir_view().dom() =~= Set::<u64>::empty());
            assert(r.blocks_view().dom() =~= Set::<u64>::empty());
        }
        r
    }

    /// The number of metadata entries currently cached.
    pub fn meta_len(&self) -> (r: usize)
        ensures
            r == self.meta_view().len(),
    {
        meta_lru_len(&self.meta)
    }

    /// The number of directory listings currently cached.
    pub fn dir_len(&self) -> (r: usize)
        ensures
            r == self.dir_view().len(),
    {
        dir_lru_len(&self.dir)
    }

    /// The number of files with cached blocks.
    pub fn block_file_count(&self) -> (r: usize)
        ensures
            r == self.blocks_view().len(),
    {
        self.blocks.file_count()
    }

    /// The number of cached blocks of one file.
    pub fn blocks_of(&self, ino: u64) -> (r: usize)
        ensures
            r == (if self.blocks_view().contains_key(ino) {
                self.blocks_view()[ino].len() as int
            } else {
                0
            }),
    {
        self.blocks.blocks_of(ino)
    }

    /// Stores an entry in the metadata tier.
    fn remember_meta(&mut self, entry: &FileEntry)
        ensures
            final(self).backend == old(self).backend,
            final(self).dir == old(self).dir,
            final(self).blocks == old(self).blocks,
            meta_cap(final(self).meta) == meta_cap(old(self).meta),
            lru_put_shape(
                old(self).meta_view(),
                final(self).meta_view(),
                entry@.ino,
                entry@,
                meta_cap(old(self).meta),
            ),
    {
        let ino = entry.ino;
        let e = entry.clone();
        meta_lru_put(&mut self.meta, ino, e);
    }

    /// The cached modification time of an inode, if its metadata is
    /// cached; refreshes recency only.
    fn get_cached_mtime(&mut self, ino: u64) -> (r: Option<u64>)
        ensures
            final(self).backend == old(self).backend,
            final(self).dir == old(self).dir,
            final(self).blocks == old(self).blocks,
            final(self).meta_view() == old(self).meta_view(),
            meta_cap(final(self).meta) == meta_cap(old(self).meta),
            match r {
                Some(t) => old(self).meta_view().contains_key(ino) && t == old(self).meta_view()[ino].mtime,
                None => !old(self).meta_view().contains_key(ino),
            },
    {
        match meta_lru_get(&mut self.meta, ino) {
            Some(e) => Some(e.mtime),
            None => None,
        }
    }

    /// Drops every cached block of an inode.
    fn invalidate_blocks(&mut self, ino: u64)
        ensures
            final(self).backend == old(self).backend,
            final(self).meta == old(self).meta,
            final(self).dir == old(self).dir,
            blocks_file_cap(final(self).blocks) == blocks_file_cap(old(self).blocks),
            blocks_inner_cap(final(self).blocks) == blocks_inner_cap(old(self).blocks),
            final(self).blocks_view() == old(self).blocks_view().remove(ino),
    {
        self.blocks.pop_file(ino);
    }

    /// Drops the cached listing of a directory.
    fn invalidate_dir_listing(&mut self, dir_ino: u64)
        ensures
            final(self).backend == old(self).backend,
            final(self).meta == old(self).meta,
            final(self).blocks == old(self).blocks,
            dir_cap(final(self).dir) == dir_cap(old(self).dir),
            final(self).dir_view() == old(self).dir_view().remove(dir_ino),
    {
        dir_lru_pop(&mut self.dir, dir_ino);
    }


    /// Drops the cached blocks of `ino` in the index range
    /// `first ..= last`.
    fn pop_block_range(&mut self, ino: u64, first: u64, last: u64)
        requires
            first <= last,
            last < u64::MAX,
            old(self).blocks_view().contains_key(ino) ==> old(self).blocks_view()[ino].dom().finite(),
        ensures
            final(self).backend == old(self).backend,
            final(self).meta == old(self).meta,
            final(self).dir == old(self).dir,
            blocks_file_cap(final(self).blocks) == blocks_file_cap(old(self).blocks),
            blocks_inner_cap(final(self).blocks) == blocks_inner_cap(old(self).blocks),
            forall|k: u64| #[trigger]
                final(self).blocks_view().contains_key(k) && k != ino ==> old(self).blocks_view().contains_key(k) && final(self).blocks_view()[k] == old(self).blocks_view()[k],
            forall|k: u64| #[trigger]
                old(self).blocks_view().contains_key(k) && k != ino ==> final(self).blocks_view().contains_key(k),
            final(self).blocks_view().contains_key(ino) ==> old(self).blocks_view().contains_key(
                ino,
            ),
            forall|t: u64|
                #![trigger final(self).blocks_view()[ino].contains_key(t)]
                final(self).blocks_view().contains_key(ino) && final(self).blocks_view()[ino].contains_key(t) ==> old(self).blocks_view().contains_key(ino) && old(self).blocks_view()[ino].contains_key(t) && final(self).blocks_view()[ino][t] == old(self).blocks_view()[ino][t] && !(first <= t <= last),
            forall|t: u64|
                #![trigger old(self).blocks_view()[ino].contains_key(t)]
                old(self).blocks_view().contains_key(ino) && old(self).blocks_view()[ino].contains_key(t) && !(first <= t <= last) ==> final(self).blocks_view().contains_key(ino) && final(self).blocks_view()[ino].contains_key(t),
            old(self).blocks_view().dom().finite() ==> final(self).blocks_view().dom().finite(),
    {
        let mut j: u64 = first;
        while j <= last
            invariant
                first <= j <= last + 1,
                last < u64::MAX,
                self.backend == old(self).backend,
                self.meta == old(self).meta,
                self.dir == old(self).dir,
                blocks_file_cap(self.blocks) == blocks_file_cap(old(self).blocks),
                blocks_inner_cap(self.blocks) == blocks_inner_cap(old(self).blocks),
                forall|k: u64| #[trigger]
                    self.blocks_view().contains_key(k) && k != ino ==> old(self).blocks_view().contains_key(k) && self.blocks_view()[k] == old(self).blocks_view()[k],
                forall|k: u64| #[trigger]
                    old(self).blocks_view().contains_key(k) && k != ino ==> self.blocks_view().contains_key(k),
                self.blocks_view().contains_key(ino) ==> old(self).blocks_view().contains_key(ino),
                self.blocks_view().contains_key(ino) ==> self.blocks_view()[ino].dom().finite(),
                forall|t: u64|
                    #![trigger self.blocks_view()[ino].contains_key(t)]
                    self.blocks_view().contains_key(ino) && self.blocks_view()[ino].contains_key(t)
                        ==> old(self).blocks_view().contains_key(ino) && old(self).blocks_view()[ino].contains_key(t) && self.blocks_view()[ino][t] == old(self).blocks_view()[ino][t] && !(first <= t < j),
                forall|t: u64|
                    #![trigger old(self).blocks_view()[ino].contains_key(t)]
                    old(self).blocks_view().contains_key(ino) && old(self).blocks_view()[ino].contains_key(t) && !(first <= t < j) ==> self.blocks_view().contains_key(ino)
                        && self.blocks_view()[ino].contains_key(t),
            decreases last + 1 - j,
        {
            let ghost pre = self.blocks_view();
            self.blocks.pop_block(ino, j);
            proof {
                if pre.contains_key(ino) {
                    assert(pre[ino].remove(j).dom() =~= pre[ino].dom().remove(j));
                    assert(pre[ino].dom().finite());
                    assert(pre[ino].dom().remove(j).finite());
                    if pre[ino].remove(j).len() == 0 {
                        assert(pre[ino].dom().remove(j).len() == 0);
                        pre[ino].dom().remove(j).lemma_len0_is_empty();
                    }
                }
            }
            j = j + 1;
        }
        proof {
            if old(self).blocks_view().dom().finite() {
                assert(final(self).blocks_view().dom().subset_of(old(self).blocks_view().dom()));
                vstd::set_lib::lemma_len_subset(
                    final(self).blocks_view().dom(),
                    old(self).blocks_view().dom(),
                );
            }
        }
    }

    /// Drops every cached block of `ino` whose index is at or above
    /// `cut`.
    fn pop_blocks_from(&mut self, ino: u64, cut: u64)
        requires
            old(self).blocks_view().contains_key(ino) ==> old(self).blocks_view()[ino].dom().finite(),
        ensures
            final(self).backend == old(self).backend,
            final(self).meta == old(self).meta,
            final(self).dir == old(self).dir,
            blocks_file_cap(final(self).blocks) == blocks_file_cap(old(self).blocks),
            blocks_inner_cap(final(self).blocks) == blocks_inner_cap(old(self).blocks),
            forall|k: u64| #[trigger]
                final(self).blocks_view().contains_key(k) && k != ino ==> old(self).blocks_view().contains_key(k) && final(self).blocks_view()[k] == old(self).blocks_view()[k],
            forall|k: u64| #[trigger]
                old(self).blocks_view().contains_key(k) && k != ino ==> final(self).blocks_view().contains_key(k),
            final(self).blocks_view().contains_key(ino) ==> old(self).blocks_view().contains_key(
                ino,
            ),
            forall|t: u64|
                #![trigger final(self).blocks_view()[ino].contains_key(t)]
                final(self).blocks_view().contains_key(ino) ==> (final(self).blocks_view()[ino].contains_key(t) ==> (old(self).blocks_view().contains_key(ino) && old(self).blocks_view()[ino].contains_key(t) && final(self).blocks_view()[ino][t] == old(self).blocks_view()[ino][t] && t < cut)),
            forall|t: u64|
                #![trigger old(self).blocks_view()[ino].contains_key(t)]
                old(self).blocks_view().contains_key(ino) && old(self).blocks_view()[ino].contains_key(t) && t < cut ==> final(self).blocks_view().contains_key(ino)
                    && final(self).blocks_view()[ino].contains_key(t),
            old(self).blocks_view().dom().finite() ==> final(self).blocks_view().dom().finite(),
    {
        let idxs = self.blocks.block_indices(ino);
        let mut i: usize = 0;
        while i < idxs.len()
            invariant
                i <= idxs@.len(),
                self.backend == old(self).backend,
                self.meta == old(self).meta,
                self.dir == old(self).dir,
                blocks_file_cap(self.blocks) == blocks_file_cap(old(self).blocks),
                blocks_inner_cap(self.blocks) == blocks_inner_cap(old(self).blocks),
                idxs@.to_set() == (if old(self).blocks_view().contains_key(ino) {
                    old(self).blocks_view()[ino].dom()
                } else {
                    Set::<u64>::empty()
                }),
                forall|k: u64| #[trigger]
                    self.blocks_view().contains_key(k) && k != ino ==> old(self).blocks_view().contains_key(k) && self.blocks_view()[k] == old(self).blocks_view()[k],
                forall|k: u64| #[trigger]
                    old(self).blocks_view().contains_key(k) && k != ino ==> self.blocks_view().contains_key(k),
                self.blocks_view().contains_key(ino) ==> old(self).blocks_view().contains_key(ino),
                self.blocks_view().contains_key(ino) ==> self.blocks_view()[ino].dom().finite(),
                forall|t: u64|
                    #![trigger self.blocks_view()[ino].contains_key(t)]
                    self.blocks_view().contains_key(ino) ==> (self.blocks_view()[ino].contains_key(
                        t,
                    ) ==> (old(self).blocks_view().contains_key(ino) && old(self).blocks_view()[ino].contains_key(t) && self.blocks_view()[ino][t] == old(self).blocks_view()[ino][t] && !(exists|u: int|
                        0 <= u < i && idxs@[u] == t && idxs@[u] >= cut))),
                forall|t: u64|
                    #![trigger old(self).blocks_view()[ino].contains_key(t)]
                    old(self).blocks_view().contains_key(ino) && old(self).blocks_view()[ino].contains_key(t) && (t < cut || !(exists|u: int|
                        0 <= u < i && idxs@[u] == t)) ==> self.blocks_view().contains_key(ino)
                        && self.blocks_view()[ino].contains_key(t),
            decreases idxs@.len() - i,
        {
            let idx = idxs[i];
            if idx >= cut {
                let ghost pre = self.blocks_view();
                self.blocks.pop_block(ino, idx);
                proof {
                    if pre.contains_key(ino) {
                        assert(pre[ino].remove(idx).dom() =~= pre[ino].dom().remove(idx));
                        assert(pre[ino].dom().finite());
                        assert(pre[ino].dom().remove(idx).finite());
                        if pre[ino].remove(idx).len() == 0 {
                            assert(pre[ino].dom().remove(idx).len() == 0);
                            pre[ino].dom().remove(idx).lemma_len0_is_empty();
                        }
                    }
                }
            }
            i = i + 1;
        }
        proof {
            assert forall|t: u64|
                final(self).blocks_view().contains_key(ino) && final(self).blocks_view()[ino].contains_key(t) implies t < cut by {
                if t >= cut {
                    assert(old(self).blocks_view()[ino].dom().contains(t));
                    assert(idxs@.to_set().contains(t));
                    let u = choose|u: int| 0 <= u < idxs@.len() && idxs@[u] == t;
                    assert(idxs@[u] >= cut);
                }
            }
            if old(self).blocks_view().dom().finite() {
                assert(final(self).blocks_view().dom().subset_of(
                    old(self).blocks_view().dom(),
                ));
                vstd::set_lib::lemma_len_subset(
                    final(self).blocks_view().dom(),
                    old(self).blocks_view().dom(),
                );
            }
        }
    }

    /// Fetches one whole aligned block from the backend.
    fn read_block_aligned(&mut self, ino: u64, block_idx: u64) -> (r: Result<
        Vec<u8>,
        BackendError,
    >)
        requires
            old(self).wf(),
            block_idx * BLOCK_SIZE + BLOCK_SIZE <= MAX_IO_END,
        ensures
            final(self).wf(),
            final(self).meta == old(self).meta,
            final(self).dir == old(self).dir,
            final(self).blocks == old(self).blocks,
            r matches Ok(b) ==> b@.len() <= BLOCK_SIZE,
    {
        let off = block_idx * BLOCK_SIZE;
        self.backend.read_chunk(ino, off, BLOCK_SIZE)
    }


    /// Fetches fresh metadata for `ino`, reusing the cached copy when the
    /// server reports it unchanged. This is the one place where a
    /// server-side modification invalidates the inode's cached blocks:
    /// when the fresh modification time is strictly newer than the cached
    /// one, every cached block of the inode is dropped.
    fn revalidate_meta(&mut self, ino: u64) -> (r: Result<FileEntry, BackendError>)
        requires
            old(self).wf(),
        ensures
            final(self).wf(),
            final(self).dir_view() == old(self).dir_view(),
            meta_cap(final(self).meta) == meta_cap(old(self).meta),
            dir_cap(final(self).dir) == dir_cap(old(self).dir),
            blocks_file_cap(final(self).blocks) == blocks_file_cap(old(self).blocks),
            blocks_inner_cap(final(self).blocks) == blocks_inner_cap(old(self).blocks),
            match r {
                Ok(e) => e@.ino == ino && final(self).meta_view().contains_key(ino) && final(self).meta_view()[ino] == e@ && (if old(self).meta_view().contains_key(ino) {
                    (e@ == old(self).meta_view()[ino] && final(self).meta_view() == old(self).meta_view() && final(self).blocks_view() == old(self).blocks_view()) || (
                    e@.mtime > old(self).meta_view()[ino].mtime && final(self).blocks_view() == old(self).blocks_view().remove(ino) && lru_put_shape(
                        old(self).meta_view(),
                        final(self).meta_view(),
                        ino,
                        e@,
                        meta_cap(old(self).meta),
                    ))
                } else {
                    final(self).blocks_view() == old(self).blocks_view() && lru_put_shape(
                        old(self).meta_view(),
                        final(self).meta_view(),
                        ino,
                        e@,
                        meta_cap(old(self).meta),
                    )
                }),
                Err(_) => final(self).meta_view() == old(self).meta_view() && final(self).blocks_view() == old(self).blocks_view(),
            },
    {
        let since = match self.get_cached_mtime(ino) {
            Some(t) => t,
            None => 0,
        };
        match self.backend.get_attr_if_modified_since(ino, since) {
            Ok(Some(entry)) => {
                let had = self.get_cached_mtime(ino);
                match had {
                    Some(prev) => {
                        if entry.mtime > prev {
                            self.invalidate_blocks(ino);
                            proof {
                                lemma_remove_len_le(old(self).blocks_view(), ino);
                            }
                        }
                    },
                    None => {},
                }
                self.remember_meta(&entry);
                Ok(entry)
            },
            Ok(None) => {
                match meta_lru_get(&mut self.meta, ino) {
                    Some(cached) => Ok(cached),
                    None => {
                        match self.backend.get_attr(ino) {
                            Ok(entry) => {
                                self.remember_meta(&entry);
                                Ok(entry)
                            },
                            Err(e) => Err(e),
                        }
                    },
                }
            },
            Err(e) => Err(e),
        }
    }
}

/// The child inode that the cache itself can name for `name` under
/// `parent`: the first cached child of the cached listing whose cached
/// metadata carries that name.
pub open spec fn spec_find_cached(meta: Map<u64, EntryView>, cs: Seq<u64>, name: Seq<char>) -> Option<u64>
    decreases cs.len(),
{
    if cs.len() == 0 {
        None
    } else if meta.contains_key(cs[0]) && meta[cs[0]].name == name {
        Some(cs[0])
    } else {
        spec_find_cached(meta, cs.drop_first(), name)
    }
}

/// The deleted child's inode as far as the cache can tell.
pub open spec fn spec_cache_victim<B: RemoteBackend>(c: Cache<B>, parent: u64, name: Seq<char>) -> Option<u64> {
    if c.dir_view().contains_key(parent) {
        spec_find_cached(c.meta_view(), c.dir_view()[parent], name)
    } else {
        None
    }
}

impl<B: RemoteBackend> Cache<B> {
    /// Finds the inode of the child `name` of `parent` using only cached
    /// state; refreshes recency only.
    fn cached_child_ino(&mut self, parent_ino: u64, name: &str) -> (r: Option<u64>)
        ensures
            final(self).backend == old(self).backend,
            final(self).meta_view() == old(self).meta_view(),
            final(self).dir_view() == old(self).dir_view(),
            final(self).blocks == old(self).blocks,
            meta_cap(final(self).meta) == meta_cap(old(self).meta),
            dir_cap(final(self).dir) == dir_cap(old(self).dir),
            r == spec_cache_victim(*old(self), parent_ino, name@),
    {
        let cs = match dir_lru_get(&mut self.dir, parent_ino) {
            Some(cs) => cs,
            None => {
                return None;
            },
        };
        let ghost m = self.meta_view();
        let ghost full = cs@;
        proof {
            assert(full.skip(0) =~= full);
        }
        let mut j: usize = 0;
        while j < cs.len()
            invariant
                j <= full.len(),
                cs@ == full,
                self.backend == old(self).backend,
                self.meta_view() == old(self).meta_view(),
                self.dir_view() == old(self).dir_view(),
                self.blocks == old(self).blocks,
                meta_cap(self.meta) == meta_cap(old(self).meta),
                dir_cap(self.dir) == dir_cap(old(self).dir),
                m == self.meta_view(),
                old(self).dir_view().contains_key(parent_ino),
                old(self).dir_view()[parent_ino] == full,
                spec_find_cached(m, full, name@) == spec_find_cached(
                    m,
                    full.skip(j as int),
                    name@,
                ),
            decreases full.len() - j,
        {
            let child = cs[j];
            proof {
                assert(full.skip(j as int)[0] == full[j as int]);
                assert(full.skip(j as int).drop_first() =~= full.skip(j as int + 1));
            }
            match meta_lru_get(&mut self.meta, child) {
                Some(e) => {
                    if str_eq(e.name.as_str(), name) {
                        proof {
                            assert(m.contains_key(child) && m[child].name == name@);
                            assert(spec_find_cached(m, full.skip(j as int), name@) == Some(child));
                            assert(old(self).dir_view().contains_key(parent_ino));
                        }
                        return Some(child);
                    }
                },
                None => {},
            }
            j = j + 1;
        }
        proof {
            assert(full.skip(j as int) =~= Seq::<u64>::empty());
        }
        None
    }

    /// Fetches a directory listing from the backend, caches every
    /// child's metadata and the list of child inodes.
    fn fetch_listing(&mut self, ino: u64) -> (r: Result<Vec<FileEntry>, BackendError>)
        requires
            old(self).wf(),
        ensures
            final(self).wf(),
            final(self).blocks == old(self).blocks,
            meta_cap(final(self).meta) == meta_cap(old(self).meta),
            dir_cap(final(self).dir) == dir_cap(old(self).dir),
            match r {
                Ok(v) => final(self).dir_view().contains_key(ino) && final(self).dir_view()[ino].len() == v@.len() && (forall|j: int|
                    0 <= j < v@.len() ==> final(self).dir_view()[ino][j] == v@[j]@.ino) && (forall|
                    k: u64,
                |
                    #[trigger] final(self).meta_view().contains_key(k) ==> (old(self).meta_view().contains_key(k) && final(self).meta_view()[k] == old(self).meta_view()[k]) || (exists|j: int|
                        0 <= j < v@.len() && v@[j]@.ino == k && final(self).meta_view()[k]
                            == v@[j]@)) && final(self).dir_view().dom().subset_of(
                    old(self).dir_view().dom().insert(ino),
                ) && (forall|d: u64| #[trigger]
                    final(self).dir_view().contains_key(d) && d != ino ==> final(self).dir_view()[d] == old(self).dir_view()[d] && old(self).dir_view().contains_key(d)),
                Err(_) => final(self).meta_view() == old(self).meta_view() && final(self).dir_view() == old(self).dir_view(),
            },
    {
        let entries = match self.backend.list_dir(ino) {
            Ok(v) => v,
            Err(e) => {
                return Err(e);
            },
        };
        let mut child_inos: Vec<u64> = Vec::new();
        let mut j: usize = 0;
        while j < entries.len()
            invariant
                old(self).wf(),
                j <= entries@.len(),
                child_inos@.len() == j,
                forall|t: int| 0 <= t < j ==> child_inos@[t] == entries@[t]@.ino,
                self.backend.ok(),
                self.dir == old(self).dir,
                self.blocks == old(self).blocks,
                meta_cap(self.meta) == meta_cap(old(self).meta),
                self.meta_view().dom().finite(),
                self.meta_view().len() <= meta_cap(self.meta),
                forall|i2: u64| #[trigger]
                    self.meta_view().contains_key(i2) ==> self.meta_view()[i2].ino == i2,
                forall|k: u64| #[trigger]
                    self.meta_view().contains_key(k) ==> (old(self).meta_view().contains_key(k)
                        && self.meta_view()[k] == old(self).meta_view()[k]) || (exists|t: int|
                        0 <= t < j && entries@[t]@.ino == k && self.meta_view()[k] == entries@[t]@),
            decreases entries@.len() - j,
        {
            let e = &entries[j];
            self.remember_meta(e);
            child_inos.push(e.ino);
            j = j + 1;
        }
        dir_lru_put(&mut self.dir, ino, child_inos);
        Ok(entries)
    }
}

impl<B: RemoteBackend> RemoteBackend for Cache<B> {
    open spec fn ok(&self) -> bool {
        self.wf()
    }

    fn list_dir(&mut self, ino: u64) -> (r: Result<Vec<FileEntry>, BackendError>)
        ensures
            final(self).blocks_view() == old(self).blocks_view(),
            final(self).meta_cap_view() == old(self).meta_cap_view(),
            final(self).dir_cap_view() == old(self).dir_cap_view(),
            match r {
                Ok(v) => final(self).dir_view().contains_key(ino) && final(self).dir_view()[ino].len() == v@.len() && (forall|j: int|
                    0 <= j < v@.len() ==> final(self).dir_view()[ino][j] == v@[j]@.ino),
                Err(_) => final(self).meta_view() == old(self).meta_view() && (final(self).dir_view() == old(self).dir_view() || final(self).dir_view() == old(self).dir_view().remove(ino)),
            },
    {
        let cached = dir_lru_get(&mut self.dir, ino);
        match cached {
            Some(cs) => {
                let since = match self.get_cached_mtime(ino) {
                    Some(t) => t,
                    None => 0,
                };
                match self.backend.get_attr_if_modified_since(ino, since) {
                    Ok(None) => {
                        let ghost m = self.meta_view();
                        let mut result: Vec<FileEntry> = Vec::new();
                        let mut missing = false;
                        let mut j: usize = 0;
                        while j < cs.len() && !missing
                            invariant
                                old(self).wf(),
                                j <= cs@.len(),
                                self.backend.ok(),
                                self.meta_view() == old(self).meta_view(),
                                self.dir_view() == old(self).dir_view(),
                                self.blocks == old(self).blocks,
                                meta_cap(self.meta) == old(self).meta_cap_view(),
                                dir_cap(self.dir) == old(self).dir_cap_view(),
                                self.dir_view().contains_key(ino),
                                cs@ == self.dir_view()[ino],
                                !missing ==> result@.len() == j,
                                forall|t: int|
                                    0 <= t < result@.len() ==> self.meta_view().contains_key(
                                        cs@[t],
                                    ) && result@[t]@ == self.meta_view()[cs@[t]],
                            decreases cs@.len() - j + (if missing {
                                0int
                            } else {
                                1int
                            }),
                        {
                            match meta_lru_get(&mut self.meta, cs[j]) {
                                Some(child) => {
                                    result.push(child);
                                    j = j + 1;
                                },
                                None => {
                                    missing = true;
                                },
                            }
                        }
                        if !missing {
                            proof {
                                assert(forall|t: int|
                                    0 <= t < result@.len() ==> final(self).dir_view()[ino][t]
                                        == result@[t]@.ino);
                            }
                            return Ok(result);
                        }
                        dir_lru_pop(&mut self.dir, ino);
                        self.fetch_listing(ino)
                    },
                    Ok(Some(_)) => {
                        dir_lru_pop(&mut self.dir, ino);
                        self.fetch_listing(ino)
                    },
                    Err(e) => Err(e),
                }
            },
            None => self.fetch_listing(ino),
        }
    }

    fn get_attr(&mut self, ino: u64) -> (r: Result<FileEntry, BackendError>)
        ensures
            final(self).dir_view() == old(self).dir_view(),
            final(self).meta_cap_view() == old(self).meta_cap_view(),
            final(self).dir_cap_view() == old(self).dir_cap_view(),
            match r {
                Ok(e) => e@.ino == ino && final(self).meta_view().contains_key(ino) && final(self).meta_view()[ino] == e@ && (if old(self).meta_view().contains_key(ino) {
                    (e@ == old(self).meta_view()[ino] && final(self).meta_view() == old(self).meta_view() && final(self).blocks_view() == old(self).blocks_view()) || (
                    e@.mtime > old(self).meta_view()[ino].mtime && final(self).blocks_view() == old(self).blocks_view().remove(ino))
                } else {
                    final(self).blocks_view() == old(self).blocks_view()
                }),
                Err(_) => final(self).meta_view() == old(self).meta_view() && final(self).blocks_view() == old(self).blocks_view(),
            },
    {
        self.revalidate_meta(ino)
    }

    fn get_attr_if_modified_since(&mut self, ino: u64, since: u64) -> (r: Result<
        Option<FileEntry>,
        BackendError,
    >)
        ensures
            final(self).dir_view() == old(self).dir_view(),
            final(self).meta_cap_view() == old(self).meta_cap_view(),
            final(self).dir_cap_view() == old(self).dir_cap_view(),
            match r {
                Ok(Some(e)) => e@.ino == ino && e@.mtime > since && final(self).meta_view().contains_key(ino) && final(self).meta_view()[ino] == e@,
                Ok(None) => final(self).meta_view().contains_key(ino) && final(self).meta_view()[ino].mtime <= since,
                Err(_) => final(self).meta_view() == old(self).meta_view() && final(self).blocks_view() == old(self).blocks_view(),
            },
    {
        match self.revalidate_meta(ino) {
            Ok(e) => {
                if e.mtime > since {
                    Ok(Some(e))
                } else {
                    Ok(None)
                }
            },
            Err(x) => Err(x),
        }
    }

    fn lookup(&mut self, parent_ino: u64, name: &str) -> (r: Result<FileEntry, BackendError>)
        ensures
            final(self).dir_view() == old(self).dir_view(),
            final(self).blocks_view() == old(self).blocks_view(),
            final(self).meta_cap_view() == old(self).meta_cap_view(),
            final(self).dir_cap_view() == old(self).dir_cap_view(),
            match r {
                Ok(e) => lru_put_shape(
                    old(self).meta_view(),
                    final(self).meta_view(),
                    e@.ino,
                    e@,
                    old(self).meta_cap_view(),
                ),
                Err(_) => final(self).meta_view() == old(self).meta_view(),
            },
    {
        match self.backend.lookup(parent_ino, name) {
            Ok(res) => {
                self.remember_meta(&res);
                Ok(res)
            },
            Err(e) => Err(e),
        }
    }

    fn create_file(&mut self, parent_ino: u64, name: &str) -> (r: Result<FileEntry, BackendError>)
        ensures
            final(self).blocks_view() == old(self).blocks_view(),
            final(self).meta_cap_view() == old(self).meta_cap_view(),
            final(self).dir_cap_view() == old(self).dir_cap_view(),
            match r {
                Ok(e) => !final(self).dir_view().contains_key(parent_ino) && final(self).dir_view() == old(self).dir_view().remove(parent_ino) && lru_put_shape(
                    old(self).meta_view(),
                    final(self).meta_view(),
                    e@.ino,
                    e@,
                    old(self).meta_cap_view(),
                ),
                Err(_) => final(self).meta_view() == old(self).meta_view() && final(self).dir_view() == old(self).dir_view(),
            },
    {
        match self.backend.create_file(parent_ino, name) {
            Ok(res) => {
                self.remember_meta(&res);
                self.invalidate_dir_listing(parent_ino);
                proof {
                    lemma_remove_len_le(old(self).dir_view(), parent_ino);
                }
                Ok(res)
            },
            Err(e) => Err(e),
        }
    }

    fn create_dir(&mut self, parent_ino: u64, name: &str) -> (r: Result<FileEntry, BackendError>)
        ensures
            final(self).blocks_view() == old(self).blocks_view(),
            final(self).meta_cap_view() == old(self).meta_cap_view(),
            final(self).dir_cap_view() == old(self).dir_cap_view(),
            match r {
                Ok(e) => !final(self).dir_view().contains_key(parent_ino) && final(self).dir_view() == old(self).dir_view().remove(parent_ino) && lru_put_shape(
                    old(self).meta_view(),
                    final(self).meta_view(),
                    e@.ino,
                    e@,
                    old(self).meta_cap_view(),
                ),
                Err(_) => final(self).meta_view() == old(self).meta_view() && final(self).dir_view() == old(self).dir_view(),
            },
    {
        match self.backend.create_dir(parent_ino, name) {
            Ok(res) => {
                self.remember_meta(&res);
                self.invalidate_dir_listing(parent_ino);
                proof {
                    lemma_remove_len_le(old(self).dir_view(), parent_ino);
                }
                Ok(res)
            },
            Err(e) => Err(e),
        }
    }

    fn delete_file(&mut self, parent_ino: u64, name: &str) -> (r: Result<(), BackendError>)
        ensures
            final(self).meta_cap_view() == old(self).meta_cap_view(),
            final(self).dir_cap_view() == old(self).dir_cap_view(),
            final(self).meta_view() == old(self).meta_view(),
            match r {
                Ok(_) => !final(self).dir_view().contains_key(parent_ino) && final(self).dir_view() == old(self).dir_view().remove(parent_ino) && final(self).blocks_view() == (match spec_cache_victim(*old(self), parent_ino, name@) {
                    Some(v) => old(self).blocks_view().remove(v),
                    None => old(self).blocks_view(),
                }),
                Err(_) => final(self).dir_view() == old(self).dir_view() && final(self).blocks_view() == old(self).blocks_view(),
            },
    {
        let victim = self.cached_child_ino(parent_ino, name);
        match self.backend.delete_file(parent_ino, name) {
            Ok(_) => {
                self.invalidate_dir_listing(parent_ino);
                match victim {
                    Some(v) => {
                        self.invalidate_blocks(v);
                        proof {
                            lemma_remove_len_le(old(self).blocks_view(), v);
                        }
                    },
                    None => {},
                }
                proof {
                    lemma_remove_len_le(old(self).dir_view(), parent_ino);
                }
                Ok(())
            },
            Err(e) => Err(e),
        }
    }

    fn delete_dir(&mut self, parent_ino: u64, name: &str) -> (r: Result<(), BackendError>)
        ensures
            final(self).meta_cap_view() == old(self).meta_cap_view(),
            final(self).dir_cap_view() == old(self).dir_cap_view(),
            final(self).meta_view() == old(self).meta_view(),
            final(self).blocks_view() == old(self).blocks_view(),
            match r {
                Ok(_) => !final(self).dir_view().contains_key(parent_ino) && final(self).dir_view() == old(self).dir_view().remove(parent_ino),
                Err(_) => final(self).dir_view() == old(self).dir_view(),
            },
    {
        match self.backend.delete_dir(parent_ino, name) {
            Ok(_) => {
                self.invalidate_dir_listing(parent_ino);
                proof {
                    lemma_remove_len_le(old(self).dir_view(), parent_ino);
                }
                Ok(())
            },
            Err(e) => Err(e),
        }
    }

    fn read_chunk(&mut self, ino: u64, offset: u64, size: u64) -> (r: Result<
        Vec<u8>,
        BackendError,
    >)
        ensures
            final(self).dir_view() == old(self).dir_view(),
            final(self).meta_cap_view() == old(self).meta_cap_view(),
            final(self).dir_cap_view() == old(self).dir_cap_view(),
            size == 0 ==> *final(self) == *old(self) && (r matches Ok(b) && b@.len() == 0),
            r matches Ok(b) ==> b@.len() <= size,
            forall|k: u64| #[trigger]
                final(self).blocks_view().contains_key(k) && k != ino ==> old(self).blocks_view().contains_key(k) && final(self).blocks_view()[k] == old(self).blocks_view()[k],
            forall|j: u64|
                #![trigger final(self).blocks_view()[ino].contains_key(j)]
                final(self).blocks_view().contains_key(ino) && final(self).blocks_view()[ino].contains_key(j) ==> (old(self).blocks_view().contains_key(ino) && old(self).blocks_view()[ino].contains_key(j) && final(self).blocks_view()[ino][j] == old(self).blocks_view()[ino][j]) || (spec_block_span(offset, size).0 <= j
                    <= spec_block_span(offset, size).1),
            r matches Ok(e2) && size > 0 && old(self).meta_view().contains_key(ino) && final(self).meta_view().contains_key(ino) && final(self).meta_view()[ino].mtime > old(self).meta_view()[ino].mtime ==> (forall|j: u64|
                #![trigger final(self).blocks_view()[ino].contains_key(j)]
                final(self).blocks_view().contains_key(ino) && final(self).blocks_view()[ino].contains_key(j) ==> spec_block_span(offset, size).0 <= j <= spec_block_span(
                    offset,
                    size,
                ).1),
            size > 0 && spec_read_all_cached(
                old(self).meta_view(),
                final(self).meta_view(),
                old(self).blocks_view(),
                ino,
                spec_block_span(offset, size).0,
                spec_block_span(offset, size).1,
            ) ==> (r matches Ok(b) ==> b@ == spec_assemble(
                spec_span_blocks(
                    old(self).blocks_view(),
                    ino,
                    spec_block_span(offset, size).0,
                    spec_block_span(offset, size).1,
                ),
                spec_block_span(offset, size).0,
                offset,
                size,
            )),
    {
        if size == 0 {
            return Ok(Vec::new());
        }
        let entry = match self.revalidate_meta(ino) {
            Ok(e) => e,
            Err(e) => {
                return Err(e);
            },
        };
        let ghost s1 = *self;
        let (first, last) = block_span(offset, size);
        let ghost h0 = spec_read_all_cached(
            old(self).meta_view(),
            s1.meta_view(),
            old(self).blocks_view(),
            ino,
            first,
            last,
        );
        let ghost full_blocks = spec_span_blocks(old(self).blocks_view(), ino, first, last);
        proof {
            vstd::arithmetic::div_mod::lemma_fundamental_div_mod(
                (offset + size - 1) as int,
                BLOCK_SIZE as int,
            );
            assert(last * BLOCK_SIZE <= offset + size - 1);
            if h0 {
                assert(s1.blocks_view() == old(self).blocks_view());
            }
        }
        let mut parts: Vec<Vec<u8>> = Vec::new();
        let mut idx = first;
        let mut stopped = false;
        while idx <= last && !stopped
            invariant
                first <= idx <= last + 1,
                first == spec_block_span(offset, size).0,
                last == spec_block_span(offset, size).1,
                size > 0,
                offset + size <= MAX_IO_END,
                last * BLOCK_SIZE <= offset + size - 1,
                parts@.len() == idx - first,
                self.wf(),
                self.meta == s1.meta,
                self.dir == s1.dir,
                meta_cap(self.meta) == meta_cap(s1.meta),
                dir_cap(self.dir) == dir_cap(s1.dir),
                blocks_file_cap(self.blocks) == blocks_file_cap(s1.blocks),
                blocks_inner_cap(self.blocks) == blocks_inner_cap(s1.blocks),
                s1.dir_view() == old(self).dir_view(),
                s1.meta_view() == self.meta_view(),
                meta_cap(s1.meta) == old(self).meta_cap_view(),
                dir_cap(s1.dir) == old(self).dir_cap_view(),
                s1.blocks_view() == old(self).blocks_view() || s1.blocks_view() == old(self).blocks_view().remove(ino),
                forall|k: u64| #[trigger]
                    self.blocks_view().contains_key(k) && k != ino ==> s1.blocks_view().contains_key(k) && self.blocks_view()[k] == s1.blocks_view()[k],
                forall|j: u64|
                    #![trigger self.blocks_view()[ino].contains_key(j)]
                    self.blocks_view().contains_key(ino) && self.blocks_view()[ino].contains_key(j)
                        ==> (s1.blocks_view().contains_key(ino) && s1.blocks_view()[ino].contains_key(j) && self.blocks_view()[ino][j] == s1.blocks_view()[ino][j]) || (
                    first <= j < idx),
                h0 == spec_read_all_cached(
                    old(self).meta_view(),
                    s1.meta_view(),
                    old(self).blocks_view(),
                    ino,
                    first,
                    last,
                ),
                full_blocks == spec_span_blocks(old(self).blocks_view(), ino, first, last),
                h0 ==> s1.blocks_view() == old(self).blocks_view(),
                h0 ==> self.blocks_view() == s1.blocks_view(),
                h0 ==> (forall|t: int|
                    0 <= t < parts@.len() ==> (#[trigger] parts@[t])@ == full_blocks[t]),
                h0 && stopped ==> parts@.len() >= 1 && full_blocks[parts@.len() - 1].len()
                    < BLOCK_SIZE,
                h0 ==> (forall|t: int|
                    0 <= t < parts@.len() - (if stopped {
                        1int
                    } else {
                        0int
                    }) ==> (#[trigger] full_blocks[t]).len() >= BLOCK_SIZE),
            decreases last + 1 - idx,
        {
            let ghost pre = self.blocks_view();
            proof {
                assert(MAX_IO_END == BLOCK_SIZE * 562949953421312u64);
                assert(last * BLOCK_SIZE < BLOCK_SIZE * 562949953421312u64);
                assert(idx * BLOCK_SIZE + BLOCK_SIZE <= MAX_IO_END);
            }
            let blk: Vec<u8> = match self.blocks.get_block(ino, idx) {
                Some(b) => b,
                None => {
                    proof {
                        if h0 {
                            assert(self.blocks_view()[ino].contains_key(idx));
                        }
                    }
                    let fetched = match self.read_block_aligned(ino, idx) {
                        Ok(b) => b,
                        Err(e) => {
                            proof {
                                assert forall|k: u64| #[trigger]
                                    self.blocks_view().contains_key(k) && k != ino implies old(self).blocks_view().contains_key(k) && self.blocks_view()[k] == old(self).blocks_view()[k] by {
                                    assert(s1.blocks_view().contains_key(k));
                                }
                            }
                            return Err(e);
                        },
                    };
                    let stored = fetched.clone();
                    self.blocks.put_block(ino, idx, stored);
                    proof {
                        assert forall|k: u64| #[trigger]
                            self.blocks_view().contains_key(k) && k != ino implies s1.blocks_view().contains_key(k) && self.blocks_view()[k] == s1.blocks_view()[k] by {
                            assert(pre.contains_key(k) && self.blocks_view()[k] == pre[k]);
                            assert(s1.blocks_view().contains_key(k) && pre[k] == s1.blocks_view()[k]);
                        }
                        assert forall|j2: u64|
                            self.blocks_view().contains_key(ino) && #[trigger] self.blocks_view()[ino].contains_key(j2) implies ((s1.blocks_view().contains_key(ino)
                            && s1.blocks_view()[ino].contains_key(j2) && self.blocks_view()[ino][j2] == s1.blocks_view()[ino][j2]) || (first <= j2 <= idx)) by {
                            if j2 != idx {
                                assert(pre.contains_key(ino) && pre[ino].contains_key(j2));
                            }
                        }
                    }
                    fetched
                },
            };
            let is_short = blk.len() < BLOCK_SIZE as usize;
            proof {
                if h0 {
                    assert(blk@ == full_blocks[idx - first]);
                }
            }
            parts.push(blk);
            if is_short {
                stopped = true;
            }
            idx = idx + 1;
        }
        proof {
            assert forall|k: u64| #[trigger]
                self.blocks_view().contains_key(k) && k != ino implies old(self).blocks_view().contains_key(k) && self.blocks_view()[k] == old(self).blocks_view()[k] by {
                assert(s1.blocks_view().contains_key(k));
            }
        }
        let out = assemble_read(&parts, first, offset, size);
        proof {
            if h0 {
                let pv = parts@.map_values(|v: Vec<u8>| v@);
                if stopped {
                    assert(pv =~= full_blocks.take(pv.len() as int));
                    lemma_assemble_stop(full_blocks, pv.len() as int, first, offset, size);
                    assert(spec_assemble(full_blocks.take(pv.len() as int), first, offset, size)
                        == spec_assemble(full_blocks, first, offset, size));
                } else {
                    assert(pv =~= full_blocks);
                }
                assert(out@ == spec_assemble(full_blocks, first, offset, size));
            }
        }
        Ok(out)
    }

    fn write_chunk(&mut self, ino: u64, offset: u64, data: Vec<u8>) -> (r: Result<
        u64,
        BackendError,
    >)
        ensures
            final(self).dir_view() == old(self).dir_view(),
            final(self).meta_cap_view() == old(self).meta_cap_view(),
            final(self).dir_cap_view() == old(self).dir_cap_view(),
            match r {
                Ok(n) => n <= data@.len() && (if n > 0 {
                    final(self).meta_view() == old(self).meta_view().remove(ino) && !final(self).meta_view().contains_key(ino) && (forall|k: u64| #[trigger]
                        final(self).blocks_view().contains_key(k) && k != ino ==> old(self).blocks_view().contains_key(k) && final(self).blocks_view()[k] == old(self).blocks_view()[k]) && (forall|j: u64|
                        #![trigger final(self).blocks_view()[ino].contains_key(j)]
                        final(self).blocks_view().contains_key(ino) && final(self).blocks_view()[ino].contains_key(j) ==> !(spec_block_span(offset, n).0 <= j
                            <= spec_block_span(offset, n).1) && old(self).blocks_view().contains_key(ino) && old(self).blocks_view()[ino].contains_key(j) && final(self).blocks_view()[ino][j] == old(self).blocks_view()[ino][j])
                } else {
                    final(self).meta_view() == old(self).meta_view() && final(self).blocks_view()
                        == old(self).blocks_view()
                }),
                Err(_) => final(self).meta_view() == old(self).meta_view() && final(self).blocks_view() == old(self).blocks_view(),
            },
    {
        let n = match self.backend.write_chunk(ino, offset, data) {
            Ok(n) => n,
            Err(e) => {
                return Err(e);
            },
        };
        if n > 0 {
            let (first, last) = block_span(offset, n);
            proof {
                vstd::arithmetic::div_mod::lemma_fundamental_div_mod(
                    (offset + n - 1) as int,
                    BLOCK_SIZE as int,
                );
            }
            self.pop_block_range(ino, first, last);
            meta_lru_pop(&mut self.meta, ino);
            proof {
                lemma_remove_len_le(old(self).meta_view(), ino);
                assert(self.blocks_view().dom().subset_of(old(self).blocks_view().dom()));
                vstd::set_lib::lemma_len_subset(
                    self.blocks_view().dom(),
                    old(self).blocks_view().dom(),
                );
                if self.blocks_view().contains_key(ino) {
                    assert(self.blocks_view()[ino].dom().subset_of(
                        old(self).blocks_view()[ino].dom(),
                    ));
                    vstd::set_lib::lemma_len_subset(
                        self.blocks_view()[ino].dom(),
                        old(self).blocks_view()[ino].dom(),
                    );
                }
            }
        }
        Ok(n)
    }

    fn write_stream(&mut self, ino: u64, offset: u64, data: Vec<u8>) -> (r: Result<
        (),
        BackendError,
    >)
        ensures
            final(self).meta_view() == old(self).meta_view(),
            final(self).dir_view() == old(self).dir_view(),
            final(self).blocks_view() == old(self).blocks_view(),
            final(self).meta_cap_view() == old(self).meta_cap_view(),
            final(self).dir_cap_view() == old(self).dir_cap_view(),
    {
        self.backend.write_stream(ino, offset, data)
    }

    fn rename(
        &mut self,
        old_parent_ino: u64,
        old_name: &str,
        new_parent_ino: u64,
        new_name: &str,
    ) -> (r: Result<FileEntry, BackendError>)
        ensures
            final(self).blocks_view() == old(self).blocks_view(),
            final(self).meta_cap_view() == old(self).meta_cap_view(),
            final(self).dir_cap_view() == old(self).dir_cap_view(),
            match r {
                Ok(e) => !final(self).dir_view().contains_key(old_parent_ino) && !final(self).dir_view().contains_key(new_parent_ino) && final(self).dir_view() == old(self).dir_view().remove(old_parent_ino).remove(new_parent_ino) && lru_put_shape(
                    old(self).meta_view(),
                    final(self).meta_view(),
                    e@.ino,
                    e@,
                    old(self).meta_cap_view(),
                ),
                Err(_) => final(self).meta_view() == old(self).meta_view() && final(self).dir_view() == old(self).dir_view(),
            },
    {
        match self.backend.rename(old_parent_ino, old_name, new_parent_ino, new_name) {
            Ok(res) => {
                self.remember_meta(&res);
                self.invalidate_dir_listing(old_parent_ino);
                self.invalidate_dir_listing(new_parent_ino);
                proof {
                    lemma_remove_len_le(old(self).dir_view(), old_parent_ino);
                    lemma_remove_len_le(old(self).dir_view().remove(old_parent_ino), new_parent_ino);
                }
                Ok(res)
            },
            Err(e) => Err(e),
        }
    }

    fn set_attr(&mut self, ino: u64, attrs: SetAttrRequest) -> (r: Result<FileEntry, BackendError>)
        ensures
            final(self).dir_view() == old(self).dir_view(),
            final(self).meta_cap_view() == old(self).meta_cap_view(),
            final(self).dir_cap_view() == old(self).dir_cap_view(),
            match r {
                Ok(e) => lru_put_shape(
                    old(self).meta_view(),
                    final(self).meta_view(),
                    ino,
                    e@,
                    old(self).meta_cap_view(),
                ) && (if !old(self).meta_view().contains_key(ino) || e@.mtime > old(self).meta_view()[ino].mtime {
                    if attrs.size is Some {
                        (forall|k: u64| #[trigger]
                            final(self).blocks_view().contains_key(k) && k != ino ==> old(self).blocks_view().contains_key(k) && final(self).blocks_view()[k] == old(self).blocks_view()[k]) && (forall|j: u64|
                            #![trigger final(self).blocks_view()[ino].contains_key(j)]
                            final(self).blocks_view().contains_key(ino) && final(self).blocks_view()[ino].contains_key(j) ==> j < attrs.size->0 / BLOCK_SIZE
                                && old(self).blocks_view().contains_key(ino) && old(self).blocks_view()[ino].contains_key(j) && final(self).blocks_view()[ino][j] == old(self).blocks_view()[ino][j])
                    } else {
                        final(self).blocks_view() == old(self).blocks_view().remove(ino)
                    }
                } else {
                    final(self).blocks_view() == old(self).blocks_view()
                }),
                Err(_) => final(self).meta_view() == old(self).meta_view() && final(self).blocks_view() == old(self).blocks_view(),
            },
    {
        let prev = self.get_cached_mtime(ino);
        let res = match self.backend.set_attr(ino, attrs) {
            Ok(e) => e,
            Err(e) => {
                return Err(e);
            },
        };
        let advanced = match prev {
            Some(p) => res.mtime > p,
            None => true,
        };
        if advanced {
            match attrs.size {
                Some(s) => {
                    self.pop_blocks_from(ino, s / BLOCK_SIZE);
                },
                None => {
                    self.invalidate_blocks(ino);
                },
            }
            proof {
                assert(self.blocks_view().dom().subset_of(old(self).blocks_view().dom()));
                vstd::set_lib::lemma_len_subset(
                    self.blocks_view().dom(),
                    old(self).blocks_view().dom(),
                );
                if self.blocks_view().contains_key(ino) && old(self).blocks_view().contains_key(ino) {
                    assert(self.blocks_view()[ino].dom().subset_of(
                        old(self).blocks_view()[ino].dom(),
                    ));
                    vstd::set_lib::lemma_len_subset(
                        self.blocks_view()[ino].dom(),
                        old(self).blocks_view()[ino].dom(),
                    );
                }
            }
        }
        self.remember_meta(&res);
        Ok(res)
    }

    fn link(&mut self, target_ino: u64, link_parent_ino: u64, link_name: &str) -> (r: Result<
        FileEntry,
        BackendError,
    >)
        ensures
            final(self).blocks_view() == old(self).blocks_view(),
            final(self).meta_cap_view() == old(self).meta_cap_view(),
            final(self).dir_cap_view() == old(self).dir_cap_view(),
            match r {
                Ok(e) => !final(self).dir_view().contains_key(link_parent_ino) && final(self).dir_view() == old(self).dir_view().remove(link_parent_ino) && lru_put_shape(
                    old(self).meta_view().remove(target_ino),
                    final(self).meta_view(),
                    e@.ino,
                    e@,
                    old(self).meta_cap_view(),
                ),
                Err(_) => final(self).meta_view() == old(self).meta_view() && final(self).dir_view() == old(self).dir_view(),
            },
    {
        match self.backend.link(target_ino, link_parent_ino, link_name) {
            Ok(res) => {
                meta_lru_pop(&mut self.meta, target_ino);
                self.remember_meta(&res);
                self.invalidate_dir_listing(link_parent_ino);
                proof {
                    lemma_remove_len_le(old(self).meta_view(), target_ino);
                    lemma_remove_len_le(old(self).dir_view(), link_parent_ino);
                }
                Ok(res)
            },
            Err(e) => Err(e),
        }
    }

    fn symlink(&mut self, target_path: &str, link_parent_ino: u64, link_name: &str) -> (r: Result<
        FileEntry,
        BackendError,
    >)
        ensures
            final(self).blocks_view() == old(self).blocks_view(),
            final(self).meta_cap_view() == old(self).meta_cap_view(),
            final(self).dir_cap_view() == old(self).dir_cap_view(),
            match r {
                Ok(e) => !final(self).dir_view().contains_key(link_parent_ino) && final(self).dir_view() == old(self).dir_view().remove(link_parent_ino) && lru_put_shape(
                    old(self).meta_view(),
                    final(self).meta_view(),
                    e@.ino,
                    e@,
                    old(self).meta_cap_view(),
                ),
                Err(_) => final(self).meta_view() == old(self).meta_view() && final(self).dir_view() == old(self).dir_view(),
            },
    {
        match self.backend.symlink(target_path, link_parent_ino, link_name) {
            Ok(res) => {
                self.remember_meta(&res);
                self.invalidate_dir_listing(link_parent_ino);
                proof {
                    lemma_remove_len_le(old(self).dir_view(), link_parent_ino);
                }
                Ok(res)
            },
            Err(e) => Err(e),
        }
    }

    fn readlink(&mut self, ino: u64) -> (r: Result<String, BackendError>)
        ensures
            final(self).meta_view() == old(self).meta_view(),
            final(self).dir_view() == old(self).dir_view(),
            final(self).blocks_view() == old(self).blocks_view(),
            final(self).meta_cap_view() == old(self).meta_cap_view(),
            final(self).dir_cap_view() == old(self).dir_cap_view(),
    {
        self.backend.readlink(ino)
    }

    fn get_size(&mut self) -> (r: Result<(u64, u64), BackendError>)
        ensures
            final(self).meta_view() == old(self).meta_view(),
            final(self).dir_view() == old(self).dir_view(),
            final(self).blocks_view() == old(self).blocks_view(),
            final(self).meta_cap_view() == old(self).meta_cap_view(),
            final(self).dir_cap_view() == old(self).dir_cap_view(),
    {
        self.backend.get_size()
    }
}

/// Capacity bounds: at all times, each cache tier holds no more than its
/// configured capacity, and no per-file block cache exceeds the per-file
/// capacity.
pub proof fn lemma_capacity_bounds<B: RemoteBackend>(c: Cache<B>)
    requires
        c.wf(),
    ensures
        c.meta_view().len() <= c.meta_cap_view(),
        c.dir_view().len() <= c.dir_cap_view(),
        c.blocks_view().len() <= c.file_cap_view(),
        forall|i: u64| #[trigger]
            c.blocks_view().contains_key(i) ==> c.blocks_view()[i].len() <= c.inner_cap_view(),
{
}

} // verus!
