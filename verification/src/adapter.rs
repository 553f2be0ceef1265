use vstd::prelude::*;

use std::collections::HashMap;

use crate::backend::RemoteBackend;
use crate::strutil::push_char;
use crate::models::{
    BackendError, EntryType, FileEntry, SetAttrRequest, BLOCK_SIZE, LARGE_FILE_SIZE, MAX_IO_END,
};

verus! {

broadcast use vstd::std_specs::hash::group_hash_axioms;

// POSIX error numbers the adapter reports through the host filesystem
// error path.
pub const ERR_PERM: i32 = 1;

pub const ERR_NOENT: i32 = 2;

pub const ERR_IO: i32 = 5;

pub const ERR_AGAIN: i32 = 11;

pub const ERR_ACCES: i32 = 13;

pub const ERR_EXIST: i32 = 17;

pub const ERR_INVAL: i32 = 22;

pub const ERR_SPIPE: i32 = 29;

pub const ERR_NOSYS: i32 = 38;

pub const ERR_NOTEMPTY: i32 = 39;

pub const ERR_PROTO: i32 = 71;

pub const ERR_BADF: i32 = 9;

pub const ERR_HOSTUNREACH: i32 = 113;

/// The error number each backend error surfaces as.
pub open spec fn spec_map_error(e: BackendError) -> i32 {
    match e {
        BackendError::NotFound(_) => ERR_NOENT,
        BackendError::Unauthorized => ERR_PERM,
        BackendError::Forbidden => ERR_ACCES,
        BackendError::Conflict(_) => ERR_EXIST,
        BackendError::InternalServerError => ERR_IO,
        BackendError::BadAnswerFormat => ERR_PROTO,
        BackendError::ServerUnreachable => ERR_HOSTUNREACH,
        BackendError::Other(_) => ERR_IO,
    }
}

/// Maps a typed backend error onto the host error number surface.
pub fn map_error(error: &BackendError) -> (r: i32)
    ensures
        r == spec_map_error(*error),
{
    match error {
        BackendError::NotFound(_) => ERR_NOENT,
        BackendError::Unauthorized => ERR_PERM,
        BackendError::Forbidden => ERR_ACCES,
        BackendError::Conflict(_) => ERR_EXIST,
        BackendError::InternalServerError => ERR_IO,
        BackendError::BadAnswerFormat => ERR_PROTO,
        BackendError::ServerUnreachable => ERR_HOSTUNREACH,
        BackendError::Other(_) => ERR_IO,
    }
}

/// The attribute record handed to the host kernel, with plain fields;
/// timestamps are milliseconds since the UNIX epoch.
#[derive(Debug, Clone, Copy, PartialEq, Eq, Structural)]
pub struct FileAttr {
    pub ino: u64,
    pub size: u64,
    pub blocks: u64,
    pub atime: u64,
    pub mtime: u64,
    pub ctime: u64,
    pub btime: u64,
    pub kind: EntryType,
    pub perm: u16,
    pub nlink: u32,
    pub uid: u32,
    pub gid: u32,
    pub rdev: u32,
    pub blksize: u32,
}

/// Builds the kernel attribute record of an entry: the size in 512-byte
/// units rounded up, the preferred I/O size equal to the cache block
/// size, and the remaining fields passed through.
pub fn entry_to_attr(entry: &FileEntry) -> (r: FileAttr)
    ensures
        r.ino == entry@.ino,
        r.size == entry@.size,
        r.blocks == (entry@.size + 511) / 512,
        r.atime == entry@.atime,
        r.mtime == entry@.mtime,
        r.ctime == entry@.ctime,
        r.btime == entry@.btime,
        r.kind == entry@.kind,
        r.perm == entry@.perms,
        r.nlink == entry@.nlinks,
        r.uid == entry@.uid,
        r.gid == entry@.gid,
        r.rdev == 0,
        r.blksize == BLOCK_SIZE,
{
    let blocks = if entry.size > u64::MAX - 511 {
        entry.size / 512 + 1
    } else {
        (entry.size + 511) / 512
    };
    proof {
        if entry.size > u64::MAX - 511 {
            vstd::arithmetic::div_mod::lemma_fundamental_div_mod(entry.size as int, 512);
            vstd::arithmetic::div_mod::lemma_fundamental_div_mod((entry.size + 511) as int, 512);
        }
    }
    FileAttr {
        ino: entry.ino,
        size: entry.size,
        blocks,
        atime: entry.atime,
        mtime: entry.mtime,
        ctime: entry.ctime,
        btime: entry.btime,
        kind: entry.kind,
        perm: entry.perms,
        nlink: entry.nlinks,
        uid: entry.uid,
        gid: entry.gid,
        rdev: 0,
        blksize: BLOCK_SIZE as u32,
    }
}

/// Windows tick length: one hundred nanoseconds, ten million per second.
pub const WINDOWS_TICKS_PER_SEC: u64 = 10000000;

/// Seconds between the Windows epoch and the UNIX epoch.
pub const UNIX_EPOCH_TO_WINDOWS_SECS: u64 = 11644473600;

/// A UNIX timestamp in milliseconds as a Windows file time, saturating
/// at the largest representable value.
pub open spec fn spec_filetime(ms: u64) -> u64 {
    let ticks = (ms / 1000 + UNIX_EPOCH_TO_WINDOWS_SECS) * WINDOWS_TICKS_PER_SEC + (ms % 1000)
        * 10000;
    if ticks <= u64::MAX {
        ticks as u64
    } else {
        u64::MAX
    }
}

/// Converts a UNIX timestamp in milliseconds to a Windows file time.
pub fn filetime_from_millis(ms: u64) -> (r: u64)
    ensures
        r == spec_filetime(ms),
{
    let secs = ms / 1000;
    let sub = ms % 1000;
    proof {
        vstd::arithmetic::div_mod::lemma_fundamental_div_mod(ms as int, 1000);
    }
    if secs > u64::MAX / WINDOWS_TICKS_PER_SEC - UNIX_EPOCH_TO_WINDOWS_SECS {
        proof {
            vstd::arithmetic::div_mod::lemma_fundamental_div_mod(
                u64::MAX as int,
                WINDOWS_TICKS_PER_SEC as int,
            );
        }
        u64::MAX
    } else {
        let base = (secs + UNIX_EPOCH_TO_WINDOWS_SECS) * WINDOWS_TICKS_PER_SEC;
        proof {
            vstd::arithmetic::div_mod::lemma_fundamental_div_mod(
                u64::MAX as int,
                WINDOWS_TICKS_PER_SEC as int,
            );
        }
        if base > u64::MAX - sub * 10000 {
            u64::MAX
        } else {
            base + sub * 10000
        }
    }
}

/// The first listing index a directory read at kernel cookie `offset`
/// starts from: cookies 0 to 2 cover the two dot entries, entry `i` is
/// served at cookie `3 + i`.
pub open spec fn spec_readdir_start(offset: int) -> int {
    if offset - 2 > 0 {
        offset - 2
    } else {
        0
    }
}

/// Computes where in a listing a directory read resumes, from the
/// kernel-supplied cookie.
pub fn readdir_start(offset: i64) -> (r: u64)
    requires
        offset >= 0,
    ensures
        r == spec_readdir_start(offset as int),
{
    if offset > 2 {
        (offset - 2) as u64
    } else {
        0
    }
}

/// The cookie under which listing entry `i` is reported.
pub fn readdir_cookie(i: u64) -> (r: i64)
    requires
        i <= i64::MAX - 3,
    ensures
        r == i + 3,
{
    (i as i64) + 3
}

/// Builds the attribute-change request a kernel set-attribute call maps
/// to: only the low nine permission bits pass through, identifiers and
/// size pass unchanged, and time updates are not forwarded.
pub fn build_setattr(
    mode: Option<u32>,
    uid: Option<u32>,
    gid: Option<u32>,
    size: Option<u64>,
    flags: Option<u32>,
) -> (r: SetAttrRequest)
    ensures
        r.perm == (match mode {
            Some(m) => Some((m & 0x1ff) as u32),
            None => None,
        }),
        r.uid == uid,
        r.gid == gid,
        r.size == size,
        r.flags == flags,
{
    let perm = match mode {
        Some(m) => Some(m & 0x1ff),
        None => None,
    };
    SetAttrRequest { perm, uid, gid, size, flags }
}

/// The view of one buffered write: its offset and its bytes.
pub open spec fn wb_pair_view(p: (u64, Vec<u8>)) -> (u64, Seq<u8>) {
    (p.0, p.1@)
}

/// A buffer of not-yet-flushed writes for one open handle, kept as a
/// list of fragments sorted by strictly increasing offset; a write at an
/// already-buffered offset replaces that fragment.
pub struct WriteBuffer {
    entries: Vec<(u64, Vec<u8>)>,
}

/// Fragments sorted by strictly increasing offset, each ending within
/// the addressable range.
pub open spec fn wb_sorted(s: Seq<(u64, Seq<u8>)>) -> bool {
    &&& forall|i: int, j: int| 0 <= i < j < s.len() ==> (#[trigger] s[i]).0 < (#[trigger] s[j]).0
    &&& forall|i: int| 0 <= i < s.len() ==> (#[trigger] s[i]).0 + s[i].1.len() <= u64::MAX
}

/// A sorted fragment list with the new fragment in place: inserted
/// before the first larger offset, replacing an equal one.
pub open spec fn spec_wb_insert(s: Seq<(u64, Seq<u8>)>, off: u64, d: Seq<u8>) -> Seq<
    (u64, Seq<u8>),
>
    decreases s.len(),
{
    if s.len() == 0 {
        seq![(off, d)]
    } else if off < s[0].0 {
        seq![(off, d)] + s
    } else if off == s[0].0 {
        seq![(off, d)] + s.drop_first()
    } else {
        seq![s[0]] + spec_wb_insert(s.drop_first(), off, d)
    }
}

/// The coalesced runs of a sorted fragment list, given an open run:
/// a fragment starting exactly at the run's end extends it; any other
/// fragment closes the run and opens a new one.
pub open spec fn spec_coalesce(s: Seq<(u64, Seq<u8>)>, acc_off: u64, acc: Seq<u8>) -> Seq<
    (u64, Seq<u8>),
>
    decreases s.len(),
{
    if s.len() == 0 {
        seq![(acc_off, acc)]
    } else if acc_off + acc.len() == s[0].0 {
        spec_coalesce(s.drop_first(), acc_off, acc + s[0].1)
    } else {
        seq![(acc_off, acc)] + spec_coalesce(s.drop_first(), s[0].0, s[0].1)
    }
}

/// The runs a flush of the buffered fragments issues: one backend write
/// for each maximal chain of fragments in which every next offset is
/// exactly the previous offset plus the previous length.
pub open spec fn spec_flush_runs(s: Seq<(u64, Seq<u8>)>) -> Seq<(u64, Seq<u8>)> {
    if s.len() == 0 {
        Seq::empty()
    } else {
        spec_coalesce(s.drop_first(), s[0].0, s[0].1)
    }
}

impl WriteBuffer {
    /// The buffered fragments, sorted by offset.
    pub closed spec fn view_seq(self) -> Seq<(u64, Seq<u8>)> {
        self.entries@.map_values(|p: (u64, Vec<u8>)| wb_pair_view(p))
    }

    /// The buffer's structural invariant.
    pub open spec fn wf(self) -> bool {
        wb_sorted(self.view_seq())
    }

    /// An empty buffer.
    pub fn new() -> (r: WriteBuffer)
        ensures
            r.wf(),
            r.view_seq() == Seq::<(u64, Seq<u8>)>::empty(),
    {
        let r = WriteBuffer { entries: Vec::new() };
        proof {
            assert(r.view_seq() =~= Seq::<(u64, Seq<u8>)>::empty());
        }
        r
    }

    /// How many fragments the buffer holds.
    pub fn len(&self) -> (r: usize)
        ensures
            r == self.view_seq().len(),
    {
        self.entries.len()
    }

    /// Buffers one write fragment at its offset, keeping the fragments
    /// sorted; a fragment already at that offset is replaced.
    pub fn insert(&mut self, off: u64, data: Vec<u8>)
        requires
            old(self).wf(),
            off + data@.len() <= u64::MAX,
        ensures
            final(self).wf(),
            final(self).view_seq() == spec_wb_insert(old(self).view_seq(), off, data@),
    {
        let ghost s0 = self.view_seq();
        proof {
            assert(s0.skip(0) =~= s0);
            assert(s0.take(0) + spec_wb_insert(s0.skip(0), off, data@) =~= spec_wb_insert(
                s0,
                off,
                data@,
            ));
        }
        let mut i: usize = 0;
        while i < self.entries.len() && self.entries[i].0 < off
            invariant
                old(self).wf(),
                *self == *old(self),
                s0 == self.view_seq(),
                i <= s0.len(),
                forall|t: int| 0 <= t < i ==> (#[trigger] s0[t]).0 < off,
                spec_wb_insert(s0, off, data@) == s0.take(i as int) + spec_wb_insert(
                    s0.skip(i as int),
                    off,
                    data@,
                ),
            decreases s0.len() - i,
        {
            proof {
                assert(s0.skip(i as int)[0] == s0[i as int]);
                assert(s0.skip(i as int).drop_first() =~= s0.skip(i as int + 1));
                assert(s0.take(i as int).push(s0[i as int]) =~= s0.take(i as int + 1));
                assert(s0.take(i as int) + (seq![s0[i as int]] + spec_wb_insert(
                    s0.skip(i as int + 1),
                    off,
                    data@,
                )) =~= s0.take(i as int + 1) + spec_wb_insert(s0.skip(i as int + 1), off, data@));
            }
            i = i + 1;
        }
        if i < self.entries.len() {
            let same = self.entries[i].0 == off;
            if same {
                self.entries[i] = (off, data);
                proof {
                    assert(s0.skip(i as int)[0] == s0[i as int]);
                    assert(s0.skip(i as int).drop_first() =~= s0.skip(i as int + 1));
                    assert(self.view_seq() =~= s0.take(i as int) + (seq![(off, data@)] + s0.skip(
                        i as int + 1,
                    )));
                }
            } else {
                self.entries.insert(i, (off, data));
                proof {
                    assert(s0.skip(i as int)[0] == s0[i as int]);
                    assert(self.view_seq() =~= s0.take(i as int) + (seq![(off, data@)] + s0.skip(
                        i as int,
                    )));
                }
            }
        } else {
            self.entries.push((off, data));
            proof {
                assert(s0.skip(i as int) =~= Seq::<(u64, Seq<u8>)>::empty());
                assert(self.view_seq() =~= s0.take(i as int) + seq![(off, data@)]);
            }
        }
        proof {
            let sn = final(self).view_seq();
            let want = spec_wb_insert(s0, off, data@);
            assert(sn =~= want);
            assert forall|a: int, b: int| 0 <= a < b < sn.len() implies (#[trigger] sn[a]).0 < (
            #[trigger] sn[b]).0 by {
                lemma_wb_insert_sorted(s0, off, data@);
            }
            assert forall|a: int| 0 <= a < sn.len() implies (#[trigger] sn[a]).0 + sn[a].1.len()
                <= u64::MAX by {
                lemma_wb_insert_sorted(s0, off, data@);
            }
        }
    }

    /// Drains the buffer, handing its fragments out in offset order.
    pub fn take_all(&mut self) -> (r: Vec<(u64, Vec<u8>)>)
        ensures
            final(self).wf(),
            final(self).view_seq() == Seq::<(u64, Seq<u8>)>::empty(),
            r@.map_values(|p: (u64, Vec<u8>)| wb_pair_view(p)) == old(self).view_seq(),
    {
        let mut out: Vec<(u64, Vec<u8>)> = Vec::new();
        std::mem::swap(&mut out, &mut self.entries);
        proof {
            assert(final(self).view_seq() =~= Seq::<(u64, Seq<u8>)>::empty());
        }
        out
    }
}

/// Inserting into a sorted fragment list keeps it sorted with bounded
/// fragment ends: every fragment of the result is the new one or one of
/// the old ones.
proof fn lemma_wb_insert_sorted(s: Seq<(u64, Seq<u8>)>, off: u64, d: Seq<u8>)
    requires
        wb_sorted(s),
        off + d.len() <= u64::MAX,
    ensures
        wb_sorted(spec_wb_insert(s, off, d)),
        spec_wb_insert(s, off, d).len() <= s.len() + 1,
        forall|a: int|
            0 <= a < spec_wb_insert(s, off, d).len() ==> (#[trigger] spec_wb_insert(s, off, d)[a]
                == (off, d) || (exists|b: int| 0 <= b < s.len() && spec_wb_insert(s, off, d)[a] == s[b])),
    decreases s.len(),
{
    let r = spec_wb_insert(s, off, d);
    if s.len() == 0 {
    } else if off < s[0].0 {
        assert(forall|t: int| 0 <= t < s.len() ==> r[t + 1] == s[t]);
        assert forall|a: int, b: int| 0 <= a < b < r.len() implies (#[trigger] r[a]).0 < (
        #[trigger] r[b]).0 by {
            if a == 0 {
                assert(r[b] == s[b - 1]);
                if b > 1 {
                    assert(s[0].0 < s[b - 1].0);
                }
            } else {
                assert(r[a] == s[a - 1] && r[b] == s[b - 1]);
            }
        }
    } else if off == s[0].0 {
        assert(forall|t: int| 0 <= t < s.len() - 1 ==> #[trigger] r[t + 1] == s[t + 1]);
        assert forall|a: int, b: int| 0 <= a < b < r.len() implies (#[trigger] r[a]).0 < (
        #[trigger] r[b]).0 by {
            if a == 0 {
                assert(r[b] == s[b]);
                assert(s[0].0 < s[b].0);
            } else {
                assert(r[a] == s[a] && r[b] == s[b]);
            }
        }
    } else {
        let s2 = s.drop_first();
        assert(forall|t: int| 0 <= t < s2.len() ==> s2[t] == s[t + 1]);
        lemma_wb_insert_sorted(s2, off, d);
        let rr = spec_wb_insert(s2, off, d);
        assert(forall|t: int| 0 <= t < rr.len() ==> r[t + 1] == rr[t]);
        assert forall|a: int, b: int| 0 <= a < b < r.len() implies (#[trigger] r[a]).0 < (
        #[trigger] r[b]).0 by {
            if a == 0 {
                assert(r[b] == rr[b - 1]);
                if rr[b - 1] == (off, d) {
                    assert(r[0].0 == s[0].0 < off);
                } else {
                    let w = choose|w: int| 0 <= w < s2.len() && rr[b - 1] == s2[w];
                    assert(rr[b - 1] == s[w + 1]);
                    assert(s[0].0 < s[w + 1].0);
                }
            } else {
                assert(r[a] == rr[a - 1] && r[b] == rr[b - 1]);
            }
        }
        assert forall|a: int| 0 <= a < r.len() implies (#[trigger] r[a]).0 + r[a].1.len()
            <= u64::MAX by {
            if a > 0 {
                assert(r[a] == rr[a - 1]);
            }
        }
    }
}

/// Three contiguous writes flush as exactly one backend write holding
/// their bytes in order; three writes with gaps flush as three.
pub proof fn lemma_flush_contiguity(d0: Seq<u8>, d1: Seq<u8>, d2: Seq<u8>, n: u64)
    requires
        n > 0,
        d0.len() == n,
        d1.len() == n,
        d2.len() == n,
        4 * n <= u64::MAX,
    ensures
        spec_flush_runs(seq![(0u64, d0), (n, d1), ((2 * n) as u64, d2)]) == seq![
            (0u64, d0 + d1 + d2),
        ],
        spec_flush_runs(seq![(0u64, d0), ((2 * n) as u64, d1), ((4 * n) as u64, d2)]) == seq![
            (0u64, d0),
            ((2 * n) as u64, d1),
            ((4 * n) as u64, d2),
        ],
{
    let contig = seq![(0u64, d0), (n, d1), ((2 * n) as u64, d2)];
    let gappy = seq![(0u64, d0), ((2 * n) as u64, d1), ((4 * n) as u64, d2)];
    let c1 = contig.drop_first();
    let c2 = c1.drop_first();
    let c3 = c2.drop_first();
    assert(c1 =~= seq![(n, d1), ((2 * n) as u64, d2)]);
    assert(c2 =~= seq![((2 * n) as u64, d2)]);
    assert(c3 =~= Seq::<(u64, Seq<u8>)>::empty());
    assert(spec_flush_runs(contig) == spec_coalesce(c1, 0u64, d0));
    assert(spec_coalesce(c1, 0u64, d0) == spec_coalesce(c2, 0u64, d0 + d1));
    assert((d0 + d1).len() == 2 * n);
    assert(spec_coalesce(c2, 0u64, d0 + d1) == spec_coalesce(c3, 0u64, d0 + d1 + d2));
    assert(spec_coalesce(c3, 0u64, d0 + d1 + d2) =~= seq![(0u64, d0 + d1 + d2)]);
    let g1 = gappy.drop_first();
    let g2 = g1.drop_first();
    let g3 = g2.drop_first();
    assert(g1 =~= seq![((2 * n) as u64, d1), ((4 * n) as u64, d2)]);
    assert(g2 =~= seq![((4 * n) as u64, d2)]);
    assert(g3 =~= Seq::<(u64, Seq<u8>)>::empty());
    assert(spec_flush_runs(gappy) == spec_coalesce(g1, 0u64, d0));
    assert(0 + d0.len() != 2 * n || n == 0);
    assert(spec_coalesce(g1, 0u64, d0) =~= seq![(0u64, d0)] + spec_coalesce(
        g2,
        (2 * n) as u64,
        d1,
    ));
    assert(spec_coalesce(g2, (2 * n) as u64, d1) =~= seq![((2 * n) as u64, d1)] + spec_coalesce(
        g3,
        (4 * n) as u64,
        d2,
    ));
    assert(spec_coalesce(g3, (4 * n) as u64, d2) =~= seq![((4 * n) as u64, d2)]);
    assert(spec_flush_runs(gappy) =~= seq![(0u64, d0), ((2 * n) as u64, d1), ((4 * n) as u64, d2)]);
}

/// Computes the coalesced runs a flush issues: exactly
/// `spec_flush_runs` of the buffered fragments, each run ending
/// within the addressable range.
pub fn coalesce(frags: Vec<(u64, Vec<u8>)>) -> (runs: Vec<(u64, Vec<u8>)>)
    requires
        wb_sorted(frags@.map_values(|p: (u64, Vec<u8>)| wb_pair_view(p))),
        frags@.len() >= 1,
    ensures
        runs@.map_values(|p: (u64, Vec<u8>)| wb_pair_view(p)) == spec_flush_runs(
            frags@.map_values(|p: (u64, Vec<u8>)| wb_pair_view(p)),
        ),
        forall|i: int|
            0 <= i < runs@.len() ==> (#[trigger] runs@[i]).0 + runs@[i].1@.len() <= u64::MAX,
{
    let ghost fv = frags@.map_values(|p: (u64, Vec<u8>)| wb_pair_view(p));
    let mut rem = frags;
    let mut runs: Vec<(u64, Vec<u8>)> = Vec::new();
    let first = rem.remove(0);
    let mut run_off: u64 = first.0;
    let mut run: Vec<u8> = first.1;
    proof {
        assert(fv[0] == wb_pair_view((run_off, run)));
        assert(rem@.map_values(|p: (u64, Vec<u8>)| wb_pair_view(p)) =~= fv.drop_first());
        assert(runs@.map_values(|p: (u64, Vec<u8>)| wb_pair_view(p)) =~= Seq::<(
            u64,
            Seq<u8>,
        )>::empty());
        assert forall|i: int| 0 <= i < rem@.len() implies (#[trigger] rem@[i]).0
            + rem@[i].1@.len() <= u64::MAX by {
            assert(rem@.map_values(|p: (u64, Vec<u8>)| wb_pair_view(p))[i] == wb_pair_view(
                rem@[i],
            ));
            assert(fv.drop_first()[i] == fv[i + 1]);
        }
    }
    while rem.len() > 0
        invariant
            wb_sorted(fv),
            run_off + run@.len() <= u64::MAX,
            forall|i: int|
                0 <= i < rem@.len() ==> (#[trigger] rem@[i]).0 + rem@[i].1@.len() <= u64::MAX,
            forall|i: int|
                0 <= i < runs@.len() ==> (#[trigger] runs@[i]).0 + runs@[i].1@.len()
                    <= u64::MAX,
            spec_flush_runs(fv) == runs@.map_values(|p: (u64, Vec<u8>)| wb_pair_view(p))
                + spec_coalesce(
                rem@.map_values(|p: (u64, Vec<u8>)| wb_pair_view(p)),
                run_off,
                run@,
            ),
        decreases rem@.len(),
    {
        let ghost rv = rem@.map_values(|p: (u64, Vec<u8>)| wb_pair_view(p));
        let ghost runs0 = runs@.map_values(|p: (u64, Vec<u8>)| wb_pair_view(p));
        let ghost rem0 = rem@;
        let nxt = rem.remove(0);
        let noff = nxt.0;
        let mut nbytes = nxt.1;
        proof {
            assert(rv[0] == wb_pair_view((noff, nbytes)));
            assert(rem@.map_values(|p: (u64, Vec<u8>)| wb_pair_view(p)) =~= rv.drop_first());
            assert(forall|i: int| 0 <= i < rem@.len() ==> rem@[i] == rem0[i + 1]);
        }
        if run_off + run.len() as u64 == noff {
            let ghost acc0 = run@;
            run.append(&mut nbytes);
            proof {
                assert(spec_coalesce(rv, run_off, acc0) == spec_coalesce(
                    rv.drop_first(),
                    run_off,
                    acc0 + rv[0].1,
                ));
            }
        } else {
            let closed = (run_off, run);
            runs.push(closed);
            run_off = noff;
            run = nbytes;
            proof {
                assert(runs@.map_values(|p: (u64, Vec<u8>)| wb_pair_view(p)) =~= runs0.push(
                    wb_pair_view((closed.0, closed.1)),
                ));
                assert(spec_coalesce(rv, closed.0, closed.1@) == seq![
                    (closed.0, closed.1@),
                ] + spec_coalesce(rv.drop_first(), rv[0].0, rv[0].1));
                assert(runs0 + (seq![(closed.0, closed.1@)] + spec_coalesce(
                    rv.drop_first(),
                    rv[0].0,
                    rv[0].1,
                )) =~= (runs0.push((closed.0, closed.1@))) + spec_coalesce(
                    rv.drop_first(),
                    rv[0].0,
                    rv[0].1,
                ));
            }
        }
    }
    let ghost runs0 = runs@.map_values(|p: (u64, Vec<u8>)| wb_pair_view(p));
    let closed = (run_off, run);
    runs.push(closed);
    proof {
        assert(rem@.map_values(|p: (u64, Vec<u8>)| wb_pair_view(p)) =~= Seq::<(
            u64,
            Seq<u8>,
        )>::empty());
        assert(spec_coalesce(
            Seq::<(u64, Seq<u8>)>::empty(),
            closed.0,
            closed.1@,
        ) =~= seq![(closed.0, closed.1@)]);
        assert(runs@.map_values(|p: (u64, Vec<u8>)| wb_pair_view(p)) =~= runs0.push(
            (closed.0, closed.1@),
        ));
        assert(runs0 + seq![(closed.0, closed.1@)] =~= runs0.push((closed.0, closed.1@)));
    }
    runs
}

/// Per-handle read strategy: paged reads through the cache for small
/// files, or a sequential byte stream for large ones.
pub enum ReadMode {
    SmallPages,
    LargeStream(StreamState),
}

/// The state of one sequential large-file read: the inode, the next
/// offset the kernel must ask for, bytes pulled from the stream but not
/// yet handed out, whether the stream was opened, and whether it ended.
pub struct StreamState {
    pub ino: u64,
    pub pos: u64,
    pub buffer: Vec<u8>,
    pub started: bool,
    pub eof: bool,
}

/// What a read must do next: serve it from paged reads, or pull from
/// the handle's byte stream, opening it first when needed.
#[derive(Debug, Clone, Copy, PartialEq, Eq, Structural)]
pub struct StreamPlan {
    pub need_open: bool,
    pub ino: u64,
    pub pos: u64,
    pub buffered: usize,
    pub eof: bool,
}

/// Flags the adapter advertises to the kernel for one open handle.
#[derive(Debug, Clone, Copy, PartialEq, Eq, Structural)]
pub struct OpenFlags {
    pub direct_io: bool,
    pub keep_cache: bool,
    pub nonseekable: bool,
}

/// The flags an open handle advertises, from the open strategy: a large
/// readable file is direct unbuffered I/O without seeking; a small
/// read-only file keeps the kernel cache; a writable handle is direct
/// I/O in any case.
pub open spec fn spec_open_flags(readable: bool, writable: bool, size: u64) -> OpenFlags {
    let base = if readable {
        if size > LARGE_FILE_SIZE {
            OpenFlags { direct_io: true, keep_cache: false, nonseekable: true }
        } else {
            OpenFlags { direct_io: false, keep_cache: true, nonseekable: false }
        }
    } else {
        OpenFlags { direct_io: true, keep_cache: false, nonseekable: false }
    };
    if writable {
        OpenFlags { direct_io: true, keep_cache: false, nonseekable: base.nonseekable }
    } else {
        base
    }
}

/// One row of a directory page: the child, the cookie under which the
/// kernel resumes after it, and what is needed to report it.
pub struct DirRow {
    pub ino: u64,
    pub cookie: i64,
    pub kind: EntryType,
    pub name: String,
}

/// How many dot rows a directory page beginning at `offset` carries:
/// both at the start, only the parent row when resuming past the first,
/// none from the entries onward.
pub open spec fn spec_readdir_dots(offset: int) -> int {
    if offset == 0 {
        2
    } else if offset == 1 {
        1
    } else {
        0
    }
}

/// Builds one page of a directory listing for the kernel: first the two
/// dot rows at cookies 1 and 2 (when the cookie has not passed them),
/// then the listing's entries resumed at the cookie, entry `i` reported
/// under cookie `3 + i` with its inode, kind and name.
pub fn readdir_page(dir_ino: u64, entries: &Vec<FileEntry>, offset: i64) -> (rows: Vec<DirRow>)
    requires
        offset >= 0,
        entries@.len() + 3 <= i64::MAX,
    ensures
        ({
            let start = spec_readdir_start(offset as int);
            let dots = spec_readdir_dots(offset as int);
            &&& rows@.len() == dots + (if start <= entries@.len() {
                entries@.len() - start
            } else {
                0int
            })
            &&& (offset == 0 ==> rows@[0].ino == dir_ino && rows@[0].cookie == 1 && rows@[0].kind
                == EntryType::Directory && rows@[0].name@ == "."@)
            &&& (offset == 0 ==> rows@[1].ino == dir_ino && rows@[1].cookie == 2 && rows@[1].kind
                == EntryType::Directory && rows@[1].name@ == ".."@)
            &&& (offset == 1 ==> rows@[0].ino == dir_ino && rows@[0].cookie == 2 && rows@[0].kind
                == EntryType::Directory && rows@[0].name@ == ".."@)
            &&& (forall|t: int|
                dots <= t < rows@.len() ==> (#[trigger] rows@[t]).ino == entries@[start + (t
                    - dots)]@.ino && rows@[t].kind == entries@[start + (t - dots)]@.kind
                    && rows@[t].name@ == entries@[start + (t - dots)]@.name && rows@[t].cookie == 3
                    + start + (t - dots))
        }),
{
    let mut rows: Vec<DirRow> = Vec::new();
    if offset == 0 {
        let mut dot = String::new();
        push_char(&mut dot, '.');
        rows.push(DirRow { ino: dir_ino, cookie: 1, kind: EntryType::Directory, name: dot });
    }
    if offset <= 1 {
        let mut dotdot = String::new();
        push_char(&mut dotdot, '.');
        push_char(&mut dotdot, '.');
        rows.push(DirRow { ino: dir_ino, cookie: 2, kind: EntryType::Directory, name: dotdot });
    }
    proof {
        reveal_strlit(".");
        reveal_strlit("..");
        assert(Seq::<char>::empty().push('.') =~= "."@);
        assert(Seq::<char>::empty().push('.').push('.') =~= ".."@);
    }
    let ghost dots = rows@.len() as int;
    let start = readdir_start(offset);
    if start >= entries.len() as u64 {
        return rows;
    }
    let mut i: usize = start as usize;
    while i < entries.len()
        invariant
            start == spec_readdir_start(offset as int),
            dots == spec_readdir_dots(offset as int),
            entries@.len() + 3 <= i64::MAX,
            start <= i <= entries@.len(),
            rows@.len() == dots + (i - start),
            offset == 0 ==> rows@[0].ino == dir_ino && rows@[0].cookie == 1 && rows@[0].kind
                == EntryType::Directory && rows@[0].name@ == "."@,
            offset == 0 ==> rows@[1].ino == dir_ino && rows@[1].cookie == 2 && rows@[1].kind
                == EntryType::Directory && rows@[1].name@ == ".."@,
            offset == 1 ==> rows@[0].ino == dir_ino && rows@[0].cookie == 2 && rows@[0].kind
                == EntryType::Directory && rows@[0].name@ == ".."@,
            forall|t: int|
                dots <= t < rows@.len() ==> (#[trigger] rows@[t]).ino == entries@[start + (t
                    - dots)]@.ino && rows@[t].kind == entries@[start + (t - dots)]@.kind
                    && rows@[t].name@ == entries@[start + (t - dots)]@.name && rows@[t].cookie == 3
                    + start + (t - dots),
        decreases entries@.len() - i,
    {
        let e = &entries[i];
        let cookie: i64 = (i as i64) + 3;
        rows.push(DirRow { ino: e.ino, cookie, kind: e.kind, name: e.name.clone() });
        i = i + 1;
    }
    rows
}

/// The filesystem adapter: translates kernel callbacks into backend
/// calls, and owns all per-open-handle state. Handle numbers start at 3
/// and only grow.
pub struct Adapter<B: RemoteBackend> {
    backend: B,
    next_fh: u64,
    read_modes: HashMap<u64, ReadMode>,
    write_buffers: HashMap<u64, WriteBuffer>,
    delete_marks: HashMap<u64, (u64, String, bool)>,
}

impl<B: RemoteBackend> Adapter<B> {
    /// The backend the adapter drives.
    pub closed spec fn backend_view(self) -> B {
        self.backend
    }

    /// The write buffers by handle, as sorted fragment lists.
    pub closed spec fn wb_view(self) -> Map<u64, Seq<(u64, Seq<u8>)>> {
        self.write_buffers@.map_values(|b: WriteBuffer| b.view_seq())
    }

    /// The read modes by handle.
    pub closed spec fn modes_view(self) -> Map<u64, ReadMode> {
        self.read_modes@
    }

    /// The next handle number to hand out.
    pub closed spec fn next_fh_view(self) -> u64 {
        self.next_fh
    }

    /// The backend is in a good state, every buffer is well-formed, and
    /// handle numbers start at 3.
    pub closed spec fn wf(self) -> bool {
        &&& self.backend.ok()
        &&& self.next_fh >= 3
        &&& forall|fh: u64| #[trigger]
            self.write_buffers@.contains_key(fh) ==> self.write_buffers@[fh].wf()
    }

    /// Builds an adapter around a backend; the first handle is 3.
    pub fn new(backend: B) -> (r: Adapter<B>)
        requires
            backend.ok(),
        ensures
            r.wf(),
            r.backend_view() == backend,
            r.next_fh_view() == 3,
            forall|fh: u64| !r.wb_view().contains_key(fh),
            forall|fh: u64| !r.modes_view().contains_key(fh),
    {
        Adapter {
            backend,
            next_fh: 3,
            read_modes: HashMap::new(),
            write_buffers: HashMap::new(),
            delete_marks: HashMap::new(),
        }
    }

    /// Opens a handle on `ino`: truncates first when asked, picks the
    /// read strategy from the file size, installs a write buffer for
    /// writable handles, and advertises the matching kernel flags:
    /// direct unbuffered I/O without seeking for large files, kernel
    /// caching for small read-only files, direct I/O once writable.
    pub fn open(&mut self, ino: u64, readable: bool, writable: bool, truncate: bool) -> (r: Result<
        (u64, OpenFlags, FileAttr),
        i32,
    >)
        requires
            old(self).wf(),
        ensures
            final(self).wf(),
            match r {
                Ok(p) => p.0 == old(self).next_fh_view() && final(self).next_fh_view() == p.0 + 1
                    && p.2.ino == ino && p.1 == spec_open_flags(readable, writable, p.2.size) && (
                writable ==> final(self).wb_view() == old(self).wb_view().insert(
                    p.0,
                    Seq::<(u64, Seq<u8>)>::empty(),
                )) && (!writable ==> final(self).wb_view() == old(self).wb_view()) && (readable
                    ==> final(self).modes_view().contains_key(p.0)) && (!readable ==> final(self).modes_view() == old(self).modes_view()) && (readable && p.2.size
                    > LARGE_FILE_SIZE ==> (final(self).modes_view()[p.0] matches
                    ReadMode::LargeStream(st) && st.ino == ino && st.pos == 0 && st.buffer@
                    == Seq::<u8>::empty() && st.started == false && st.eof == false)) && (readable
                    && p.2.size <= LARGE_FILE_SIZE ==> final(self).modes_view()[p.0]
                    == ReadMode::SmallPages),
                Err(_) => final(self).wb_view() == old(self).wb_view() && final(self).modes_view()
                    == old(self).modes_view() && final(self).next_fh_view() == old(self).next_fh_view(),
            },
            forall|g: u64| #[trigger]
                old(self).wb_view().contains_key(g) && (r matches Ok(p) ==> g != p.0) ==> final(self).wb_view().contains_key(g) && final(self).wb_view()[g] == old(self).wb_view()[g],
            forall|g: u64| #[trigger]
                old(self).modes_view().contains_key(g) && (r matches Ok(p) ==> g != p.0) ==> final(self).modes_view().contains_key(g) && final(self).modes_view()[g] == old(self).modes_view()[g],
    {
        if truncate {
            match self.backend.set_attr(ino, SetAttrRequest::with_size(0)) {
                Ok(_) => {},
                Err(e) => {
                    return Err(map_error(&e));
                },
            }
        }
        let entry = match self.backend.get_attr(ino) {
            Ok(e) => e,
            Err(e) => {
                return Err(map_error(&e));
            },
        };
        if self.next_fh == u64::MAX {
            return Err(ERR_IO);
        }
        let fh = self.next_fh;
        self.next_fh = self.next_fh + 1;
        let mut flags = OpenFlags { direct_io: true, keep_cache: false, nonseekable: false };
        if readable {
            if entry.size > LARGE_FILE_SIZE {
                let st = StreamState {
                    ino,
                    pos: 0,
                    buffer: Vec::new(),
                    started: false,
                    eof: false,
                };
                self.read_modes.insert(fh, ReadMode::LargeStream(st));
                flags = OpenFlags { direct_io: true, keep_cache: false, nonseekable: true };
            } else {
                self.read_modes.insert(fh, ReadMode::SmallPages);
                flags = OpenFlags { direct_io: false, keep_cache: true, nonseekable: false };
            }
        }
        if writable {
            self.write_buffers.insert(fh, WriteBuffer::new());
            flags = OpenFlags { direct_io: true, keep_cache: false, nonseekable: flags.nonseekable };
        }
        let attr = entry_to_attr(&entry);
        proof {
            if writable {
                assert(final(self).wb_view() =~= old(self).wb_view().insert(
                    fh,
                    Seq::<(u64, Seq<u8>)>::empty(),
                ));
            } else {
                assert(final(self).wb_view() =~= old(self).wb_view());
            }
        }
        Ok((fh, flags, attr))
    }

    /// Buffers one write and reports its full length as written; the
    /// buffers of every other handle are untouched.
    pub fn write(&mut self, fh: u64, offset: u64, data: Vec<u8>) -> (r: Result<usize, i32>)
        requires
            old(self).wf(),
            offset + data@.len() <= u64::MAX,
        ensures
            final(self).wf(),
            final(self).backend_view() == old(self).backend_view(),
            final(self).modes_view() == old(self).modes_view(),
            final(self).next_fh_view() == old(self).next_fh_view(),
            match r {
                Ok(n) => n == data@.len() && old(self).wb_view().contains_key(fh) && final(self).wb_view() == old(self).wb_view().insert(
                    fh,
                    spec_wb_insert(old(self).wb_view()[fh], offset, data@),
                ),
                Err(c) => final(self).wb_view() == old(self).wb_view() && !old(self).wb_view().contains_key(fh) && (c == ERR_BADF || c == ERR_NOENT),
            },
            forall|g: u64| #[trigger]
                final(self).wb_view().contains_key(g) && g != fh ==> old(self).wb_view().contains_key(g) && final(self).wb_view()[g] == old(self).wb_view()[g],
    {
        match self.write_buffers.remove(&fh) {
            Some(mut b) => {
                let n = data.len();
                b.insert(offset, data);
                self.write_buffers.insert(fh, b);
                proof {
                    assert(final(self).wb_view() =~= old(self).wb_view().insert(
                        fh,
                        spec_wb_insert(old(self).wb_view()[fh], offset, data@),
                    ));
                }
                Ok(n)
            },
            None => {
                if self.read_modes.contains_key(&fh) {
                    Err(ERR_BADF)
                } else {
                    Err(ERR_NOENT)
                }
            },
        }
    }

    /// Issues one coalesced run to the backend: streamed when the run
    /// exceeds the large-file threshold, as a chunk otherwise.
    fn emit_run(&mut self, ino: u64, run_off: u64, run: Vec<u8>) -> (r: Result<(), i32>)
        requires
            old(self).wf(),
            run_off + run@.len() <= u64::MAX,
        ensures
            final(self).wf(),
            final(self).read_modes == old(self).read_modes,
            final(self).write_buffers == old(self).write_buffers,
            final(self).delete_marks == old(self).delete_marks,
            final(self).next_fh == old(self).next_fh,
    {
        if run.len() as u64 > LARGE_FILE_SIZE {
            match self.backend.write_stream(ino, run_off, run) {
                Ok(_) => Ok(()),
                Err(e) => Err(map_error(&e)),
            }
        } else {
            match self.backend.write_chunk(ino, run_off, run) {
                Ok(_) => Ok(()),
                Err(e) => Err(map_error(&e)),
            }
        }
    }

    /// Drains the handle's write buffer toward `ino`: the backend is
    /// handed exactly the coalesced runs `coalesce` computes — which are
    /// `spec_flush_runs` of the buffered fragments — in ascending offset
    /// order, one write per run, streamed when a run exceeds the
    /// large-file threshold. Flushing an empty or absent buffer succeeds
    /// and touches the backend not at all.
    pub fn flush_fh(&mut self, fh: u64, ino: u64) -> (r: Result<(), i32>)
        requires
            old(self).wf(),
        ensures
            final(self).wf(),
            final(self).modes_view() == old(self).modes_view(),
            final(self).next_fh_view() == old(self).next_fh_view(),
            old(self).wb_view().contains_key(fh) ==> final(self).wb_view() == old(self).wb_view().insert(fh, Seq::<(u64, Seq<u8>)>::empty()),
            !old(self).wb_view().contains_key(fh) ==> final(self).wb_view() == old(self).wb_view()
                && final(self).backend_view() == old(self).backend_view() && r is Ok,
            old(self).wb_view().contains_key(fh) && old(self).wb_view()[fh].len() == 0 ==> final(self).backend_view() == old(self).backend_view() && r is Ok,
            final(self).marks_view() == old(self).marks_view(),
            forall|g: u64| #[trigger]
                final(self).wb_view().contains_key(g) && g != fh ==> old(self).wb_view().contains_key(g) && final(self).wb_view()[g] == old(self).wb_view()[g],
    {
        let mut b = match self.write_buffers.remove(&fh) {
            Some(b) => b,
            None => {
                return Ok(());
            },
        };
        let frags = b.take_all();
        self.write_buffers.insert(fh, b);
        proof {
            assert(self.wb_view() =~= old(self).wb_view().insert(
                fh,
                Seq::<(u64, Seq<u8>)>::empty(),
            ));
            assert(frags@.map_values(|p: (u64, Vec<u8>)| wb_pair_view(p)) == old(self).wb_view()[
                fh
            ]);
        }
        if frags.len() == 0 {
            return Ok(());
        }
        let mut runs = coalesce(frags);
        while runs.len() > 0
            invariant
                self.wf(),
                self.read_modes == old(self).read_modes,
                self.delete_marks == old(self).delete_marks,
                self.next_fh == old(self).next_fh,
                self.wb_view() == old(self).wb_view().insert(fh, Seq::<(u64, Seq<u8>)>::empty()),
                old(self).wb_view().contains_key(fh),
                old(self).wb_view()[fh].len() > 0,
                forall|i: int|
                    0 <= i < runs@.len() ==> (#[trigger] runs@[i]).0 + runs@[i].1@.len()
                        <= u64::MAX,
            decreases runs@.len(),
        {
            let nxt = runs.remove(0);
            match self.emit_run(ino, nxt.0, nxt.1) {
                Ok(_) => {},
                Err(c) => {
                    return Err(c);
                },
            }
        }
        Ok(())
    }

    /// Forgets all per-handle state of `fh`: its read mode and its
    /// write buffer. Other handles are untouched.
    pub fn release(&mut self, fh: u64)
        ensures
            old(self).wf() ==> final(self).wf(),
            final(self).backend_view() == old(self).backend_view(),
            final(self).next_fh_view() == old(self).next_fh_view(),
            final(self).modes_view() == old(self).modes_view().remove(fh),
            final(self).wb_view() == old(self).wb_view().remove(fh),
    {
        self.read_modes.remove(&fh);
        self.write_buffers.remove(&fh);
        proof {
            assert(final(self).wb_view() =~= old(self).wb_view().remove(fh));
            assert(final(self).modes_view() =~= old(self).modes_view().remove(fh));
        }
    }

    /// Serves a paged read straight from the backend, cutting any
    /// overshoot back to the requested size.
    pub fn read_paged(&mut self, ino: u64, offset: u64, size: u64) -> (r: Result<Vec<u8>, i32>)
        requires
            old(self).wf(),
            offset + size <= MAX_IO_END,
        ensures
            final(self).wf(),
            final(self).modes_view() == old(self).modes_view(),
            final(self).wb_view() == old(self).wb_view(),
            final(self).next_fh_view() == old(self).next_fh_view(),
            r matches Ok(b) ==> b@.len() <= size,
    {
        match self.backend.read_chunk(ino, offset, size) {
            Ok(mut data) => {
                if size <= usize::MAX as u64 && data.len() > size as usize {
                    data.truncate(size as usize);
                }
                Ok(data)
            },
            Err(e) => Err(map_error(&e)),
        }
    }

    /// Decides how a read on a streaming handle proceeds: a read at any
    /// offset other than the stream position fails as unseekable; one at
    /// the position reports whether the stream still must be opened and
    /// how much is already buffered.
    pub fn stream_plan(&mut self, fh: u64, offset: u64) -> (r: Result<StreamPlan, i32>)
        requires
            old(self).wf(),
        ensures
            final(self).wf(),
            *final(self) == *old(self),
            match r {
                Ok(p) => old(self).modes_view().contains_key(fh) && (old(self).modes_view()[fh]
                    matches ReadMode::LargeStream(st) && offset == st.pos && p.ino == st.ino
                    && p.pos == st.pos && p.eof == st.eof && p.need_open == (!st.started
                    && !st.eof) && p.buffered == st.buffer@.len()),
                Err(c) => (c == ERR_SPIPE ==> (old(self).modes_view()[fh] matches
                    ReadMode::LargeStream(st) && offset != st.pos)),
            },
            old(self).modes_view().contains_key(fh) && (old(self).modes_view()[fh] matches
                ReadMode::LargeStream(st) && offset != st.pos) ==> r == Err::<StreamPlan, i32>(
                ERR_SPIPE,
            ),
    {
        match self.read_modes.get(&fh) {
            Some(mode) => match mode {
                ReadMode::LargeStream(st) => {
                    if offset != st.pos {
                        return Err(ERR_SPIPE);
                    }
                    Ok(
                        StreamPlan {
                            need_open: !st.started && !st.eof,
                            ino: st.ino,
                            pos: st.pos,
                            buffered: st.buffer.len(),
                            eof: st.eof,
                        },
                    )
                },
                ReadMode::SmallPages => Err(ERR_INVAL),
            },
            None => Err(ERR_NOENT),
        }
    }

    /// Records that the handle's byte stream was opened at the current
    /// position; any stale buffered bytes are discarded.
    pub fn stream_mark_started(&mut self, fh: u64)
        requires
            old(self).wf(),
        ensures
            final(self).wf(),
            final(self).backend_view() == old(self).backend_view(),
            final(self).wb_view() == old(self).wb_view(),
            final(self).next_fh_view() == old(self).next_fh_view(),
    {
        match self.read_modes.remove(&fh) {
            Some(mode) => match mode {
                ReadMode::LargeStream(st) => {
                    let st2 = StreamState {
                        ino: st.ino,
                        pos: st.pos,
                        buffer: Vec::new(),
                        started: true,
                        eof: st.eof,
                    };
                    self.read_modes.insert(fh, ReadMode::LargeStream(st2));
                },
                ReadMode::SmallPages => {
                    self.read_modes.insert(fh, ReadMode::SmallPages);
                },
            },
            None => {},
        }
    }

    /// Appends bytes pulled from the handle's stream to its buffer.
    pub fn stream_push(&mut self, fh: u64, bytes: Vec<u8>)
        requires
            old(self).wf(),
        ensures
            final(self).wf(),
            final(self).backend_view() == old(self).backend_view(),
            final(self).wb_view() == old(self).wb_view(),
            final(self).next_fh_view() == old(self).next_fh_view(),
            old(self).modes_view().contains_key(fh) && (old(self).modes_view()[fh] matches
                ReadMode::LargeStream(st)) ==> (final(self).modes_view()[fh] matches
                ReadMode::LargeStream(st2) && (old(self).modes_view()[fh] matches
                ReadMode::LargeStream(st3) ==> st2.buffer@ == st3.buffer@ + bytes@ && st2.pos
                == st3.pos && st2.ino == st3.ino && st2.eof == st3.eof)),
    {
        match self.read_modes.remove(&fh) {
            Some(mode) => match mode {
                ReadMode::LargeStream(st) => {
                    let mut buf = st.buffer;
                    let mut more = bytes;
                    buf.append(&mut more);
                    let st2 = StreamState {
                        ino: st.ino,
                        pos: st.pos,
                        buffer: buf,
                        started: st.started,
                        eof: st.eof,
                    };
                    self.read_modes.insert(fh, ReadMode::LargeStream(st2));
                },
                ReadMode::SmallPages => {
                    self.read_modes.insert(fh, ReadMode::SmallPages);
                },
            },
            None => {},
        }
    }

    /// Records that the handle's stream reached its end.
    pub fn stream_mark_eof(&mut self, fh: u64)
        requires
            old(self).wf(),
        ensures
            final(self).wf(),
            final(self).backend_view() == old(self).backend_view(),
            final(self).wb_view() == old(self).wb_view(),
            final(self).next_fh_view() == old(self).next_fh_view(),
    {
        match self.read_modes.remove(&fh) {
            Some(mode) => match mode {
                ReadMode::LargeStream(st) => {
                    let st2 = StreamState {
                        ino: st.ino,
                        pos: st.pos,
                        buffer: st.buffer,
                        started: st.started,
                        eof: true,
                    };
                    self.read_modes.insert(fh, ReadMode::LargeStream(st2));
                },
                ReadMode::SmallPages => {
                    self.read_modes.insert(fh, ReadMode::SmallPages);
                },
            },
            None => {},
        }
    }

    /// Hands out up to `size` buffered bytes of the handle's stream and
    /// advances the stream position by as much.
    pub fn stream_take(&mut self, fh: u64, size: usize) -> (r: Result<Vec<u8>, i32>)
        requires
            old(self).wf(),
        ensures
            final(self).wf(),
            final(self).backend_view() == old(self).backend_view(),
            final(self).wb_view() == old(self).wb_view(),
            final(self).next_fh_view() == old(self).next_fh_view(),
            match r {
                Ok(out) => old(self).modes_view().contains_key(fh) && (old(self).modes_view()[fh]
                    matches ReadMode::LargeStream(st) && out@ == st.buffer@.take(
                    vstd::math::min(size as int, st.buffer@.len() as int),
                ) && (final(self).modes_view()[fh] matches ReadMode::LargeStream(st2)
                    && st2.buffer@ == st.buffer@.skip(
                    vstd::math::min(size as int, st.buffer@.len() as int),
                ) && st2.pos == (if st.pos + out@.len() <= u64::MAX {
                    (st.pos + out@.len()) as u64
                } else {
                    u64::MAX
                }))),
                Err(_) => final(self).modes_view() == old(self).modes_view(),
            },
    {
        match self.read_modes.remove(&fh) {
            Some(mode) => match mode {
                ReadMode::LargeStream(st) => {
                    let take: usize = if size < st.buffer.len() {
                        size
                    } else {
                        st.buffer.len()
                    };
                    let mut out: Vec<u8> = Vec::new();
                    let mut i: usize = 0;
                    while i < take
                        invariant
                            i <= take,
                            take <= st.buffer@.len(),
                            out@ == st.buffer@.take(i as int),
                        decreases take - i,
                    {
                        out.push(st.buffer[i]);
                        proof {
                            assert(out@ =~= st.buffer@.take(i + 1 as int));
                        }
                        i = i + 1;
                    }
                    let mut rest: Vec<u8> = Vec::new();
                    let mut j: usize = take;
                    while j < st.buffer.len()
                        invariant
                            take <= j <= st.buffer@.len(),
                            rest@ == st.buffer@.subrange(take as int, j as int),
                        decreases st.buffer@.len() - j,
                    {
                        rest.push(st.buffer[j]);
                        proof {
                            assert(rest@ =~= st.buffer@.subrange(take as int, j + 1 as int));
                        }
                        j = j + 1;
                    }
                    let new_pos: u64 = if st.pos <= u64::MAX - take as u64 {
                        st.pos + take as u64
                    } else {
                        u64::MAX
                    };
                    let st2 = StreamState {
                        ino: st.ino,
                        pos: new_pos,
                        buffer: rest,
                        started: st.started,
                        eof: st.eof,
                    };
                    self.read_modes.insert(fh, ReadMode::LargeStream(st2));
                    proof {
                        assert(rest@ =~= st.buffer@.skip(take as int));
                        assert(self.modes_view()[fh] == ReadMode::LargeStream(st2));
                        assert(out@ == st.buffer@.take(
                            vstd::math::min(size as int, st.buffer@.len() as int),
                        ));
                    }
                    Ok(out)
                },
                ReadMode::SmallPages => {
                    self.read_modes.insert(fh, ReadMode::SmallPages);
                    proof {
                        assert(self.modes_view() =~= old(self).modes_view());
                    }
                    Err(ERR_INVAL)
                },
            },
            None => Err(ERR_NOENT),
        }
    }
}

impl<B: RemoteBackend> Adapter<B> {
    /// The delete-on-close marks by handle: the parent directory, the
    /// name to delete, and whether it is a directory.
    pub closed spec fn marks_view(self) -> Map<u64, (u64, Seq<char>, bool)> {
        self.delete_marks@.map_values(
            |m: (u64, String, bool)| (m.0, m.1@, m.2),
        )
    }

    /// Looks a name up under a parent and reports its kernel attributes.
    pub fn lookup_attr(&mut self, parent_ino: u64, name: &str) -> (r: Result<FileAttr, i32>)
        requires
            old(self).wf(),
        ensures
            final(self).wf(),
            final(self).wb_view() == old(self).wb_view(),
            final(self).modes_view() == old(self).modes_view(),
            final(self).next_fh_view() == old(self).next_fh_view(),
    {
        match self.backend.lookup(parent_ino, name) {
            Ok(e) => Ok(entry_to_attr(&e)),
            Err(e) => Err(map_error(&e)),
        }
    }

    /// Reports the kernel attributes of an inode.
    pub fn getattr(&mut self, ino: u64) -> (r: Result<FileAttr, i32>)
        requires
            old(self).wf(),
        ensures
            final(self).wf(),
            final(self).wb_view() == old(self).wb_view(),
            final(self).modes_view() == old(self).modes_view(),
            final(self).next_fh_view() == old(self).next_fh_view(),
            r matches Ok(a) ==> a.ino == ino,
    {
        match self.backend.get_attr(ino) {
            Ok(e) => Ok(entry_to_attr(&e)),
            Err(e) => Err(map_error(&e)),
        }
    }

    /// Creates a file and opens a writable handle on it in one step, as
    /// the kernel's create callback asks.
    pub fn create(&mut self, parent_ino: u64, name: &str) -> (r: Result<(u64, FileAttr), i32>)
        requires
            old(self).wf(),
            !name@.contains('/'),
        ensures
            final(self).wf(),
            match r {
                Ok(p) => p.0 == old(self).next_fh_view() && final(self).next_fh_view() == p.0 + 1
                    && p.1.kind == EntryType::File && p.1.size == 0 && final(self).wb_view() == old(self).wb_view().insert(p.0, Seq::<(u64, Seq<u8>)>::empty()),
                Err(_) => final(self).wb_view() == old(self).wb_view() && final(self).modes_view()
                    == old(self).modes_view(),
            },
    {
        let entry = match self.backend.create_file(parent_ino, name) {
            Ok(e) => e,
            Err(e) => {
                return Err(map_error(&e));
            },
        };
        if self.next_fh == u64::MAX {
            return Err(ERR_IO);
        }
        let fh = self.next_fh;
        self.next_fh = self.next_fh + 1;
        self.read_modes.insert(fh, ReadMode::SmallPages);
        self.write_buffers.insert(fh, WriteBuffer::new());
        let attr = entry_to_attr(&entry);
        proof {
            assert(self.wb_view() =~= old(self).wb_view().insert(
                fh,
                Seq::<(u64, Seq<u8>)>::empty(),
            ));
        }
        Ok((fh, attr))
    }

    /// Creates a directory and reports its kernel attributes.
    pub fn mkdir(&mut self, parent_ino: u64, name: &str) -> (r: Result<FileAttr, i32>)
        requires
            old(self).wf(),
            !name@.contains('/'),
        ensures
            final(self).wf(),
            final(self).wb_view() == old(self).wb_view(),
            final(self).modes_view() == old(self).modes_view(),
            r matches Ok(a) ==> a.kind == EntryType::Directory,
    {
        match self.backend.create_dir(parent_ino, name) {
            Ok(e) => Ok(entry_to_attr(&e)),
            Err(e) => Err(map_error(&e)),
        }
    }

    /// Deletes a file by name under its parent.
    pub fn unlink(&mut self, parent_ino: u64, name: &str) -> (r: Result<(), i32>)
        requires
            old(self).wf(),
        ensures
            final(self).wf(),
            final(self).wb_view() == old(self).wb_view(),
            final(self).modes_view() == old(self).modes_view(),
    {
        match self.backend.delete_file(parent_ino, name) {
            Ok(_) => Ok(()),
            Err(e) => Err(map_error(&e)),
        }
    }

    /// Deletes a directory by name under its parent.
    pub fn rmdir(&mut self, parent_ino: u64, name: &str) -> (r: Result<(), i32>)
        requires
            old(self).wf(),
        ensures
            final(self).wf(),
            final(self).wb_view() == old(self).wb_view(),
            final(self).modes_view() == old(self).modes_view(),
    {
        match self.backend.delete_dir(parent_ino, name) {
            Ok(_) => Ok(()),
            Err(e) => Err(map_error(&e)),
        }
    }

    /// Moves an entry between directories or names.
    pub fn rename_entry(
        &mut self,
        parent_ino: u64,
        name: &str,
        new_parent_ino: u64,
        new_name: &str,
    ) -> (r: Result<(), i32>)
        requires
            old(self).wf(),
            !new_name@.contains('/'),
        ensures
            final(self).wf(),
            final(self).wb_view() == old(self).wb_view(),
            final(self).modes_view() == old(self).modes_view(),
    {
        match self.backend.rename(parent_ino, name, new_parent_ino, new_name) {
            Ok(_) => Ok(()),
            Err(e) => Err(map_error(&e)),
        }
    }

    /// Applies a kernel attribute change: permissions keep their low
    /// nine bits, identifiers and size pass through, time updates are
    /// not forwarded. A requested size is reported back exactly.
    pub fn setattr(
        &mut self,
        ino: u64,
        mode: Option<u32>,
        uid: Option<u32>,
        gid: Option<u32>,
        size: Option<u64>,
        flags: Option<u32>,
    ) -> (r: Result<FileAttr, i32>)
        requires
            old(self).wf(),
        ensures
            final(self).wf(),
            final(self).wb_view() == old(self).wb_view(),
            final(self).modes_view() == old(self).modes_view(),
            r matches Ok(a) ==> a.ino == ino && (size matches Some(s) ==> a.size == s),
    {
        let req = build_setattr(mode, uid, gid, size, flags);
        match self.backend.set_attr(ino, req) {
            Ok(e) => Ok(entry_to_attr(&e)),
            Err(e) => Err(map_error(&e)),
        }
    }

    /// Serves one page of a directory listing at a kernel cookie. The
    /// page's rows are computed by `readdir_page`, whose contract pins
    /// each row to the fetched listing; here the cookie layout and the
    /// dot rows are stated.
    pub fn readdir(&mut self, ino: u64, offset: i64) -> (r: Result<Vec<DirRow>, i32>)
        requires
            old(self).wf(),
            offset >= 0,
        ensures
            final(self).wf(),
            final(self).wb_view() == old(self).wb_view(),
            final(self).modes_view() == old(self).modes_view(),
            r matches Ok(rows) ==> ({
                let start = spec_readdir_start(offset as int);
                let dots = spec_readdir_dots(offset as int);
                &&& rows@.len() >= dots
                &&& (offset == 0 ==> rows@[0].cookie == 1 && rows@[0].ino == ino && rows@[0].name@
                    == "."@ && rows@[0].kind == EntryType::Directory && rows@[1].cookie == 2
                    && rows@[1].ino == ino && rows@[1].name@ == ".."@ && rows@[1].kind
                    == EntryType::Directory)
                &&& (offset == 1 ==> rows@[0].cookie == 2 && rows@[0].ino == ino && rows@[0].name@
                    == ".."@ && rows@[0].kind == EntryType::Directory)
                &&& (forall|t: int|
                    dots <= t < rows@.len() ==> (#[trigger] rows@[t].cookie) == 3 + start + (t
                        - dots))
            }),
    {
        let entries = match self.backend.list_dir(ino) {
            Ok(v) => v,
            Err(e) => {
                return Err(map_error(&e));
            },
        };
        if entries.len() as u64 > (i64::MAX - 3) as u64 {
            return Err(ERR_PROTO);
        }
        Ok(readdir_page(ino, &entries, offset))
    }

    /// Records or withdraws a delete-on-close mark for a handle. Marking
    /// a directory fails eagerly when its current listing is not empty.
    pub fn set_delete(
        &mut self,
        fh: u64,
        dir_ino: u64,
        parent_ino: u64,
        name: String,
        is_dir: bool,
        enable: bool,
    ) -> (r: Result<(), i32>)
        requires
            old(self).wf(),
        ensures
            final(self).wf(),
            final(self).wb_view() == old(self).wb_view(),
            final(self).modes_view() == old(self).modes_view(),
            match r {
                Ok(_) => (enable ==> final(self).marks_view() == old(self).marks_view().insert(
                    fh,
                    (parent_ino, name@, is_dir),
                )) && (!enable ==> final(self).marks_view() == old(self).marks_view().remove(fh)),
                Err(_) => final(self).marks_view() == old(self).marks_view(),
            },
    {
        if enable {
            if is_dir {
                match self.backend.list_dir(dir_ino) {
                    Ok(items) => {
                        if items.len() > 0 {
                            return Err(ERR_NOTEMPTY);
                        }
                    },
                    Err(e) => {
                        return Err(map_error(&e));
                    },
                }
            }
            self.delete_marks.insert(fh, (parent_ino, name, is_dir));
            proof {
                assert(self.marks_view() =~= old(self).marks_view().insert(
                    fh,
                    (parent_ino, name@, is_dir),
                ));
            }
            Ok(())
        } else {
            self.delete_marks.remove(&fh);
            proof {
                assert(self.marks_view() =~= old(self).marks_view().remove(fh));
            }
            Ok(())
        }
    }

    /// Tears a handle down: first drains its write buffer, then carries
    /// out a pending delete-on-close mark, and forgets the mark.
    pub fn cleanup(&mut self, fh: u64, ino: u64) -> (r: Result<(), i32>)
        requires
            old(self).wf(),
        ensures
            final(self).wf(),
            final(self).modes_view() == old(self).modes_view(),
            final(self).marks_view() == old(self).marks_view().remove(fh),
            old(self).wb_view().contains_key(fh) ==> final(self).wb_view() == old(self).wb_view().insert(fh, Seq::<(u64, Seq<u8>)>::empty()),
            !old(self).wb_view().contains_key(fh) ==> final(self).wb_view() == old(self).wb_view(),
    {
        let flushed = self.flush_fh(fh, ino);
        let mark = self.delete_marks.remove(&fh);
        proof {
            assert(self.marks_view() =~= old(self).marks_view().remove(fh));
        }
        match flushed {
            Ok(_) => {},
            Err(c) => {
                return Err(c);
            },
        }
        match mark {
            Some(m) => {
                let (parent_ino, name, is_dir) = m;
                if is_dir {
                    match self.backend.delete_dir(parent_ino, name.as_str()) {
                        Ok(_) => Ok(()),
                        Err(e) => Err(map_error(&e)),
                    }
                } else {
                    match self.backend.delete_file(parent_ino, name.as_str()) {
                        Ok(_) => Ok(()),
                        Err(e) => Err(map_error(&e)),
                    }
                }
            },
            None => Ok(()),
        }
    }

    /// Reports the total and free size of the volume.
    pub fn volume_info(&mut self) -> (r: Result<(u64, u64), i32>)
        requires
            old(self).wf(),
        ensures
            final(self).wf(),
            final(self).wb_view() == old(self).wb_view(),
            final(self).modes_view() == old(self).modes_view(),
    {
        match self.backend.get_size() {
            Ok(p) => Ok(p),
            Err(e) => Err(map_error(&e)),
        }
    }

}

} // verus!
