use vstd::prelude::*;

use std::collections::HashMap;

use crate::backend::RemoteBackend;
use crate::models::{BackendError, EntryType, EntryView, FileEntry, SetAttrRequest};
use crate::strutil::{chars_vec, push_char, push_str, str_eq};

verus! {

broadcast use vstd::std_specs::hash::group_hash_axioms;

/// Mathematical model of the in-memory filesystem tree: entry metadata by
/// inode, ordered child lists by directory inode, file contents by inode,
/// the next inode number to hand out, and a logical clock in milliseconds.
pub struct FsModel {
    pub entries: Map<u64, EntryView>,
    pub children: Map<u64, Seq<u64>>,
    pub data: Map<u64, Seq<u8>>,
    pub next_ino: u64,
    pub clock: u64,
}

/// True when some child of `parent` carries `name`.
pub open spec fn has_child_named(m: FsModel, parent: u64, name: Seq<char>) -> bool {
    m.children.contains_key(parent) && exists|j: int|
        0 <= j < m.children[parent].len() && m.entries[m.children[parent][j]].name == name
}

/// The child of `parent` carrying `name`; meaningful only under
/// `has_child_named`, and unique under `model_inv`.
pub open spec fn child_named(m: FsModel, parent: u64, name: Seq<char>) -> EntryView {
    let j = choose|j: int|
        0 <= j < m.children[parent].len() && m.entries[m.children[parent][j]].name == name;
    m.entries[m.children[parent][j]]
}

/// What a name lookup under a parent directory returns.
pub open spec fn spec_lookup(m: FsModel, parent: u64, name: Seq<char>) -> Option<EntryView> {
    if has_child_named(m, parent, name) {
        Some(child_named(m, parent, name))
    } else {
        None
    }
}

/// Entries are keyed by their own inode and structurally sound.
pub open spec fn inv_keyed(m: FsModel) -> bool {
    forall|i: u64| #[trigger]
        m.entries.contains_key(i) ==> m.entries[i].ino == i && m.entries[i].wf()
}

/// An entry has a child list exactly when it is a directory.
pub open spec fn inv_dirs(m: FsModel) -> bool {
    &&& forall|i: u64| #[trigger]
        m.entries.contains_key(i) ==> ((m.entries[i].kind == EntryType::Directory)
            <==> m.children.contains_key(i))
    &&& forall|i: u64| #[trigger] m.children.contains_key(i) ==> m.entries.contains_key(i)
}

/// An entry has file contents exactly when it is a file, and the content
/// length equals the recorded size.
pub open spec fn inv_files(m: FsModel) -> bool {
    &&& forall|i: u64| #[trigger]
        m.entries.contains_key(i) ==> ((m.entries[i].kind == EntryType::File)
            <==> m.data.contains_key(i))
    &&& forall|i: u64| #[trigger]
        m.data.contains_key(i) ==> m.entries.contains_key(i) && m.data[i].len()
            == m.entries[i].size
}

/// Child lists point to existing entries.
pub open spec fn inv_children_exist(m: FsModel) -> bool {
    forall|d: u64, j: int| #![trigger m.children[d][j]]
        m.children.contains_key(d) && 0 <= j < m.children[d].len() ==> m.entries.contains_key(
            m.children[d][j],
        )
}

/// No directory repeats a child name.
pub open spec fn inv_names(m: FsModel) -> bool {
    forall|d: u64, j: int, k: int|
        #![trigger m.entries[m.children[d][j]].name, m.entries[m.children[d][k]].name]
        m.children.contains_key(d) && 0 <= j < m.children[d].len() && 0 <= k
            < m.children[d].len() && j != k ==> m.entries[m.children[d][j]].name
            != m.entries[m.children[d][k]].name
}

/// No inode is listed twice anywhere.
pub open spec fn inv_once(m: FsModel) -> bool {
    forall|d1: u64, j1: int, d2: u64, j2: int|
        #![trigger m.children[d1][j1], m.children[d2][j2]]
        m.children.contains_key(d1) && m.children.contains_key(d2)
            && 0 <= j1 < m.children[d1].len() && 0 <= j2 < m.children[d2].len()
            && (d1 != d2 || j1 != j2) ==> m.children[d1][j1] != m.children[d2][j2]
}

/// No directory lists itself.
pub open spec fn inv_no_self(m: FsModel) -> bool {
    forall|d: u64, j: int| #![trigger m.children[d][j]]
        m.children.contains_key(d) && 0 <= j < m.children[d].len() ==> m.children[d][j] != d
}

/// Every inode in use lies below the allocation counter.
pub open spec fn inv_fresh(m: FsModel) -> bool {
    forall|i: u64| #[trigger] m.entries.contains_key(i) ==> i < m.next_ino
}

/// Every timestamp lies at or below the clock.
pub open spec fn inv_clock(m: FsModel) -> bool {
    forall|i: u64| #[trigger]
        m.entries.contains_key(i) ==> m.entries[i].mtime <= m.clock && m.entries[i].atime
            <= m.clock && m.entries[i].ctime <= m.clock && m.entries[i].btime <= m.clock
}

/// Well-formedness of the filesystem model.
pub open spec fn model_inv(m: FsModel) -> bool {
    &&& inv_keyed(m)
    &&& inv_dirs(m)
    &&& inv_files(m)
    &&& inv_children_exist(m)
    &&& inv_names(m)
    &&& inv_once(m)
    &&& inv_no_self(m)
    &&& inv_fresh(m)
    &&& inv_clock(m)
}

/// Index of the last path separator in `p`, or -1 when there is none.
pub open spec fn last_slash_at(p: Seq<char>) -> int
    decreases p.len(),
{
    if p.len() == 0 {
        -1
    } else if p[p.len() - 1] == '/' {
        p.len() - 1
    } else {
        last_slash_at(p.drop_last())
    }
}

/// The parent directory of an absolute path: everything before the last
/// separator, or the root when the path has at most a leading separator.
pub open spec fn spec_parent_dir(p: Seq<char>) -> Seq<char> {
    let i = last_slash_at(p);
    if i <= 0 {
        seq!['/']
    } else {
        p.subrange(0, i)
    }
}

pub(crate) proof fn lemma_last_slash_char(p: Seq<char>)
    ensures
        last_slash_at(p) >= -1,
        last_slash_at(p) == -1 ==> (forall|k: int| 0 <= k < p.len() ==> p[k] != '/'),
        last_slash_at(p) >= 0 ==> 0 <= last_slash_at(p) < p.len() && p[last_slash_at(p)] == '/' && (
        forall|k: int| last_slash_at(p) < k < p.len() ==> p[k] != '/'),
    decreases p.len(),
{
    if p.len() == 0 {
    } else if p[p.len() - 1] == '/' {
    } else {
        lemma_last_slash_char(p.drop_last());
        assert(forall|k: int| 0 <= k < p.len() - 1 ==> p.drop_last()[k] == p[k]);
    }
}

/// The in-memory backend: a complete implementation of the remote
/// contract against a small sample tree, useful for exercising the cache
/// and the adapter without a server.
pub struct StubBackend {
    entries: HashMap<u64, FileEntry>,
    children: HashMap<u64, Vec<u64>>,
    data: HashMap<u64, Vec<u8>>,
    next_ino: u64,
    clock: u64,
}

impl StubBackend {
    /// The mathematical state of the backend.
    pub closed spec fn model(self) -> FsModel {
        FsModel {
            entries: self.entries@.map_values(|e: FileEntry| e@),
            children: self.children@.map_values(|v: Vec<u64>| v@),
            data: self.data@.map_values(|v: Vec<u8>| v@),
            next_ino: self.next_ino,
            clock: self.clock,
        }
    }

    /// Well-formedness of the backend state.
    pub open spec fn inv(self) -> bool {
        model_inv(self.model())
    }

    /// True while a fresh inode number can still be handed out.
    pub open spec fn can_alloc(self) -> bool {
        self.model().next_ino < u64::MAX
    }

    /// True while the logical clock can still advance.
    pub open spec fn clock_ok(self) -> bool {
        self.model().clock < u64::MAX
    }

    /// Hands out a fresh inode number, one above every inode in use.
    pub fn allocate_ino(&mut self) -> (r: u64)
        requires
            old(self).can_alloc(),
        ensures
            r == old(self).model().next_ino,
            final(self).model() == (FsModel { next_ino: (r + 1) as u64, ..old(self).model() }),
    {
        let val = self.next_ino;
        self.next_ino = self.next_ino + 1;
        val
    }

    /// The parent directory of an absolute path, as a pure computation on
    /// the path string.
    pub fn get_parent_dir(path: &str) -> (r: String)
        ensures
            r@ == spec_parent_dir(path@),
    {
        let cs = chars_vec(path);
        let mut i: usize = cs.len();
        let mut found: usize = 0;
        let mut has_found: bool = false;
        while i > 0 && !has_found
            invariant
                i <= cs@.len(),
                cs@ == path@,
                !has_found ==> (forall|k: int| i <= k < cs@.len() ==> cs@[k] != '/'),
                has_found ==> found == i && i < cs@.len() && cs@[found as int] == '/' && (forall|
                    k: int,
                |
                    found < k < cs@.len() ==> cs@[k] != '/'),
            decreases i,
        {
            i = i - 1;
            if cs[i] == '/' {
                has_found = true;
                found = i;
            }
        }
        proof {
            lemma_last_slash_char(path@);
            if has_found {
                assert(path@[found as int] == '/');
                if last_slash_at(path@) == -1 {
                    assert(path@[found as int] != '/');
                }
                if last_slash_at(path@) > found {
                    assert(path@[last_slash_at(path@)] != '/');
                }
                if 0 <= last_slash_at(path@) < found {
                    assert(path@[found as int] != '/');
                }
                assert(last_slash_at(path@) == found as int);
            } else {
                if last_slash_at(path@) >= 0 {
                    assert(path@[last_slash_at(path@)] != '/');
                }
                assert(last_slash_at(path@) == -1);
            }
        }
        if !has_found || found == 0 {
            let mut s = String::new();
            push_char(&mut s, '/');
            proof {
                assert(s@ =~= seq!['/']);
            }
            s
        } else {
            let cut = found;
            let mut s = String::new();
            let mut j: usize = 0;
            while j < cut
                invariant
                    j <= cut,
                    cut <= cs@.len(),
                    cs@ == path@,
                    s@ == path@.subrange(0, j as int),
                decreases cut - j,
            {
                push_char(&mut s, cs[j]);
                proof {
                    assert(s@ =~= path@.subrange(0, j + 1 as int));
                }
                j = j + 1;
            }
            s
        }
    }

    /// Checks that `parent_ino` names an existing directory.
    pub fn validate_parent_exists(&self, parent_ino: u64) -> (r: Result<(), BackendError>)
        ensures
            r is Ok <==> self.model().children.contains_key(parent_ino),
    {
        if self.children.contains_key(&parent_ino) {
            Ok(())
        } else {
            let mut s = String::new();
            push_str(&mut s, "parent directory not found");
            Err(BackendError::NotFound(s))
        }
    }

    /// Advances the logical clock by one millisecond, saturating at the
    /// largest representable time, and returns the new time.
    fn stamp(&mut self) -> (now: u64)
        ensures
            final(self).model() == (FsModel { clock: now, ..old(self).model() }),
            now == spec_next_clock(old(self).model()),
    {
        if self.clock < u64::MAX {
            self.clock = self.clock + 1;
        }
        self.clock
    }

    /// Finds the position of the child of `parent_ino` named `name`.
    fn find_child_index(&self, parent_ino: u64, name: &str) -> (r: Option<usize>)
        requires
            self.inv(),
            self.model().children.contains_key(parent_ino),
        ensures
            match r {
                Some(j) => j < self.model().children[parent_ino].len() && self.model().entries[
                    self.model().children[parent_ino][j as int]
                ].name == name@,
                None => !has_child_named(self.model(), parent_ino, name@),
            },
    {
        let cs = self.children.get(&parent_ino).unwrap();
        let mut j: usize = 0;
        while j < cs.len()
            invariant
                self.inv(),
                self.model().children.contains_key(parent_ino),
                cs@ == self.model().children[parent_ino],
                j <= cs@.len(),
                forall|k: int| 0 <= k < j ==> self.model().entries[cs@[k]].name != name@,
            decreases cs@.len() - j,
        {
            let child = cs[j];
            let e = self.entries.get(&child).unwrap();
            if str_eq(e.name.as_str(), name) {
                return Some(j);
            }
            j = j + 1;
        }
        None
    }

    /// Builds the full path of a child named `name` under `parent_ino`.
    fn join_child_path(&self, parent_ino: u64, name: &str) -> (r: String)
        requires
            self.inv(),
            self.model().entries.contains_key(parent_ino),
        ensures
            r@ == spec_join_path(self.model().entries[parent_ino].path, name@),
    {
        let pe = self.entries.get(&parent_ino).unwrap();
        let slash: String = "/".to_owned();
        let mut p = String::new();
        if pe.path == slash {
            push_char(&mut p, '/');
        } else {
            push_str(&mut p, pe.path.as_str());
            push_char(&mut p, '/');
        }
        push_str(&mut p, name);
        proof {
            reveal_strlit("/");
            assert(slash@ == seq!['/']);
            assert(pe.path@ == self.model().entries[parent_ino].path);
            if self.model().entries[parent_ino].path == seq!['/'] {
                assert(p@ =~= seq!['/'] + name@);
            } else {
                assert(p@ =~= self.model().entries[parent_ino].path + seq!['/'] + name@);
            }
        }
        p
    }

    /// Builds a fresh backend holding the sample tree: the root directory,
    /// two empty directories and two empty files.
    pub fn new() -> (r: StubBackend)
        ensures
            r.inv(),
            r.can_alloc(),
            r.clock_ok(),
            r.model().children.contains_key(1),
            r.model().entries.contains_key(1),
            r.model().entries[1].kind == EntryType::Directory,
            r.model().children[1] == seq![2u64, 3u64, 4u64, 5u64],
            r.model().entries.contains_key(2),
            r.model().entries[2].kind == EntryType::Directory,
            r.model().entries[2].name == "cartella1"@,
            r.model().entries[2].path == "/cartella1"@,
            r.model().children.contains_key(2),
            r.model().children[2].len() == 0,
            r.model().entries.contains_key(3),
            r.model().entries[3].kind == EntryType::Directory,
            r.model().entries[3].name == "cartella2"@,
            r.model().entries[3].path == "/cartella2"@,
            r.model().children.contains_key(3),
            r.model().children[3].len() == 0,
            r.model().entries.contains_key(4),
            r.model().entries[4].kind == EntryType::File,
            r.model().entries[4].size == 0,
            r.model().entries[4].name == "file1.txt"@,
            r.model().entries[4].path == "/file1.txt"@,
            r.model().entries.contains_key(5),
            r.model().entries[5].kind == EntryType::File,
            r.model().entries[5].size == 0,
            r.model().entries[5].name == "file2.txt"@,
            r.model().entries[5].path == "/file2.txt"@,
            r.model().entries[1].name == "/"@,
            r.model().entries[1].path == "/"@,
    {
        let mut entries: HashMap<u64, FileEntry> = HashMap::new();
        let mut children: HashMap<u64, Vec<u64>> = HashMap::new();
        let mut data: HashMap<u64, Vec<u8>> = HashMap::new();
        entries.insert(
            1,
            FileEntry {
                ino: 1,
                name: "/".to_owned(),
                path: "/".to_owned(),
                kind: EntryType::Directory,
                size: 0,
                perms: 0o755,
                uid: 0,
                gid: 0,
                atime: 0,
                mtime: 0,
                ctime: 0,
                btime: 0,
                nlinks: 2,
            },
        );
        entries.insert(
            2,
            FileEntry {
                ino: 2,
                name: "cartella1".to_owned(),
                path: "/cartella1".to_owned(),
                kind: EntryType::Directory,
                size: 0,
                perms: 0o755,
                uid: 0,
                gid: 0,
                atime: 0,
                mtime: 0,
                ctime: 0,
                btime: 0,
                nlinks: 2,
            },
        );
        entries.insert(
            3,
            FileEntry {
                ino: 3,
                name: "cartella2".to_owned(),
                path: "/cartella2".to_owned(),
                kind: EntryType::Directory,
                size: 0,
                perms: 0o755,
                uid: 0,
                gid: 0,
                atime: 0,
                mtime: 0,
                ctime: 0,
                btime: 0,
                nlinks: 2,
            },
        );
        entries.insert(
            4,
            FileEntry {
                ino: 4,
                name: "file1.txt".to_owned(),
                path: "/file1.txt".to_owned(),
                kind: EntryType::File,
                size: 0,
                perms: 0o644,
                uid: 0,
                gid: 0,
                atime: 0,
                mtime: 0,
                ctime: 0,
                btime: 0,
                nlinks: 1,
            },
        );
        entries.insert(
            5,
            FileEntry {
                ino: 5,
                name: "file2.txt".to_owned(),
                path: "/file2.txt".to_owned(),
                kind: EntryType::File,
                size: 0,
                perms: 0o644,
                uid: 0,
                gid: 0,
                atime: 0,
                mtime: 0,
                ctime: 0,
                btime: 0,
                nlinks: 1,
            },
        );
        let mut root_children: Vec<u64> = Vec::new();
        root_children.push(2);
        root_children.push(3);
        root_children.push(4);
        root_children.push(5);
        proof {
            assert(root_children@ =~= seq![2u64, 3u64, 4u64, 5u64]);
        }
        children.insert(1, root_children);
        children.insert(2, Vec::new());
        children.insert(3, Vec::new());
        data.insert(4, Vec::new());
        data.insert(5, Vec::new());
        let r = StubBackend { entries, children, data, next_ino: 6, clock: 0 };
        proof {
            reveal_strlit("/");
            reveal_strlit("cartella1");
            reveal_strlit("cartella2");
            reveal_strlit("file1.txt");
            reveal_strlit("file2.txt");
            reveal_strlit("/cartella1");
            reveal_strlit("/cartella2");
            reveal_strlit("/file1.txt");
            reveal_strlit("/file2.txt");
            assert(r.model().children[1] =~= seq![2u64, 3u64, 4u64, 5u64]);
            assert(r.inv()) by {
                assert(forall|i: u64| #[trigger]
                    r.model().entries.contains_key(i) ==> i == 1 || i == 2 || i == 3 || i == 4
                        || i == 5);
                assert(forall|i: u64| #[trigger]
                    r.model().children.contains_key(i) ==> i == 1 || i == 2 || i == 3);
                assert(r.model().children[1].len() == 4);
                assert(r.model().children[2].len() == 0);
                assert(r.model().children[3].len() == 0);
                assert("cartella1"@ != "cartella2"@) by {
                    assert("cartella1"@[8] != "cartella2"@[8]);
                }
                assert("cartella1"@ != "file1.txt"@) by {
                    assert("cartella1"@[0] != "file1.txt"@[0]);
                }
                assert("cartella1"@ != "file2.txt"@) by {
                    assert("cartella1"@[0] != "file2.txt"@[0]);
                }
                assert("cartella2"@ != "file1.txt"@) by {
                    assert("cartella2"@[0] != "file1.txt"@[0]);
                }
                assert("cartella2"@ != "file2.txt"@) by {
                    assert("cartella2"@[0] != "file2.txt"@[0]);
                }
                assert("file1.txt"@ != "file2.txt"@) by {
                    assert("file1.txt"@[4] != "file2.txt"@[4]);
                }
            }
        }
        r
    }
}

/// The clock value after one more step: one above the current value,
/// saturating at the largest representable time.
pub open spec fn spec_next_clock(m: FsModel) -> u64 {
    if m.clock < u64::MAX {
        (m.clock + 1) as u64
    } else {
        m.clock
    }
}

/// A child's full path: the parent's path, a separator unless the parent
/// is the root, then the child's name.
pub open spec fn spec_join_path(dir: Seq<char>, name: Seq<char>) -> Seq<char> {
    if dir == seq!['/'] {
        seq!['/'] + name
    } else {
        dir + seq!['/'] + name
    }
}

/// The metadata a newly created file carries.
pub open spec fn new_file_view(m: FsModel, parent: u64, name: Seq<char>) -> EntryView {
    EntryView {
        ino: m.next_ino,
        name: name,
        path: spec_join_path(m.entries[parent].path, name),
        kind: EntryType::File,
        size: 0,
        perms: 0o644u16,
        uid: 0,
        gid: 0,
        atime: spec_next_clock(m),
        mtime: spec_next_clock(m),
        ctime: spec_next_clock(m),
        btime: spec_next_clock(m),
        nlinks: 1,
    }
}

/// The metadata a newly created directory carries.
pub open spec fn new_dir_view(m: FsModel, parent: u64, name: Seq<char>) -> EntryView {
    EntryView {
        kind: EntryType::Directory,
        perms: 0o755u16,
        nlinks: 2,
        ..new_file_view(m, parent, name)
    }
}

/// The entry map with the parent's modification time advanced to `now`.
pub open spec fn touch_parent(entries: Map<u64, EntryView>, parent: u64, now: u64) -> Map<
    u64,
    EntryView,
> {
    entries.insert(parent, EntryView { mtime: now, ..entries[parent] })
}

/// State after creating an empty file `name` under `parent`.
pub open spec fn spec_create_file(m: FsModel, parent: u64, name: Seq<char>) -> FsModel {
    let now = spec_next_clock(m);
    let e = new_file_view(m, parent, name);
    FsModel {
        entries: touch_parent(m.entries, parent, now).insert(e.ino, e),
        children: m.children.insert(parent, m.children[parent].push(e.ino)),
        data: m.data.insert(e.ino, Seq::empty()),
        next_ino: (m.next_ino + 1) as u64,
        clock: now,
    }
}

/// State after creating an empty directory `name` under `parent`.
pub open spec fn spec_create_dir(m: FsModel, parent: u64, name: Seq<char>) -> FsModel {
    let now = spec_next_clock(m);
    let e = new_dir_view(m, parent, name);
    FsModel {
        entries: touch_parent(m.entries, parent, now).insert(e.ino, e),
        children: m.children.insert(parent, m.children[parent].push(e.ino)).insert(
            e.ino,
            Seq::empty(),
        ),
        data: m.data,
        next_ino: (m.next_ino + 1) as u64,
        clock: now,
    }
}

/// The position of the child of `parent` carrying `name`; meaningful only
/// under `has_child_named`, and unique under `model_inv`.
pub open spec fn child_index_named(m: FsModel, parent: u64, name: Seq<char>) -> int {
    choose|j: int|
        0 <= j < m.children[parent].len() && m.entries[m.children[parent][j]].name == name
}

/// State after deleting the file `name` under `parent`.
pub open spec fn spec_delete_file(m: FsModel, parent: u64, name: Seq<char>) -> FsModel {
    let now = spec_next_clock(m);
    let j = child_index_named(m, parent, name);
    let ino = m.children[parent][j];
    FsModel {
        entries: touch_parent(m.entries, parent, now).remove(ino),
        children: m.children.insert(parent, m.children[parent].remove(j)),
        data: m.data.remove(ino),
        next_ino: m.next_ino,
        clock: now,
    }
}

/// State after deleting the empty directory `name` under `parent`.
pub open spec fn spec_delete_dir(m: FsModel, parent: u64, name: Seq<char>) -> FsModel {
    let now = spec_next_clock(m);
    let j = child_index_named(m, parent, name);
    let ino = m.children[parent][j];
    FsModel {
        entries: touch_parent(m.entries, parent, now).remove(ino),
        children: m.children.insert(parent, m.children[parent].remove(j)).remove(ino),
        data: m.data,
        next_ino: m.next_ino,
        clock: now,
    }
}

/// File contents after writing `b` at `offset`: the prefix up to the
/// offset, zero-extended if the file was shorter, then `b`, then
/// whatever old content lies past the written range.
pub open spec fn spec_write_data(content: Seq<u8>, offset: int, b: Seq<u8>) -> Seq<u8> {
    let padded = if content.len() >= offset {
        content
    } else {
        content + Seq::new((offset - content.len()) as nat, |i: int| 0u8)
    };
    let tail = if padded.len() > offset + b.len() {
        padded.subrange(offset + b.len(), padded.len() as int)
    } else {
        Seq::empty()
    };
    padded.subrange(0, offset) + b + tail
}

/// State after writing `b` into file `ino` at `offset`.
pub open spec fn spec_write_chunk(m: FsModel, ino: u64, offset: u64, b: Seq<u8>) -> FsModel {
    let now = spec_next_clock(m);
    let nd = spec_write_data(m.data[ino], offset as int, b);
    FsModel {
        entries: m.entries.insert(
            ino,
            EntryView { size: nd.len() as u64, mtime: now, ..m.entries[ino] },
        ),
        children: m.children,
        data: m.data.insert(ino, nd),
        next_ino: m.next_ino,
        clock: now,
    }
}

/// What a chunk read of `size` bytes at `offset` returns: the bytes that
/// exist in that range, so a read past end of file is empty and one
/// straddling it is cut short.
pub open spec fn spec_read_result(content: Seq<u8>, offset: u64, size: u64) -> Seq<u8> {
    let lo = if offset <= content.len() {
        offset as int
    } else {
        content.len() as int
    };
    let hi = if offset + size <= content.len() {
        (offset + size) as int
    } else {
        content.len() as int
    };
    content.subrange(lo, hi)
}

/// State after moving the entry `old_name` under `p1` to `new_name`
/// under `p2`: the inode is unchanged, both parents' modification times
/// advance, and the entry's name, path and change time are updated.
pub open spec fn spec_rename(
    m: FsModel,
    p1: u64,
    old_name: Seq<char>,
    p2: u64,
    new_name: Seq<char>,
) -> FsModel {
    let now = spec_next_clock(m);
    let j1 = child_index_named(m, p1, old_name);
    let ino = m.children[p1][j1];
    let moved = EntryView {
        name: new_name,
        path: spec_join_path(m.entries[p2].path, new_name),
        ctime: now,
        ..m.entries[ino]
    };
    let c1 = m.children.insert(p1, m.children[p1].remove(j1));
    FsModel {
        entries: touch_parent(touch_parent(m.entries, p1, now), p2, now).insert(ino, moved),
        children: c1.insert(p2, c1[p2].push(ino)),
        data: m.data,
        next_ino: m.next_ino,
        clock: now,
    }
}

/// File contents after a truncating or zero-extending resize to `size`.
pub open spec fn spec_resize_data(content: Seq<u8>, size: u64) -> Seq<u8> {
    if size <= content.len() {
        content.subrange(0, size as int)
    } else {
        content + Seq::new((size - content.len()) as nat, |i: int| 0u8)
    }
}

/// The entry after an attribute change: permissions keep only their low
/// nine bits; identifiers pass through; a requested size takes effect
/// exactly; the change time always advances, the modification time only
/// when the size was set.
pub open spec fn spec_set_attr_view(e: EntryView, attrs: SetAttrRequest, now: u64) -> EntryView {
    let perms = if attrs.perm is Some {
        (attrs.perm->0 & 0x1ffu32) as u16
    } else {
        e.perms
    };
    let uid = if attrs.uid is Some {
        attrs.uid->0
    } else {
        e.uid
    };
    let gid = if attrs.gid is Some {
        attrs.gid->0
    } else {
        e.gid
    };
    let size = if attrs.size is Some {
        attrs.size->0
    } else {
        e.size
    };
    let mtime = if attrs.size is Some {
        now
    } else {
        e.mtime
    };
    EntryView { perms, uid, gid, size, mtime, ctime: now, ..e }
}

/// State after an attribute change on `ino`.
pub open spec fn spec_set_attr(m: FsModel, ino: u64, attrs: SetAttrRequest) -> FsModel {
    let now = spec_next_clock(m);
    let e = spec_set_attr_view(m.entries[ino], attrs, now);
    FsModel {
        entries: m.entries.insert(ino, e),
        children: m.children,
        data: if attrs.size is Some {
            m.data.insert(ino, spec_resize_data(m.data[ino], attrs.size->0))
        } else {
            m.data
        },
        next_ino: m.next_ino,
        clock: now,
    }
}

/// True when `parent` has a child named `name` and it is a file.
pub open spec fn file_child_exists(m: FsModel, parent: u64, name: Seq<char>) -> bool {
    m.children.contains_key(parent) && has_child_named(m, parent, name) && child_named(
        m,
        parent,
        name,
    ).kind == EntryType::File
}

/// True when `parent` has a child named `name` and it is a directory.
pub open spec fn dir_child_exists(m: FsModel, parent: u64, name: Seq<char>) -> bool {
    m.children.contains_key(parent) && has_child_named(m, parent, name) && child_named(
        m,
        parent,
        name,
    ).kind == EntryType::Directory
}

/// The metadata of `ino` after a move under `p2` with the new name.
pub open spec fn spec_renamed_view(m: FsModel, p2: u64, ino: u64, new_name: Seq<char>) -> EntryView {
    EntryView {
        name: new_name,
        path: spec_join_path(m.entries[p2].path, new_name),
        ctime: spec_next_clock(m),
        ..m.entries[ino]
    }
}

fn mk_not_found(msg: &str) -> (r: BackendError)
    ensures
        r is NotFound,
{
    let mut s = String::new();
    push_str(&mut s, msg);
    BackendError::NotFound(s)
}

fn mk_conflict(msg: &str) -> (r: BackendError)
    ensures
        r is Conflict,
{
    let mut s = String::new();
    push_str(&mut s, msg);
    BackendError::Conflict(s)
}

fn mk_other(msg: &str) -> (r: BackendError)
    ensures
        r is Other,
{
    let mut s = String::new();
    push_str(&mut s, msg);
    BackendError::Other(s)
}

/// Facts shared by every mutation: in a well-formed model the fresh
/// inode is unknown to every map and every child list.
proof fn lemma_fresh_ino(m: FsModel)
    requires
        model_inv(m),
    ensures
        !m.entries.contains_key(m.next_ino),
        !m.children.contains_key(m.next_ino),
        !m.data.contains_key(m.next_ino),
        forall|d: u64, j: int| #![trigger m.children[d][j]]
            m.children.contains_key(d) && 0 <= j < m.children[d].len() ==> m.children[d][j]
                != m.next_ino,
{
    assert forall|d: u64, j: int|
        m.children.contains_key(d) && 0 <= j < m.children[d].len() implies #[trigger] m.children[d][j] != m.next_ino by {
        assert(m.entries.contains_key(m.children[d][j]));
    }
}

/// Creating a file preserves well-formedness.
proof fn lemma_create_file_inv(m: FsModel, parent: u64, name: Seq<char>)
    requires
        model_inv(m),
        m.children.contains_key(parent),
        !has_child_named(m, parent, name),
        m.next_ino < u64::MAX,
    ensures
        model_inv(spec_create_file(m, parent, name)),
{
    lemma_fresh_ino(m);
    let m2 = spec_create_file(m, parent, name);
    let f = m.next_ino;
    let now = spec_next_clock(m);
    let oldlen = m.children[parent].len() as int;
    assert(m.entries.contains_key(parent));
    assert(m2.children[parent] == m.children[parent].push(f));
    assert(forall|j: int| 0 <= j < oldlen ==> m2.children[parent][j] == m.children[parent][j]);
    assert(m2.children[parent][oldlen] == f);
    assert(forall|d: u64|
        #[trigger] m2.children.contains_key(d) <==> (m.children.contains_key(d) || d == parent));
    assert(forall|d: u64|
        d != parent && m.children.contains_key(d) ==> m2.children[d] == m.children[d]);
    assert(forall|c: u64| #[trigger] m.entries.contains_key(c) ==> m2.entries.contains_key(c));
    assert(forall|c: u64|
        #[trigger] m.entries.contains_key(c) && c != parent && c != f ==> m2.entries[c]
            == m.entries[c]);
    assert(forall|c: u64|
        #[trigger] m.entries.contains_key(c) ==> m2.entries[c].name == m.entries[c].name
            && m2.entries[c].kind == m.entries[c].kind && m2.entries[c].size == m.entries[c].size
            && m2.entries[c].ino == m.entries[c].ino);
    assert(forall|j: int| 0 <= j < oldlen ==> m.entries[m.children[parent][j]].name != name);
    assert(inv_keyed(m2));
    assert(inv_dirs(m2));
    assert(inv_files(m2));
    assert(inv_children_exist(m2));
    assert(inv_names(m2));
    assert(inv_once(m2));
    assert(inv_no_self(m2));
    assert(inv_fresh(m2));
    assert(inv_clock(m2));
}

/// Creating a directory preserves well-formedness.
proof fn lemma_create_dir_inv(m: FsModel, parent: u64, name: Seq<char>)
    requires
        model_inv(m),
        m.children.contains_key(parent),
        !has_child_named(m, parent, name),
        m.next_ino < u64::MAX,
    ensures
        model_inv(spec_create_dir(m, parent, name)),
{
    lemma_fresh_ino(m);
    let m2 = spec_create_dir(m, parent, name);
    let f = m.next_ino;
    let oldlen = m.children[parent].len() as int;
    assert(m.entries.contains_key(parent));
    assert(f != parent);
    assert(m2.children[parent] == m.children[parent].push(f));
    assert(forall|j: int| 0 <= j < oldlen ==> m2.children[parent][j] == m.children[parent][j]);
    assert(m2.children[parent][oldlen] == f);
    assert(m2.children[f] == Seq::<u64>::empty());
    assert(forall|d: u64|
        #[trigger] m2.children.contains_key(d) <==> (m.children.contains_key(d) || d == parent || d
            == f));
    assert(forall|d: u64|
        d != parent && d != f && m.children.contains_key(d) ==> m2.children[d] == m.children[d]);
    assert(forall|c: u64| #[trigger] m.entries.contains_key(c) ==> m2.entries.contains_key(c));
    assert(forall|c: u64|
        #[trigger] m.entries.contains_key(c) && c != parent && c != f ==> m2.entries[c]
            == m.entries[c]);
    assert(forall|c: u64|
        #[trigger] m.entries.contains_key(c) ==> m2.entries[c].name == m.entries[c].name
            && m2.entries[c].kind == m.entries[c].kind && m2.entries[c].size == m.entries[c].size
            && m2.entries[c].ino == m.entries[c].ino);
    assert(forall|j: int| 0 <= j < oldlen ==> m.entries[m.children[parent][j]].name != name);
    assert(inv_keyed(m2));
    assert(inv_dirs(m2));
    assert(inv_files(m2));
    assert(inv_children_exist(m2));
    assert(inv_names(m2));
    assert(inv_once(m2));
    assert(inv_no_self(m2));
    assert(inv_fresh(m2));
    assert(inv_clock(m2));
}

/// Facts about the unique child position carrying a name.
proof fn lemma_child_index(m: FsModel, parent: u64, name: Seq<char>)
    requires
        model_inv(m),
        m.children.contains_key(parent),
        has_child_named(m, parent, name),
    ensures
        0 <= child_index_named(m, parent, name) < m.children[parent].len(),
        m.entries[m.children[parent][child_index_named(m, parent, name)]].name == name,
        m.entries.contains_key(m.children[parent][child_index_named(m, parent, name)]),
        m.children[parent][child_index_named(m, parent, name)] != parent,
        child_named(m, parent, name) == m.entries[m.children[parent][child_index_named(
            m,
            parent,
            name,
        )]],
        forall|k: int|
            0 <= k < m.children[parent].len() && k != child_index_named(m, parent, name)
                ==> m.entries[#[trigger] m.children[parent][k]].name != name,
{
    let j = child_index_named(m, parent, name);
    assert(0 <= j < m.children[parent].len() && m.entries[m.children[parent][j]].name == name);
    assert forall|k: int|
        0 <= k < m.children[parent].len() && k != j implies m.entries[#[trigger] m.children[parent][k]].name != name by {
        assert(m.entries[m.children[parent][j]].name == m.entries[m.children[parent][k]].name
            ==> false);
    }
}

/// Deleting a file preserves well-formedness.
proof fn lemma_delete_file_inv(m: FsModel, parent: u64, name: Seq<char>)
    requires
        model_inv(m),
        file_child_exists(m, parent, name),
    ensures
        model_inv(spec_delete_file(m, parent, name)),
{
    lemma_child_index(m, parent, name);
    let m2 = spec_delete_file(m, parent, name);
    let j = child_index_named(m, parent, name);
    let ino = m.children[parent][j];
    let cs2 = m.children[parent].remove(j);
    assert(m.entries[ino].kind == EntryType::File);
    assert(!m.children.contains_key(ino));
    assert(forall|k: int| 0 <= k < j ==> cs2[k] == m.children[parent][k]);
    assert(forall|k: int|
        j <= k < cs2.len() ==> cs2[k] == m.children[parent][k + 1] && 0 <= k + 1 < m.children[parent].len());
    assert forall|k: int| 0 <= k < cs2.len() implies #[trigger] cs2[k] != ino by {
        if k < j {
            assert(m.children[parent][k] != m.children[parent][j]);
        } else {
            assert(m.children[parent][k + 1] != m.children[parent][j]);
        }
    }
    assert forall|d: u64, k: int|
        m2.children.contains_key(d) && 0 <= k < m2.children[d].len() implies #[trigger] m2.children[d][k] != ino by {
        if d == parent {
        } else {
            assert(m.children[d][k] != m.children[parent][j]);
        }
    }
    assert(forall|c: u64|
        #[trigger] m.entries.contains_key(c) && c != parent && c != ino ==> m2.entries.contains_key(
            c,
        ) && m2.entries[c] == m.entries[c]);
    assert(forall|c: u64|
        #[trigger] m.entries.contains_key(c) && c != ino ==> m2.entries[c].name
            == m.entries[c].name && m2.entries[c].kind == m.entries[c].kind && m2.entries[c].size
            == m.entries[c].size && m2.entries[c].ino == m.entries[c].ino);
    assert(inv_keyed(m2));
    assert(inv_dirs(m2));
    assert(inv_files(m2));
    assert(inv_children_exist(m2));
    assert(inv_names(m2));
    assert(inv_once(m2));
    assert(inv_no_self(m2));
    assert(inv_fresh(m2));
    assert(inv_clock(m2));
}

/// Deleting an empty directory preserves well-formedness.
proof fn lemma_delete_dir_inv(m: FsModel, parent: u64, name: Seq<char>)
    requires
        model_inv(m),
        dir_child_exists(m, parent, name),
    ensures
        model_inv(spec_delete_dir(m, parent, name)),
{
    lemma_child_index(m, parent, name);
    let m2 = spec_delete_dir(m, parent, name);
    let j = child_index_named(m, parent, name);
    let ino = m.children[parent][j];
    let cs2 = m.children[parent].remove(j);
    assert(m.entries[ino].kind == EntryType::Directory);
    assert(!m.data.contains_key(ino));
    assert(forall|k: int| 0 <= k < j ==> cs2[k] == m.children[parent][k]);
    assert(forall|k: int|
        j <= k < cs2.len() ==> cs2[k] == m.children[parent][k + 1] && 0 <= k + 1 < m.children[parent].len());
    assert forall|k: int| 0 <= k < cs2.len() implies #[trigger] cs2[k] != ino by {
        if k < j {
            assert(m.children[parent][k] != m.children[parent][j]);
        } else {
            assert(m.children[parent][k + 1] != m.children[parent][j]);
        }
    }
    assert forall|d: u64, k: int|
        m2.children.contains_key(d) && 0 <= k < m2.children[d].len() implies #[trigger] m2.children[d][k] != ino by {
        if d == parent {
        } else {
            assert(m.children[d][k] != m.children[parent][j]);
        }
    }
    assert(forall|c: u64|
        #[trigger] m.entries.contains_key(c) && c != parent && c != ino ==> m2.entries.contains_key(
            c,
        ) && m2.entries[c] == m.entries[c]);
    assert(forall|c: u64|
        #[trigger] m.entries.contains_key(c) && c != ino ==> m2.entries[c].name
            == m.entries[c].name && m2.entries[c].kind == m.entries[c].kind && m2.entries[c].size
            == m.entries[c].size && m2.entries[c].ino == m.entries[c].ino);
    assert(inv_keyed(m2));
    assert(inv_dirs(m2));
    assert(inv_files(m2));
    assert(inv_children_exist(m2));
    assert(inv_names(m2));
    assert(inv_once(m2));
    assert(inv_no_self(m2));
    assert(inv_fresh(m2));
    assert(inv_clock(m2));
}

/// Writing a chunk preserves well-formedness.
proof fn lemma_write_chunk_inv(m: FsModel, ino: u64, offset: u64, b: Seq<u8>)
    requires
        model_inv(m),
        m.data.contains_key(ino),
        m.data[ino].len() <= usize::MAX,
        offset + b.len() <= usize::MAX,
    ensures
        model_inv(spec_write_chunk(m, ino, offset, b)),
{
    let m2 = spec_write_chunk(m, ino, offset, b);
    assert(m.entries.contains_key(ino));
    assert(m.entries[ino].kind == EntryType::File);
    let nd = spec_write_data(m.data[ino], offset as int, b);
    assert(nd.len() <= usize::MAX);
    assert(forall|c: u64|
        #[trigger] m.entries.contains_key(c) && c != ino ==> m2.entries[c] == m.entries[c]);
    assert(forall|c: u64|
        #[trigger] m.entries.contains_key(c) ==> m2.entries[c].name == m.entries[c].name
            && m2.entries[c].kind == m.entries[c].kind && m2.entries[c].ino == m.entries[c].ino);
    assert(inv_keyed(m2));
    assert(inv_dirs(m2));
    assert(inv_files(m2));
    assert(inv_children_exist(m2));
    assert(inv_names(m2));
    assert(inv_once(m2));
    assert(inv_no_self(m2));
    assert(inv_fresh(m2));
    assert(inv_clock(m2));
}

/// Renaming preserves well-formedness.
proof fn lemma_rename_inv(m: FsModel, p1: u64, old_name: Seq<char>, p2: u64, new_name: Seq<char>)
    requires
        model_inv(m),
        has_child_named(m, p1, old_name),
        m.children.contains_key(p2),
        !has_child_named(m, p2, new_name),
        m.children[p1][child_index_named(m, p1, old_name)] != p2,
    ensures
        model_inv(spec_rename(m, p1, old_name, p2, new_name)),
{
    lemma_child_index(m, p1, old_name);
    let m2 = spec_rename(m, p1, old_name, p2, new_name);
    let now = spec_next_clock(m);
    let j1 = child_index_named(m, p1, old_name);
    let ino = m.children[p1][j1];
    let cs1 = m.children[p1].remove(j1);
    let c1 = m.children.insert(p1, cs1);
    assert(forall|k: int| 0 <= k < j1 ==> cs1[k] == m.children[p1][k]);
    assert(forall|k: int|
        j1 <= k < cs1.len() ==> cs1[k] == m.children[p1][k + 1] && 0 <= k + 1 < m.children[p1].len());
    assert forall|k: int| 0 <= k < cs1.len() implies #[trigger] cs1[k] != ino by {
        if k < j1 {
            assert(m.children[p1][k] != m.children[p1][j1]);
        } else {
            assert(m.children[p1][k + 1] != m.children[p1][j1]);
        }
    }
    assert forall|d: u64, k: int|
        c1.contains_key(d) && 0 <= k < c1[d].len() implies #[trigger] c1[d][k] != ino by {
        if d == p1 {
        } else {
            assert(m.children[d][k] != m.children[p1][j1]);
        }
    }
    let cs2 = c1[p2].push(ino);
    assert(m2.children == c1.insert(p2, cs2));
    assert(forall|k: int| 0 <= k < c1[p2].len() ==> cs2[k] == c1[p2][k]);
    assert(cs2[c1[p2].len() as int] == ino);
    // entry views: only the two parents and the moved entry change, and
    // never in name or kind except the moved entry's name
    assert(m.entries.contains_key(p1) && m.entries.contains_key(p2) && m.entries.contains_key(ino));
    assert(ino != p1 && ino != p2);
    assert(forall|c: u64|
        #[trigger] m.entries.contains_key(c) ==> m2.entries.contains_key(c)
            && m2.entries[c].kind == m.entries[c].kind && m2.entries[c].ino == m.entries[c].ino
            && m2.entries[c].size == m.entries[c].size);
    assert(forall|c: u64|
        #[trigger] m.entries.contains_key(c) && c != ino ==> m2.entries[c].name
            == m.entries[c].name);
    assert(m2.entries[ino].name == new_name);
    // the p2 list before the push never carries the new name
    assert forall|k: int| 0 <= k < c1[p2].len() implies m2.entries[#[trigger] c1[p2][k]].name
        != new_name by {
        if p2 == p1 {
            if k < j1 {
                assert(m.entries[m.children[p1][k]].name != new_name);
            } else {
                assert(m.entries[m.children[p1][k + 1]].name != new_name);
            }
        } else {
            assert(m.entries[m.children[p2][k]].name != new_name);
        }
    }
    assert(inv_keyed(m2));
    assert(inv_dirs(m2));
    assert(inv_files(m2));
    assert(inv_children_exist(m2));
    assert(inv_names(m2));
    assert(inv_once(m2));
    assert(inv_no_self(m2));
    assert(inv_fresh(m2));
    assert(inv_clock(m2));
}

/// Length and bytes of a written file, index by index.
proof fn lemma_write_data_char(c: Seq<u8>, off: int, b: Seq<u8>)
    requires
        0 <= off,
    ensures
        spec_write_data(c, off, b).len() == if c.len() >= off + b.len() {
            c.len() as int
        } else {
            off + b.len()
        },
        forall|k: int|
            0 <= k < spec_write_data(c, off, b).len() ==> spec_write_data(c, off, b)[k] == (if k
                < off {
                if k < c.len() {
                    c[k]
                } else {
                    0u8
                }
            } else if k < off + b.len() {
                b[k - off]
            } else {
                c[k]
            }),
{
}

/// An attribute change preserves well-formedness.
proof fn lemma_set_attr_inv(m: FsModel, ino: u64, attrs: SetAttrRequest)
    requires
        model_inv(m),
        m.entries.contains_key(ino),
        attrs.size is Some ==> m.entries[ino].kind == EntryType::File && attrs.size->0
            <= usize::MAX,
    ensures
        model_inv(spec_set_attr(m, ino, attrs)),
{
    let m2 = spec_set_attr(m, ino, attrs);
    assert(forall|c: u64|
        #[trigger] m.entries.contains_key(c) && c != ino ==> m2.entries[c] == m.entries[c]);
    assert(forall|c: u64|
        #[trigger] m.entries.contains_key(c) ==> m2.entries[c].name == m.entries[c].name
            && m2.entries[c].kind == m.entries[c].kind && m2.entries[c].ino == m.entries[c].ino);
    assert(forall|p: u32| (p & 0x1ffu32) <= 0x1ff) by (bit_vector);
    assert(inv_keyed(m2));
    assert(inv_dirs(m2));
    assert(inv_files(m2));
    assert(inv_children_exist(m2));
    assert(inv_names(m2));
    assert(inv_once(m2));
    assert(inv_no_self(m2));
    assert(inv_fresh(m2));
    assert(inv_clock(m2));
}


/// Total size in bytes that the sample backend reports for its volume.
pub const STUB_TOTAL_BYTES: u64 = 1099511627776;

/// Free size in bytes that the sample backend reports for its volume.
pub const STUB_FREE_BYTES: u64 = 549755813888;

impl RemoteBackend for StubBackend {
    open spec fn ok(&self) -> bool {
        self.inv()
    }

    fn list_dir(&mut self, ino: u64) -> (r: Result<Vec<FileEntry>, BackendError>)
        ensures
            *final(self) == *old(self),
            match r {
                Ok(v) => old(self).model().children.contains_key(ino) && v@.len() == old(self).model().children[ino].len() && (forall|j: int|
                    0 <= j < v@.len() ==> v@[j]@ == old(self).model().entries[old(self).model().children[ino][j]]),
                Err(be) => be is NotFound && !old(self).model().children.contains_key(ino),
            },
    {
        match self.children.get(&ino) {
            Some(cs) => {
                let mut out: Vec<FileEntry> = Vec::new();
                let mut j: usize = 0;
                while j < cs.len()
                    invariant
                        self.inv(),
                        self.model().children.contains_key(ino),
                        cs@ == self.model().children[ino],
                        j <= cs@.len(),
                        out@.len() == j,
                        forall|t: int| 0 <= t < j ==> out@[t]@ == self.model().entries[cs@[t]],
                    decreases cs@.len() - j,
                {
                    let child = cs[j];
                    proof {
                        assert(self.model().entries.contains_key(
                            self.model().children[ino][j as int],
                        ));
                    }
                    let e = self.entries.get(&child).unwrap();
                    out.push(e.clone());
                    j = j + 1;
                }
                Ok(out)
            },
            None => Err(mk_not_found("directory not found")),
        }
    }

    fn get_attr(&mut self, ino: u64) -> (r: Result<FileEntry, BackendError>)
        ensures
            *final(self) == *old(self),
            match r {
                Ok(e) => old(self).model().entries.contains_key(ino) && e@ == old(self).model().entries[ino],
                Err(be) => be is NotFound && !old(self).model().entries.contains_key(ino),
            },
    {
        match self.entries.get(&ino) {
            Some(e) => {
                proof {
                    assert(self.model().entries.contains_key(ino));
                }
                Ok(e.clone())
            },
            None => Err(mk_not_found("entry not found")),
        }
    }

    fn get_attr_if_modified_since(&mut self, ino: u64, since: u64) -> (r: Result<
        Option<FileEntry>,
        BackendError,
    >)
        ensures
            *final(self) == *old(self),
            match r {
                Ok(Some(e)) => old(self).model().entries.contains_key(ino) && e@ == old(self).model().entries[ino] && e@.mtime > since,
                Ok(None) => old(self).model().entries.contains_key(ino) && old(self).model().entries[ino].mtime <= since,
                Err(be) => be is NotFound && !old(self).model().entries.contains_key(ino),
            },
    {
        match self.entries.get(&ino) {
            Some(e) => {
                proof {
                    assert(self.model().entries.contains_key(ino));
                }
                if e.mtime > since {
                    Ok(Some(e.clone()))
                } else {
                    Ok(None)
                }
            },
            None => Err(mk_not_found("entry not found")),
        }
    }

    fn lookup(&mut self, parent_ino: u64, name: &str) -> (r: Result<FileEntry, BackendError>)
        ensures
            *final(self) == *old(self),
            match r {
                Ok(e) => spec_lookup(old(self).model(), parent_ino, name@) == Some(e@),
                Err(be) => be is NotFound && spec_lookup(old(self).model(), parent_ino, name@)
                    is None,
            },
    {
        if !self.children.contains_key(&parent_ino) {
            return Err(mk_not_found("parent directory not found"));
        }
        proof {
            assert(self.model().children.contains_key(parent_ino));
        }
        match self.find_child_index(parent_ino, name) {
            Some(j) => {
                let cs = self.children.get(&parent_ino).unwrap();
                let child = cs[j];
                proof {
                    assert(self.model().entries.contains_key(
                        self.model().children[parent_ino][j as int],
                    ));
                }
                let e = self.entries.get(&child).unwrap().clone();
                proof {
                    lemma_child_index(self.model(), parent_ino, name@);
                    assert(j == child_index_named(self.model(), parent_ino, name@));
                }
                Ok(e)
            },
            None => Err(mk_not_found("no entry with that name")),
        }
    }

    fn create_file(&mut self, parent_ino: u64, name: &str) -> (r: Result<FileEntry, BackendError>)
        ensures
            match r {
                Ok(e) => old(self).model().children.contains_key(parent_ino) && !has_child_named(
                    old(self).model(),
                    parent_ino,
                    name@,
                ) && old(self).can_alloc() && e@ == new_file_view(
                    old(self).model(),
                    parent_ino,
                    name@,
                ) && final(self).model() == spec_create_file(old(self).model(), parent_ino, name@),
                Err(be) => *final(self) == *old(self) && (match be {
                    BackendError::NotFound(_) => !old(self).model().children.contains_key(
                        parent_ino,
                    ),
                    BackendError::Conflict(_) => old(self).model().children.contains_key(parent_ino)
                        && has_child_named(old(self).model(), parent_ino, name@),
                    BackendError::Other(_) => old(self).model().children.contains_key(parent_ino)
                        && !has_child_named(old(self).model(), parent_ino, name@) && !old(self).can_alloc(),
                    _ => false,
                }),
            },
    {
        if !self.children.contains_key(&parent_ino) {
            return Err(mk_not_found("parent directory not found"));
        }
        proof {
            assert(self.model().children.contains_key(parent_ino));
            assert(self.model().entries.contains_key(parent_ino));
        }
        if self.find_child_index(parent_ino, name).is_some() {
            return Err(mk_conflict("an entry with that name exists"));
        }
        if self.next_ino == u64::MAX {
            return Err(mk_other("inode numbers exhausted"));
        }
        let path = self.join_child_path(parent_ino, name);
        let now = self.stamp();
        let ino = self.allocate_ino();
        let mut pe = self.entries.get(&parent_ino).unwrap().clone();
        pe.mtime = now;
        self.entries.insert(parent_ino, pe);
        let mut name_s = String::new();
        push_str(&mut name_s, name);
        let e = FileEntry {
            ino,
            name: name_s,
            path,
            kind: EntryType::File,
            size: 0,
            perms: 0o644,
            uid: 0,
            gid: 0,
            atime: now,
            mtime: now,
            ctime: now,
            btime: now,
            nlinks: 1,
        };
        let ret = e.clone();
        self.entries.insert(ino, e);
        let mut cs = self.children.get(&parent_ino).unwrap().clone();
        cs.push(ino);
        self.children.insert(parent_ino, cs);
        self.data.insert(ino, Vec::new());
        proof {
            let m0 = old(self).model();
            lemma_create_file_inv(m0, parent_ino, name@);
            assert(self.model().entries =~= spec_create_file(m0, parent_ino, name@).entries);
            assert(self.model().children =~= spec_create_file(m0, parent_ino, name@).children);
            assert(self.model().data =~= spec_create_file(m0, parent_ino, name@).data);
            assert(self.model() == spec_create_file(m0, parent_ino, name@));
        }
        Ok(ret)
    }

    fn create_dir(&mut self, parent_ino: u64, name: &str) -> (r: Result<FileEntry, BackendError>)
        ensures
            match r {
                Ok(e) => old(self).model().children.contains_key(parent_ino) && !has_child_named(
                    old(self).model(),
                    parent_ino,
                    name@,
                ) && old(self).can_alloc() && e@ == new_dir_view(
                    old(self).model(),
                    parent_ino,
                    name@,
                ) && final(self).model() == spec_create_dir(old(self).model(), parent_ino, name@),
                Err(be) => *final(self) == *old(self) && (match be {
                    BackendError::NotFound(_) => !old(self).model().children.contains_key(
                        parent_ino,
                    ),
                    BackendError::Conflict(_) => old(self).model().children.contains_key(parent_ino)
                        && has_child_named(old(self).model(), parent_ino, name@),
                    BackendError::Other(_) => old(self).model().children.contains_key(parent_ino)
                        && !has_child_named(old(self).model(), parent_ino, name@) && !old(self).can_alloc(),
                    _ => false,
                }),
            },
    {
        if !self.children.contains_key(&parent_ino) {
            return Err(mk_not_found("parent directory not found"));
        }
        proof {
            assert(self.model().children.contains_key(parent_ino));
            assert(self.model().entries.contains_key(parent_ino));
        }
        if self.find_child_index(parent_ino, name).is_some() {
            return Err(mk_conflict("an entry with that name exists"));
        }
        if self.next_ino == u64::MAX {
            return Err(mk_other("inode numbers exhausted"));
        }
        let path = self.join_child_path(parent_ino, name);
        let now = self.stamp();
        let ino = self.allocate_ino();
        let mut pe = self.entries.get(&parent_ino).unwrap().clone();
        pe.mtime = now;
        self.entries.insert(parent_ino, pe);
        let mut name_s = String::new();
        push_str(&mut name_s, name);
        let e = FileEntry {
            ino,
            name: name_s,
            path,
            kind: EntryType::Directory,
            size: 0,
            perms: 0o755,
            uid: 0,
            gid: 0,
            atime: now,
            mtime: now,
            ctime: now,
            btime: now,
            nlinks: 2,
        };
        let ret = e.clone();
        self.entries.insert(ino, e);
        let mut cs = self.children.get(&parent_ino).unwrap().clone();
        cs.push(ino);
        self.children.insert(parent_ino, cs);
        self.children.insert(ino, Vec::new());
        proof {
            let m0 = old(self).model();
            lemma_create_dir_inv(m0, parent_ino, name@);
            assert(self.model().entries =~= spec_create_dir(m0, parent_ino, name@).entries);
            assert(self.model().children =~= spec_create_dir(m0, parent_ino, name@).children);
            assert(self.model().data =~= spec_create_dir(m0, parent_ino, name@).data);
            assert(self.model() == spec_create_dir(m0, parent_ino, name@));
        }
        Ok(ret)
    }

    fn delete_file(&mut self, parent_ino: u64, name: &str) -> (r: Result<(), BackendError>)
        ensures
            match r {
                Ok(_) => file_child_exists(old(self).model(), parent_ino, name@) && final(self).model() == spec_delete_file(old(self).model(), parent_ino, name@),
                Err(be) => *final(self) == *old(self) && be is NotFound && !file_child_exists(
                    old(self).model(),
                    parent_ino,
                    name@,
                ),
            },
    {
        if !self.children.contains_key(&parent_ino) {
            return Err(mk_not_found("parent directory not found"));
        }
        proof {
            assert(self.model().children.contains_key(parent_ino));
            assert(self.model().entries.contains_key(parent_ino));
        }
        let jopt = self.find_child_index(parent_ino, name);
        if jopt.is_none() {
            return Err(mk_not_found("no entry with that name"));
        }
        let j = jopt.unwrap();
        proof {
            lemma_child_index(self.model(), parent_ino, name@);
            assert(j == child_index_named(self.model(), parent_ino, name@));
        }
        let ino = self.children.get(&parent_ino).unwrap()[j];
        proof {
            assert(self.model().entries.contains_key(
                self.model().children[parent_ino][j as int],
            ));
        }
        let kind_is_file = self.entries.get(&ino).unwrap().kind == EntryType::File;
        if !kind_is_file {
            return Err(mk_not_found("not a file"));
        }
        let now = self.stamp();
        let mut pe = self.entries.get(&parent_ino).unwrap().clone();
        pe.mtime = now;
        self.entries.insert(parent_ino, pe);
        self.entries.remove(&ino);
        let mut cs = self.children.get(&parent_ino).unwrap().clone();
        cs.remove(j);
        self.children.insert(parent_ino, cs);
        self.data.remove(&ino);
        proof {
            let m0 = old(self).model();
            lemma_delete_file_inv(m0, parent_ino, name@);
            assert(self.model().entries =~= spec_delete_file(m0, parent_ino, name@).entries);
            assert(self.model().children =~= spec_delete_file(m0, parent_ino, name@).children);
            assert(self.model().data =~= spec_delete_file(m0, parent_ino, name@).data);
            assert(self.model() == spec_delete_file(m0, parent_ino, name@));
        }
        Ok(())
    }

    fn delete_dir(&mut self, parent_ino: u64, name: &str) -> (r: Result<(), BackendError>)
        ensures
            match r {
                Ok(_) => dir_child_exists(old(self).model(), parent_ino, name@) && old(self).model().children[old(self).model().children[parent_ino][child_index_named(
                    old(self).model(),
                    parent_ino,
                    name@,
                )]].len() == 0 && final(self).model() == spec_delete_dir(
                    old(self).model(),
                    parent_ino,
                    name@,
                ),
                Err(be) => *final(self) == *old(self) && (match be {
                    BackendError::NotFound(_) => !dir_child_exists(
                        old(self).model(),
                        parent_ino,
                        name@,
                    ),
                    BackendError::Conflict(_) => dir_child_exists(old(self).model(), parent_ino, name@)
                        && old(self).model().children[old(self).model().children[parent_ino][
                        child_index_named(old(self).model(), parent_ino, name@)
                    ]].len() != 0,
                    _ => false,
                }),
            },
    {
        if !self.children.contains_key(&parent_ino) {
            return Err(mk_not_found("parent directory not found"));
        }
        proof {
            assert(self.model().children.contains_key(parent_ino));
            assert(self.model().entries.contains_key(parent_ino));
        }
        let jopt = self.find_child_index(parent_ino, name);
        if jopt.is_none() {
            return Err(mk_not_found("no entry with that name"));
        }
        let j = jopt.unwrap();
        proof {
            lemma_child_index(self.model(), parent_ino, name@);
            assert(j == child_index_named(self.model(), parent_ino, name@));
        }
        let ino = self.children.get(&parent_ino).unwrap()[j];
        proof {
            assert(self.model().entries.contains_key(
                self.model().children[parent_ino][j as int],
            ));
        }
        let kind_is_dir = self.entries.get(&ino).unwrap().kind == EntryType::Directory;
        if !kind_is_dir {
            return Err(mk_not_found("not a directory"));
        }
        proof {
            assert(self.model().children.contains_key(ino));
        }
        let is_empty = self.children.get(&ino).unwrap().is_empty();
        if !is_empty {
            return Err(mk_conflict("directory not empty"));
        }
        let now = self.stamp();
        let mut pe = self.entries.get(&parent_ino).unwrap().clone();
        pe.mtime = now;
        self.entries.insert(parent_ino, pe);
        self.entries.remove(&ino);
        let mut cs = self.children.get(&parent_ino).unwrap().clone();
        cs.remove(j);
        self.children.insert(parent_ino, cs);
        self.children.remove(&ino);
        proof {
            let m0 = old(self).model();
            lemma_delete_dir_inv(m0, parent_ino, name@);
            assert(self.model().entries =~= spec_delete_dir(m0, parent_ino, name@).entries);
            assert(self.model().children =~= spec_delete_dir(m0, parent_ino, name@).children);
            assert(self.model().data =~= spec_delete_dir(m0, parent_ino, name@).data);
            assert(self.model() == spec_delete_dir(m0, parent_ino, name@));
        }
        Ok(())
    }

    fn read_chunk(&mut self, ino: u64, offset: u64, size: u64) -> (r: Result<
        Vec<u8>,
        BackendError,
    >)
        ensures
            *final(self) == *old(self),
            match r {
                Ok(b) => old(self).model().data.contains_key(ino) && b@ == spec_read_result(
                    old(self).model().data[ino],
                    offset,
                    size,
                ),
                Err(be) => be is NotFound && !old(self).model().data.contains_key(ino),
            },
    {
        match self.data.get(&ino) {
            Some(content) => {
                let clen: usize = content.len();
                if offset >= clen as u64 {
                    let out: Vec<u8> = Vec::new();
                    proof {
                        assert(out@ =~= spec_read_result(self.model().data[ino], offset, size));
                    }
                    Ok(out)
                } else {
                    let off: usize = offset as usize;
                    let remaining: u64 = clen as u64 - offset;
                    let take: u64 = if size < remaining {
                        size
                    } else {
                        remaining
                    };
                    let take_us: usize = take as usize;
                    let mut out: Vec<u8> = Vec::new();
                    let mut i: usize = 0;
                    while i < take_us
                        invariant
                            off + take_us <= clen,
                            clen == content@.len(),
                            i <= take_us,
                            out@.len() == i,
                            forall|k: int| 0 <= k < i ==> out@[k] == content@[off + k],
                        decreases take_us - i,
                    {
                        out.push(content[off + i]);
                        i = i + 1;
                    }
                    proof {
                        assert(out@ =~= spec_read_result(self.model().data[ino], offset, size));
                    }
                    Ok(out)
                }
            },
            None => Err(mk_not_found("file not found")),
        }
    }

    fn write_chunk(&mut self, ino: u64, offset: u64, data: Vec<u8>) -> (r: Result<
        u64,
        BackendError,
    >)
        ensures
            match r {
                Ok(n) => old(self).model().data.contains_key(ino) && offset + data@.len()
                    <= usize::MAX && n == data@.len() && final(self).model() == spec_write_chunk(
                    old(self).model(),
                    ino,
                    offset,
                    data@,
                ),
                Err(be) => *final(self) == *old(self) && (match be {
                    BackendError::NotFound(_) => !old(self).model().data.contains_key(ino),
                    BackendError::Other(_) => old(self).model().data.contains_key(ino) && offset
                        + data@.len() > usize::MAX,
                    _ => false,
                }),
            },
    {
        if !self.data.contains_key(&ino) {
            return Err(mk_not_found("file not found"));
        }
        proof {
            assert(self.model().data.contains_key(ino));
            assert(self.model().entries.contains_key(ino));
        }
        let dlen_us: usize = data.len();
        if offset > usize::MAX as u64 - dlen_us as u64 {
            return Err(mk_other("write beyond addressable size"));
        }
        let off: usize = offset as usize;
        let content = self.data.get(&ino).unwrap();
        let clen: usize = content.len();
        let end_w: usize = off + dlen_us;
        let new_len: usize = if clen >= end_w {
            clen
        } else {
            end_w
        };
        proof {
            lemma_write_data_char(content@, off as int, data@);
        }
        let ghost expected = spec_write_data(content@, off as int, data@);
        let mut nd: Vec<u8> = Vec::new();
        let mut i: usize = 0;
        while i < new_len
            invariant
                off == offset,
                dlen_us == data@.len(),
                end_w == off + dlen_us,
                clen == content@.len(),
                new_len == if clen >= end_w {
                    clen as int
                } else {
                    end_w as int
                },
                expected == spec_write_data(content@, off as int, data@),
                expected.len() == new_len,
                forall|k: int|
                    0 <= k < expected.len() ==> expected[k] == (if k < off {
                        if k < content@.len() {
                            content@[k]
                        } else {
                            0u8
                        }
                    } else if k < off + data@.len() {
                        data@[k - off]
                    } else {
                        content@[k]
                    }),
                i <= new_len,
                nd@.len() == i,
                forall|k: int| 0 <= k < i ==> nd@[k] == expected[k],
            decreases new_len - i,
        {
            let byte: u8 = if i < off {
                if i < clen {
                    content[i]
                } else {
                    0
                }
            } else if i < end_w {
                data[i - off]
            } else {
                content[i]
            };
            nd.push(byte);
            i = i + 1;
        }
        proof {
            assert(nd@ =~= expected);
        }
        let now = self.stamp();
        let mut e = self.entries.get(&ino).unwrap().clone();
        e.size = new_len as u64;
        e.mtime = now;
        self.entries.insert(ino, e);
        self.data.insert(ino, nd);
        proof {
            let m0 = old(self).model();
            lemma_write_chunk_inv(m0, ino, offset, data@);
            assert(self.model().entries =~= spec_write_chunk(m0, ino, offset, data@).entries);
            assert(self.model().children =~= spec_write_chunk(m0, ino, offset, data@).children);
            assert(self.model().data =~= spec_write_chunk(m0, ino, offset, data@).data);
            assert(self.model() == spec_write_chunk(m0, ino, offset, data@));
        }
        Ok(dlen_us as u64)
    }

    fn write_stream(&mut self, ino: u64, offset: u64, data: Vec<u8>) -> (r: Result<
        (),
        BackendError,
    >)
        ensures
            match r {
                Ok(_) => old(self).model().data.contains_key(ino) && offset + data@.len()
                    <= usize::MAX && final(self).model() == spec_write_chunk(
                    old(self).model(),
                    ino,
                    offset,
                    data@,
                ),
                Err(be) => *final(self) == *old(self) && (match be {
                    BackendError::NotFound(_) => !old(self).model().data.contains_key(ino),
                    BackendError::Other(_) => old(self).model().data.contains_key(ino) && offset
                        + data@.len() > usize::MAX,
                    _ => false,
                }),
            },
    {
        match self.write_chunk(ino, offset, data) {
            Ok(_) => Ok(()),
            Err(e) => Err(e),
        }
    }

    fn rename(
        &mut self,
        old_parent_ino: u64,
        old_name: &str,
        new_parent_ino: u64,
        new_name: &str,
    ) -> (r: Result<FileEntry, BackendError>)
        ensures
            match r {
                Ok(e) => old(self).model().children.contains_key(old_parent_ino)
                    && has_child_named(old(self).model(), old_parent_ino, old_name@) && old(self).model().children.contains_key(new_parent_ino) && !has_child_named(
                    old(self).model(),
                    new_parent_ino,
                    new_name@,
                ) && e@ == spec_renamed_view(
                    old(self).model(),
                    new_parent_ino,
                    old(self).model().children[old_parent_ino][child_index_named(
                        old(self).model(),
                        old_parent_ino,
                        old_name@,
                    )],
                    new_name@,
                ) && old(self).model().children[old_parent_ino][child_index_named(
                    old(self).model(),
                    old_parent_ino,
                    old_name@,
                )] != new_parent_ino && final(self).model() == spec_rename(
                    old(self).model(),
                    old_parent_ino,
                    old_name@,
                    new_parent_ino,
                    new_name@,
                ),
                Err(be) => *final(self) == *old(self) && (match be {
                    BackendError::NotFound(_) => !old(self).model().children.contains_key(
                        old_parent_ino,
                    ) || !has_child_named(old(self).model(), old_parent_ino, old_name@) || !old(self).model().children.contains_key(new_parent_ino),
                    BackendError::Conflict(_) => has_child_named(
                        old(self).model(),
                        new_parent_ino,
                        new_name@,
                    ),
                    BackendError::Other(_) => old(self).model().children[old_parent_ino][
                        child_index_named(old(self).model(), old_parent_ino, old_name@)
                    ] == new_parent_ino,
                    _ => false,
                }),
            },
    {
        if !self.children.contains_key(&old_parent_ino) {
            return Err(mk_not_found("source directory not found"));
        }
        proof {
            assert(self.model().children.contains_key(old_parent_ino));
            assert(self.model().entries.contains_key(old_parent_ino));
        }
        let jopt = self.find_child_index(old_parent_ino, old_name);
        if jopt.is_none() {
            return Err(mk_not_found("no entry with that name"));
        }
        let j = jopt.unwrap();
        proof {
            lemma_child_index(self.model(), old_parent_ino, old_name@);
            assert(j == child_index_named(self.model(), old_parent_ino, old_name@));
        }
        if !self.children.contains_key(&new_parent_ino) {
            return Err(mk_not_found("destination directory not found"));
        }
        proof {
            assert(self.model().children.contains_key(new_parent_ino));
            assert(self.model().entries.contains_key(new_parent_ino));
        }
        if self.find_child_index(new_parent_ino, new_name).is_some() {
            return Err(mk_conflict("an entry with that name exists"));
        }
        let ino = self.children.get(&old_parent_ino).unwrap()[j];
        proof {
            assert(self.model().entries.contains_key(
                self.model().children[old_parent_ino][j as int],
            ));
        }
        if ino == new_parent_ino {
            return Err(mk_other("destination lies inside the moved entry"));
        }
        let path = self.join_child_path(new_parent_ino, new_name);
        let now = self.stamp();
        let mut pe1 = self.entries.get(&old_parent_ino).unwrap().clone();
        pe1.mtime = now;
        self.entries.insert(old_parent_ino, pe1);
        let mut pe2 = self.entries.get(&new_parent_ino).unwrap().clone();
        pe2.mtime = now;
        self.entries.insert(new_parent_ino, pe2);
        let mut me = self.entries.get(&ino).unwrap().clone();
        let mut new_name_s = String::new();
        push_str(&mut new_name_s, new_name);
        me.name = new_name_s;
        me.path = path;
        me.ctime = now;
        let ret = me.clone();
        self.entries.insert(ino, me);
        let mut c1 = self.children.get(&old_parent_ino).unwrap().clone();
        c1.remove(j);
        self.children.insert(old_parent_ino, c1);
        let mut c2 = self.children.get(&new_parent_ino).unwrap().clone();
        c2.push(ino);
        self.children.insert(new_parent_ino, c2);
        proof {
            let m0 = old(self).model();
            lemma_rename_inv(m0, old_parent_ino, old_name@, new_parent_ino, new_name@);
            assert(self.model().entries =~= spec_rename(
                m0,
                old_parent_ino,
                old_name@,
                new_parent_ino,
                new_name@,
            ).entries);
            assert(self.model().children =~= spec_rename(
                m0,
                old_parent_ino,
                old_name@,
                new_parent_ino,
                new_name@,
            ).children);
            assert(self.model().data =~= spec_rename(
                m0,
                old_parent_ino,
                old_name@,
                new_parent_ino,
                new_name@,
            ).data);
            assert(self.model() == spec_rename(
                m0,
                old_parent_ino,
                old_name@,
                new_parent_ino,
                new_name@,
            ));
        }
        Ok(ret)
    }

    fn set_attr(&mut self, ino: u64, attrs: SetAttrRequest) -> (r: Result<FileEntry, BackendError>)
        ensures
            match r {
                Ok(e) => old(self).model().entries.contains_key(ino) && (attrs.size is Some
                    ==> old(self).model().entries[ino].kind == EntryType::File && attrs.size->0
                    <= usize::MAX) && e@ == spec_set_attr_view(
                    old(self).model().entries[ino],
                    attrs,
                    spec_next_clock(old(self).model()),
                ) && final(self).model() == spec_set_attr(old(self).model(), ino, attrs),
                Err(be) => *final(self) == *old(self) && (match be {
                    BackendError::NotFound(_) => !old(self).model().entries.contains_key(ino),
                    BackendError::Other(_) => old(self).model().entries.contains_key(ino)
                        && attrs.size is Some && (old(self).model().entries[ino].kind
                        != EntryType::File || attrs.size->0 > usize::MAX),
                    _ => false,
                }),
            },
    {
        if !self.entries.contains_key(&ino) {
            return Err(mk_not_found("entry not found"));
        }
        proof {
            assert(self.model().entries.contains_key(ino));
        }
        if attrs.size.is_some() {
            let kind_is_file = self.entries.get(&ino).unwrap().kind == EntryType::File;
            if !kind_is_file {
                return Err(mk_other("size change on a non-file"));
            }
            let s0 = attrs.size.unwrap();
            if s0 > usize::MAX as u64 {
                return Err(mk_other("size beyond addressable range"));
            }
        }
        let now = self.stamp();
        let mut e = self.entries.get(&ino).unwrap().clone();
        if let Some(p) = attrs.perm {
            proof {
                assert(forall|q: u32| (q & 0x1ffu32) <= 0x1ff) by (bit_vector);
            }
            e.perms = (p & 0x1ff) as u16;
        }
        if let Some(u) = attrs.uid {
            e.uid = u;
        }
        if let Some(g) = attrs.gid {
            e.gid = g;
        }
        e.ctime = now;
        match attrs.size {
            Some(s) => {
                e.size = s;
                e.mtime = now;
                let s_us: usize = s as usize;
                proof {
                    assert(self.model().data.contains_key(ino));
                }
                let content = self.data.get(&ino).unwrap();
                let clen: usize = content.len();
                let mut nd: Vec<u8> = Vec::new();
                let mut i: usize = 0;
                while i < s_us
                    invariant
                        clen == content@.len(),
                        i <= s_us,
                        nd@.len() == i,
                        forall|k: int|
                            0 <= k < i ==> nd@[k] == (if k < clen {
                                content@[k]
                            } else {
                                0u8
                            }),
                    decreases s_us - i,
                {
                    let byte: u8 = if i < clen {
                        content[i]
                    } else {
                        0
                    };
                    nd.push(byte);
                    i = i + 1;
                }
                proof {
                    assert(nd@ =~= spec_resize_data(content@, s));
                }
                self.data.insert(ino, nd);
            },
            None => {},
        }
        let ret = e.clone();
        self.entries.insert(ino, e);
        proof {
            let m0 = old(self).model();
            lemma_set_attr_inv(m0, ino, attrs);
            assert(self.model().entries =~= spec_set_attr(m0, ino, attrs).entries);
            assert(self.model().children =~= spec_set_attr(m0, ino, attrs).children);
            assert(self.model().data =~= spec_set_attr(m0, ino, attrs).data);
            assert(self.model() == spec_set_attr(m0, ino, attrs));
        }
        Ok(ret)
    }

    fn link(&mut self, target_ino: u64, link_parent_ino: u64, link_name: &str) -> (r: Result<
        FileEntry,
        BackendError,
    >)
        ensures
            *final(self) == *old(self),
            r is Err,
    {
        Err(mk_other("hard links are not supported here"))
    }

    fn symlink(&mut self, target_path: &str, link_parent_ino: u64, link_name: &str) -> (r: Result<
        FileEntry,
        BackendError,
    >)
        ensures
            *final(self) == *old(self),
            r is Err,
    {
        Err(mk_other("symbolic links are not supported here"))
    }

    fn readlink(&mut self, ino: u64) -> (r: Result<String, BackendError>)
        ensures
            *final(self) == *old(self),
            r is Err,
    {
        Err(mk_other("symbolic links are not supported here"))
    }

    fn get_size(&mut self) -> (r: Result<(u64, u64), BackendError>)
        ensures
            *final(self) == *old(self),
            match r {
                Ok(p) => p.0 == STUB_TOTAL_BYTES && p.1 == STUB_FREE_BYTES,
                Err(_) => false,
            },
    {
        Ok((STUB_TOTAL_BYTES, STUB_FREE_BYTES))
    }
}


/// After creating a file, the new inode's attributes are exactly the
/// created entry, so a create followed by an attribute fetch returns
/// what the create returned.
pub proof fn lemma_create_then_get_attr(m: FsModel, parent: u64, name: Seq<char>)
    requires
        model_inv(m),
        m.children.contains_key(parent),
        !has_child_named(m, parent, name),
        m.next_ino < u64::MAX,
    ensures
        spec_create_file(m, parent, name).entries.contains_key(new_file_view(m, parent, name).ino),
        spec_create_file(m, parent, name).entries[new_file_view(m, parent, name).ino]
            == new_file_view(m, parent, name),
{
    lemma_fresh_ino(m);
}

/// After creating a file, the parent's listing carries the new entry
/// under its name.
pub proof fn lemma_create_reflected(m: FsModel, parent: u64, name: Seq<char>)
    requires
        model_inv(m),
        m.children.contains_key(parent),
        !has_child_named(m, parent, name),
        m.next_ino < u64::MAX,
    ensures
        has_child_named(spec_create_file(m, parent, name), parent, name),
        child_named(spec_create_file(m, parent, name), parent, name) == new_file_view(
            m,
            parent,
            name,
        ),
{
    lemma_fresh_ino(m);
    lemma_create_file_inv(m, parent, name);
    let m2 = spec_create_file(m, parent, name);
    let f = m.next_ino;
    let oldlen = m.children[parent].len() as int;
    assert(m2.children[parent][oldlen] == f);
    assert(m2.entries[f].name == name);
    assert(has_child_named(m2, parent, name));
    let j = choose|j: int|
        0 <= j < m2.children[parent].len() && m2.entries[m2.children[parent][j]].name == name;
    if j != oldlen {
        assert(m2.entries[m2.children[parent][j]].name == m2.entries[m2.children[parent][
            oldlen
        ]].name);
        assert(false);
    }
}

/// After deleting a file, no child of the parent carries the deleted
/// name any longer.
pub proof fn lemma_delete_reflected(m: FsModel, parent: u64, name: Seq<char>)
    requires
        model_inv(m),
        file_child_exists(m, parent, name),
    ensures
        !has_child_named(spec_delete_file(m, parent, name), parent, name),
{
    lemma_child_index(m, parent, name);
    let m2 = spec_delete_file(m, parent, name);
    let j = child_index_named(m, parent, name);
    let ino = m.children[parent][j];
    let cs2 = m.children[parent].remove(j);
    assert forall|k: int| 0 <= k < cs2.len() implies m2.entries[#[trigger] cs2[k]].name
        != name by {
        if k < j {
            assert(cs2[k] == m.children[parent][k]);
            assert(m.children[parent][k] != m.children[parent][j]);
            assert(m.entries[m.children[parent][k]].name != name);
            assert(cs2[k] != parent && cs2[k] != ino);
        } else {
            assert(cs2[k] == m.children[parent][k + 1]);
            assert(m.children[parent][k + 1] != m.children[parent][j]);
            assert(m.entries[m.children[parent][k + 1]].name != name);
            assert(cs2[k] != parent && cs2[k] != ino);
        }
    }
}

/// After a rename, looking the old name up under the old parent finds
/// nothing, and looking the new name up under the new parent finds the
/// moved entry with its inode unchanged.
pub proof fn lemma_rename_then_lookup(
    m: FsModel,
    p1: u64,
    old_name: Seq<char>,
    p2: u64,
    new_name: Seq<char>,
)
    requires
        model_inv(m),
        has_child_named(m, p1, old_name),
        m.children.contains_key(p2),
        !has_child_named(m, p2, new_name),
        m.children[p1][child_index_named(m, p1, old_name)] != p2,
    ensures
        spec_lookup(spec_rename(m, p1, old_name, p2, new_name), p1, old_name) is None,
        spec_lookup(spec_rename(m, p1, old_name, p2, new_name), p2, new_name) == Some(
            spec_renamed_view(
                m,
                p2,
                m.children[p1][child_index_named(m, p1, old_name)],
                new_name,
            ),
        ),
        spec_renamed_view(m, p2, m.children[p1][child_index_named(m, p1, old_name)], new_name).ino
            == m.children[p1][child_index_named(m, p1, old_name)],
{
    lemma_child_index(m, p1, old_name);
    lemma_rename_inv(m, p1, old_name, p2, new_name);
    let m2 = spec_rename(m, p1, old_name, p2, new_name);
    let j1 = child_index_named(m, p1, old_name);
    let ino = m.children[p1][j1];
    let cs1 = m.children[p1].remove(j1);
    let c1 = m.children.insert(p1, cs1);
    let moved = spec_renamed_view(m, p2, ino, new_name);
    assert(new_name != old_name || p1 != p2);
    // the old name is gone from the old parent
    assert forall|k: int| 0 <= k < m2.children[p1].len() implies m2.entries[#[trigger] m2.children[p1][k]].name != old_name by {
        if p1 == p2 {
            if k < cs1.len() {
                assert(m2.children[p1][k] == cs1[k]);
                if k < j1 {
                    assert(cs1[k] == m.children[p1][k]);
                } else {
                    assert(cs1[k] == m.children[p1][k + 1]);
                }
            } else {
                assert(m2.children[p1][k] == ino);
                assert(m2.entries[ino].name == new_name);
            }
        } else {
            if k < j1 {
                assert(m2.children[p1][k] == m.children[p1][k]);
            } else {
                assert(m2.children[p1][k] == m.children[p1][k + 1]);
            }
        }
    }
    assert(!has_child_named(m2, p1, old_name));
    // the new name is found under the new parent
    let newpos = c1[p2].len() as int;
    assert(m2.children[p2][newpos] == ino);
    assert(m2.entries[ino] == moved);
    assert(has_child_named(m2, p2, new_name));
    let j = choose|j: int|
        0 <= j < m2.children[p2].len() && m2.entries[m2.children[p2][j]].name == new_name;
    if j != newpos {
        assert(m2.entries[m2.children[p2][j]].name == m2.entries[m2.children[p2][newpos]].name);
        assert(false);
    }
    assert(child_named(m2, p2, new_name) == moved);
}

/// Setting the size, then reading the attributes, reports exactly the
/// requested size.
pub proof fn lemma_set_size_then_get_attr(m: FsModel, ino: u64, attrs: SetAttrRequest, s: u64)
    requires
        model_inv(m),
        m.entries.contains_key(ino),
        attrs.size == Some(s),
        m.entries[ino].kind == EntryType::File,
    ensures
        spec_set_attr(m, ino, attrs).entries.contains_key(ino),
        spec_set_attr(m, ino, attrs).entries[ino].size == s,
        spec_set_attr(m, ino, attrs).data[ino].len() == s,
{
}

/// A chunk read entirely past end of file returns empty.
pub proof fn lemma_read_past_eof(content: Seq<u8>, offset: u64, size: u64)
    requires
        offset >= content.len(),
    ensures
        spec_read_result(content, offset, size) == Seq::<u8>::empty(),
{
    assert(spec_read_result(content, offset, size) =~= Seq::<u8>::empty());
}

/// A chunk read straddling end of file returns exactly the bytes that
/// exist between the offset and the end.
pub proof fn lemma_read_straddles_eof(content: Seq<u8>, offset: u64, size: u64)
    requires
        offset <= content.len(),
        offset + size > content.len(),
    ensures
        spec_read_result(content, offset, size) == content.subrange(
            offset as int,
            content.len() as int,
        ),
{
}

/// Bytes just written are the bytes a subsequent chunk read of the same
/// range returns.
pub proof fn lemma_write_then_read(m: FsModel, ino: u64, offset: u64, b: Seq<u8>)
    requires
        model_inv(m),
        m.data.contains_key(ino),
        m.data[ino].len() <= usize::MAX,
        offset + b.len() <= usize::MAX,
        b.len() > 0,
    ensures
        spec_read_result(
            spec_write_chunk(m, ino, offset, b).data[ino],
            offset,
            b.len() as u64,
        ) == b,
{
    lemma_write_data_char(m.data[ino], offset as int, b);
    let nd = spec_write_data(m.data[ino], offset as int, b);
    assert(nd.len() >= offset + b.len());
    assert(spec_read_result(nd, offset, b.len() as u64) =~= b);
}

} // verus!
