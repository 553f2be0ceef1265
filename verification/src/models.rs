use vstd::prelude::*;

use crate::strutil::push_str;

verus! {

/// Size in bytes of one cached file block: a fixed power of two.
pub const BLOCK_SIZE: u64 = 16384;

/// Files larger than this threshold are read through a byte stream
/// instead of paged block reads.
pub const LARGE_FILE_SIZE: u64 = 104857600;

/// Upper bound on the end of any byte range handled in one call: a
/// power of two aligned to the block size, leaving ample headroom below
/// the largest 64-bit value for aligned whole-block fetches.
pub const MAX_IO_END: u64 = 9223372036854775808;

/// The kind of a filesystem entry.
#[derive(Debug, Clone, Copy, PartialEq, Eq, Structural)]
pub enum EntryType {
    File,
    Directory,
    Symlink,
}

/// Mathematical view of a `FileEntry`: the same fields with the strings
/// abstracted to character sequences. Contracts compare entries through
/// this view.
pub struct EntryView {
    pub ino: u64,
    pub name: Seq<char>,
    pub path: Seq<char>,
    pub kind: EntryType,
    pub size: u64,
    pub perms: u16,
    pub uid: u32,
    pub gid: u32,
    pub atime: u64,
    pub mtime: u64,
    pub ctime: u64,
    pub btime: u64,
    pub nlinks: u32,
}

impl EntryView {
    /// Structural invariant from the data model: directories report size
    /// zero and at least two links.
    pub open spec fn wf(self) -> bool {
        self.kind == EntryType::Directory ==> self.size == 0 && self.nlinks >= 2
    }
}

/// Metadata record for one filesystem entry, as the server reports it.
/// Timestamps are milliseconds since the UNIX epoch.
#[derive(Debug, PartialEq)]
pub struct FileEntry {
    /// Server-assigned inode number; stable across renames.
    pub ino: u64,
    /// Name of the entry within its parent directory.
    pub name: String,
    /// Full path of the entry.
    pub path: String,
    /// Whether the entry is a file, directory or symlink.
    pub kind: EntryType,
    /// Size in bytes; zero for directories.
    pub size: u64,
    /// Low nine bits of the POSIX mode.
    pub perms: u16,
    /// Owning user id.
    pub uid: u32,
    /// Owning group id.
    pub gid: u32,
    /// Last access time, milliseconds since the UNIX epoch.
    pub atime: u64,
    /// Last modification time, milliseconds since the UNIX epoch;
    /// the freshness token used for conditional revalidation.
    pub mtime: u64,
    /// Last status change time, milliseconds since the UNIX epoch.
    pub ctime: u64,
    /// Creation time, milliseconds since the UNIX epoch.
    pub btime: u64,
    /// Number of hard links.
    pub nlinks: u32,
}

impl View for FileEntry {
    type V = EntryView;

    open spec fn view(&self) -> EntryView {
        EntryView {
            ino: self.ino,
            name: self.name@,
            path: self.path@,
            kind: self.kind,
            size: self.size,
            perms: self.perms,
            uid: self.uid,
            gid: self.gid,
            atime: self.atime,
            mtime: self.mtime,
            ctime: self.ctime,
            btime: self.btime,
            nlinks: self.nlinks,
        }
    }
}

impl Clone for FileEntry {
    fn clone(&self) -> (res: FileEntry)
        ensures
            res@ == self@,
    {
        FileEntry {
            ino: self.ino,
            name: self.name.clone(),
            path: self.path.clone(),
            kind: self.kind,
            size: self.size,
            perms: self.perms,
            uid: self.uid,
            gid: self.gid,
            atime: self.atime,
            mtime: self.mtime,
            ctime: self.ctime,
            btime: self.btime,
            nlinks: self.nlinks,
        }
    }
}

impl FileEntry {
    /// Structural invariant from the data model: directories report size
    /// zero and at least two links.
    pub open spec fn wf(self) -> bool {
        self@.wf()
    }
}

/// A request to change some attributes of an entry; absent fields stay
/// unchanged.
#[derive(Debug, Clone, Copy)]
pub struct SetAttrRequest {
    pub perm: Option<u32>,
    pub uid: Option<u32>,
    pub gid: Option<u32>,
    pub size: Option<u64>,
    pub flags: Option<u32>,
}

impl SetAttrRequest {
    /// A request that only truncates or extends to `size`.
    pub fn with_size(size: u64) -> (r: SetAttrRequest)
        ensures
            r.perm is None,
            r.uid is None,
            r.gid is None,
            r.size == Some(size),
            r.flags is None,
    {
        SetAttrRequest { perm: None, uid: None, gid: None, size: Some(size), flags: None }
    }
}

/// The typed errors every backend call can fail with; callers never see
/// the HTTP layer.
#[derive(Debug, Clone)]
pub enum BackendError {
    NotFound(String),
    Unauthorized,
    Conflict(String),
    Forbidden,
    InternalServerError,
    BadAnswerFormat,
    ServerUnreachable,
    Other(String),
}

impl BackendError {
    /// A short human-readable description of the error.
    pub fn describe(&self) -> String {
        match self {
            BackendError::NotFound(p) => {
                let mut s = String::new();
                push_str(&mut s, "not found: ");
                push_str(&mut s, p.as_str());
                s
            },
            BackendError::Unauthorized => {
                let mut s = String::new();
                push_str(&mut s, "unauthorized");
                s
            },
            BackendError::Conflict(m) => {
                let mut s = String::new();
                push_str(&mut s, "conflict: ");
                push_str(&mut s, m.as_str());
                s
            },
            BackendError::Forbidden => {
                let mut s = String::new();
                push_str(&mut s, "forbidden");
                s
            },
            BackendError::InternalServerError => {
                let mut s = String::new();
                push_str(&mut s, "internal server error");
                s
            },
            BackendError::BadAnswerFormat => {
                let mut s = String::new();
                push_str(&mut s, "bad answer format");
                s
            },
            BackendError::ServerUnreachable => {
                let mut s = String::new();
                push_str(&mut s, "server unreachable");
                s
            },
            BackendError::Other(m) => {
                let mut s = String::new();
                push_str(&mut s, "error: ");
                push_str(&mut s, m.as_str());
                s
            },
        }
    }
}

/// The login credentials captured once at startup and retained to
/// re-authenticate on an expired session.
#[derive(Debug, Clone)]
pub struct Credentials {
    pub username: String,
    pub password: String,
}

impl Credentials {
    pub fn new(username: String, password: String) -> (r: Credentials)
        ensures
            r.username == username,
            r.password == password,
    {
        Credentials { username, password }
    }
}

} // verus!
