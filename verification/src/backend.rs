use vstd::prelude::*;

use crate::models::{BackendError, EntryType, FileEntry, SetAttrRequest, MAX_IO_END};

verus! {

/// The uniform operation surface of the remote filesystem, addressed by
/// inode numbers. Both the raw client and the cache wrapper satisfy it,
/// so the two are interchangeable.
///
/// `ok` is the implementation's state invariant; every operation needs
/// it and preserves it. The remaining contracts state only what every
/// implementation owes its callers; a network-backed implementation can
/// promise nothing about which calls succeed, so exact success
/// conditions live on the concrete implementations.
pub trait RemoteBackend: Sized {
    /// The implementation's state invariant; holds of every value its
    /// constructors build and is preserved by every operation.
    open spec fn ok(&self) -> bool {
        true
    }

    /// Lists the contents of the directory `ino`.
    fn list_dir(&mut self, ino: u64) -> (r: Result<Vec<FileEntry>, BackendError>)
        requires
            old(self).ok(),
        ensures
            final(self).ok(),
    ;

    /// Fetches the metadata of the entry `ino`.
    fn get_attr(&mut self, ino: u64) -> (r: Result<FileEntry, BackendError>)
        requires
            old(self).ok(),
        ensures
            final(self).ok(),
            r matches Ok(e) ==> e@.ino == ino,
    ;

    /// Fetches the metadata of `ino` only if its modification time is
    /// strictly newer than `since`; returns `None` when unchanged.
    fn get_attr_if_modified_since(&mut self, ino: u64, since: u64) -> (r: Result<
        Option<FileEntry>,
        BackendError,
    >)
        requires
            old(self).ok(),
        ensures
            final(self).ok(),
            r matches Ok(Some(e)) ==> e@.ino == ino && e@.mtime > since,
    ;

    /// Finds the child of directory `parent_ino` named `name`.
    fn lookup(&mut self, parent_ino: u64, name: &str) -> (r: Result<FileEntry, BackendError>)
        requires
            old(self).ok(),
        ensures
            final(self).ok(),
            r matches Ok(e) ==> e@.name == name@,
    ;

    /// Creates an empty file named `name` under `parent_ino`. Names
    /// carry no path separator.
    fn create_file(&mut self, parent_ino: u64, name: &str) -> (r: Result<FileEntry, BackendError>)
        requires
            old(self).ok(),
            !name@.contains('/'),
        ensures
            final(self).ok(),
            r matches Ok(e) ==> e@.name == name@ && e@.kind == EntryType::File && e@.size == 0,
    ;

    /// Creates a directory named `name` under `parent_ino`. Names carry
    /// no path separator.
    fn create_dir(&mut self, parent_ino: u64, name: &str) -> (r: Result<FileEntry, BackendError>)
        requires
            old(self).ok(),
            !name@.contains('/'),
        ensures
            final(self).ok(),
            r matches Ok(e) ==> e@.name == name@ && e@.kind == EntryType::Directory,
    ;

    /// Deletes the file named `name` under `parent_ino`. This call
    /// addresses files; a directory under that name is refused and
    /// leaves through `delete_dir`.
    fn delete_file(&mut self, parent_ino: u64, name: &str) -> (r: Result<(), BackendError>)
        requires
            old(self).ok(),
        ensures
            final(self).ok(),
    ;

    /// Deletes the directory named `name` under `parent_ino`.
    fn delete_dir(&mut self, parent_ino: u64, name: &str) -> (r: Result<(), BackendError>)
        requires
            old(self).ok(),
        ensures
            final(self).ok(),
    ;

    /// Reads up to `size` bytes of file `ino` starting at `offset`.
    /// A result shorter than `size` means the read reached end of file.
    fn read_chunk(&mut self, ino: u64, offset: u64, size: u64) -> (r: Result<
        Vec<u8>,
        BackendError,
    >)
        requires
            old(self).ok(),
            offset + size <= MAX_IO_END,
        ensures
            final(self).ok(),
            r matches Ok(b) ==> b@.len() <= size,
    ;

    /// Writes `data` into file `ino` at `offset`, returning how many bytes
    /// the server accepted; callers must not assume full writes.
    fn write_chunk(&mut self, ino: u64, offset: u64, data: Vec<u8>) -> (r: Result<
        u64,
        BackendError,
    >)
        requires
            old(self).ok(),
            offset + data@.len() <= u64::MAX,
        ensures
            final(self).ok(),
            r matches Ok(n) ==> n <= data@.len(),
    ;

    /// Writes `data` into file `ino` at `offset` as one streamed upload.
    fn write_stream(&mut self, ino: u64, offset: u64, data: Vec<u8>) -> (r: Result<
        (),
        BackendError,
    >)
        requires
            old(self).ok(),
            offset + data@.len() <= u64::MAX,
        ensures
            final(self).ok(),
    ;

    /// Moves the entry named `old_name` under `old_parent_ino` to
    /// `new_name` under `new_parent_ino`. The inode number is stable
    /// across the move.
    fn rename(
        &mut self,
        old_parent_ino: u64,
        old_name: &str,
        new_parent_ino: u64,
        new_name: &str,
    ) -> (r: Result<FileEntry, BackendError>)
        requires
            old(self).ok(),
            !new_name@.contains('/'),
        ensures
            final(self).ok(),
            r matches Ok(e) ==> e@.name == new_name@,
    ;

    /// Applies the given attribute changes to `ino`; absent fields stay
    /// unchanged. A requested size takes effect exactly.
    fn set_attr(&mut self, ino: u64, attrs: SetAttrRequest) -> (r: Result<FileEntry, BackendError>)
        requires
            old(self).ok(),
        ensures
            final(self).ok(),
            r matches Ok(e) ==> e@.ino == ino && (attrs.size matches Some(s) ==> e@.size == s),
    ;

    /// Creates a hard link to `target_ino` named `link_name` under
    /// `link_parent_ino`.
    fn link(&mut self, target_ino: u64, link_parent_ino: u64, link_name: &str) -> (r: Result<
        FileEntry,
        BackendError,
    >)
        requires
            old(self).ok(),
            !link_name@.contains('/'),
        ensures
            final(self).ok(),
            r matches Ok(e) ==> e@.name == link_name@,
    ;

    /// Creates a symbolic link to `target_path` named `link_name` under
    /// `link_parent_ino`.
    fn symlink(&mut self, target_path: &str, link_parent_ino: u64, link_name: &str) -> (r: Result<
        FileEntry,
        BackendError,
    >)
        requires
            old(self).ok(),
            !link_name@.contains('/'),
        ensures
            final(self).ok(),
            r matches Ok(e) ==> e@.name == link_name@,
    ;

    /// Reads the target of the symbolic link `ino`.
    fn readlink(&mut self, ino: u64) -> (r: Result<String, BackendError>)
        requires
            old(self).ok(),
        ensures
            final(self).ok(),
    ;

    /// Reports the total and free size of the remote volume, in bytes.
    fn get_size(&mut self) -> (r: Result<(u64, u64), BackendError>)
        requires
            old(self).ok(),
        ensures
            final(self).ok(),
    ;
}

} // verus!
