use vstd::prelude::*;

pub mod adapter;
pub mod backend;
pub mod cache;
mod lru_store;
pub mod models;
mod strutil;
pub mod stub;
pub mod wire;

pub use backend::RemoteBackend;
pub use cache::{block_span, Cache};
pub use models::{
    BackendError, Credentials, EntryType, EntryView, FileEntry, SetAttrRequest, BLOCK_SIZE,
    LARGE_FILE_SIZE, MAX_IO_END,
};
pub use stub::{FsModel, StubBackend};

verus! {

} // verus!
