//! A SQL database image kept as a tree of content-addressed pages, with the
//! file-system adapter, lock protocol and actor rules that sit around it.

pub mod actor;
pub mod cut;
pub mod env;
pub mod errors;
pub mod laws;
pub mod layout;
pub mod lock;
pub mod path;
pub mod spine;
pub mod stable;
pub mod state;
pub mod storage;
pub mod store;
pub mod update;
pub mod vfs;

pub use actor::{
    Actor, ConstructorParams, ExecuteParams, ExecuteReturn, PingReturn, QueryParams,
    SQLITE_PAGE_SIZE,
};
pub use env::randomness;
pub use errors::{Error, ExitKind};
pub use lock::{Connection, LockKind, LockState};
pub use state::{State, DB};
pub use storage::StorageStatus;
pub use store::{BlockStore, Cas};
pub use stable::{
    conn_sleep, stable64_grow, stable64_size, stable_capacity, stable_grow_bytes, StableMemory,
    StableMemoryError,
};
pub use vfs::{OpenAccess, OpenKind, OpenOptions, PagesVfs, VfsError};
