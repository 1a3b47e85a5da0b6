//! A file-derived collection store: the rules that decide which files of a
//! directory tree are indexed, how a new scan is compared with the stored
//! state, the typed pipeline that turns changed files into items, and the
//! commit that the on-disk tables receive.

pub mod commit;
pub mod diff;
pub mod scan;
pub mod state;
pub mod store;
pub mod sync;
pub mod update;

pub use state::FileState;
pub use store::FileDB;
pub use sync::{Sync, SyncError};
pub use update::FileItemUpdate;
pub use diff::diff_states;
pub use commit::Commit;
pub use scan::{enters_dir, eq_ignore_ascii_case, extension_of, is_accepted_file, is_hidden};
