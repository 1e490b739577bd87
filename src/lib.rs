//! Rebuilds a user's saved-albums collection from the albums implied by the
//! saved tracks, with a backup of the tracks first and a recovery path for
//! library overflow.
//!
//! Every function here is pure decision logic: the remote service is driven
//! by the caller, which performs the requests that these functions plan and
//! feeds the answers back.
pub mod model;
pub mod albums;
pub mod batches;
pub mod spillover;
pub mod reader;
pub mod session;

pub use model::{Track, SyncError, PAGE_SIZE, BACKUP_BATCH_SIZE, ALBUM_DELETE_BATCH_SIZE, SPILLOVER_DELETE_BATCH_SIZE};
