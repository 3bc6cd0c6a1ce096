//! A durable store of scheduled reminders.
//!
//! Every change to the store is one record appended to a log; the notes that
//! are currently scheduled are whatever replaying that log from its first
//! record leaves behind. The crate works on values only: the host reads and
//! appends the log's bytes and shows the reminders that fall due.

pub mod codec;
pub mod error;
pub mod note;
pub mod replay;
pub mod store;
pub mod time;

pub use codec::record::encode;
pub use codec::stream::decode_stream;
pub use error::{NoterError, ParseError};
pub use note::{hash, is_note_due, Note, Operation};
pub use replay::replay;
pub use store::{NoteStore, Reminder, Scheduled};
pub use time::{TimeOfDay, Timestamp};
