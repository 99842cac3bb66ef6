//! A small note-taking core: notes with calendar timestamps, a JSON
//! document codec for one-file-per-note persistence, an in-memory model
//! of the storage directory, and the controller that handles the
//! create / select / delete / rename intents coming from the sidebar.

pub mod app;
pub mod codec;
pub mod editor;
pub mod note;
pub mod note_list;
pub mod sidebar;
pub mod storage;
pub mod timestamp;

pub use note::Note;
pub use timestamp::Timestamp;
