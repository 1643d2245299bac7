//! A small note-keeping library: an in-memory store of notes with a
//! monotonic id allocator, and a JSON persistence layer that encodes the
//! notes to text and decodes them back.

pub mod codec;
pub mod model;
pub mod store;

pub use store::Effect;
pub use store::Message;
pub use store::Note;
pub use store::NotesApp;
