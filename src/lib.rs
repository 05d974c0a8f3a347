//! A personal notebook store: notes, a shared tag vocabulary, a folder tree
//! and a small preference table, kept consistent under every operation.
pub mod laws;
pub mod lemmas;
pub mod load;
pub mod model;
pub mod notebook;
pub mod order;
pub mod rows;
pub mod text;

pub use notebook::Notebook;
pub use rows::{Folder, Note, NoteRecord, Preference, StoreError, Tag};
