//! A filesystem-backed store for a three-level note hierarchy:
//! notebooks contain notes, each note is one markdown document plus an
//! image folder. The store is modelled as an explicit directory tree
//! (paths are sequences of name segments); callers that talk to a real
//! disk replay the same operations there.

pub mod demo;
pub mod entity;
pub mod fs;
pub mod laws;
pub mod name;
pub mod store;

pub use demo::ensure_demo_data;
pub use demo::sample_note_content;
pub use demo::sample_png;
pub use entity::to_note;
pub use entity::to_notebook;
pub use entity::Note;
pub use entity::Notebook;
pub use fs::Fs;
pub use fs::StoreError;
pub use name::safe_image_name;
pub use name::sanitize_name;
pub use store::base_dir;
pub use store::create_note;
pub use store::create_notebook;
pub use store::default_note_content;
pub use store::ensure_root;
pub use store::list_notebooks;
pub use store::list_notes;
pub use store::read_note;
pub use store::save_image;
pub use store::save_note;
