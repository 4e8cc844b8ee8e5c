//! Surgery on the object graph of a document of indirect objects: collecting
//! what the trailer does not reach, deleting objects with the references to
//! them, renumbering, compressing and replacing stream content, deleting
//! pages, and embedding files.
//!
//! Contracts are stated over the values in `model`; each type of `object`,
//! `table` and `document` has a view into them.

pub mod attachments;
pub mod content;
pub mod delete;
pub mod dictionary;
pub mod document;
pub mod extract;
pub mod flags;
pub mod integrity;
pub mod model;
pub mod names;
pub mod object;
pub mod pages;
pub mod prune;
pub mod reach;
pub mod renumber;
pub mod rewrite;
pub mod runlength;
pub mod scrub;
pub mod stream;
pub mod table;

pub use document::Document;
pub use extract::Extraction;
pub use model::{ObjectId, StringFormat};
pub use object::{Dictionary, Error, Object, Stream};
pub use table::ObjectTable;
