//! A verified catalog codec for game translation: tagged text strings are
//! serialized into a PO-like, human-editable catalog (with deduplication and
//! an internal disambiguation marker) and parsed back, losslessly for the
//! value domain the format defines.
//!
//! The entry model lives in [`entry`], the escaping scheme in [`escape`] and
//! [`decode`], the writer in [`writer`] and the line-oriented parser in
//! [`parser`]. The round-trip guarantees are stated and proved in [`laws`].
pub mod chars;
pub mod decode;
pub mod digits;
pub mod entry;
pub mod escape;
pub mod laws;
pub mod parser;
pub mod seqtools;
pub mod writer;

pub use entry::Entry;
pub use entry::EntryNoText;
pub use entry::EntryView;
pub use entry::PoError;
pub use entry::PoWarning;
pub use entry::WarningView;
pub use escape::escape_string_for_gettext;
pub use writer::GettextWriter;
