//! Parsing and writing of desktop entry files (`.desktop` and service files), as they
//! are read to start sessions and applications.
//!
//! ```text
//! [Desktop Entry]
//! Name=CoolApplication
//! Exec=/path/to/app
//! ```
//!
//! `DesktopEntry::try_from` reads such a text into groups of entries, and
//! `DesktopEntry::to_string` writes them back.
pub mod entry;
pub mod error;
pub mod laws;
pub mod lines;
pub mod message;
pub mod parse;
pub mod roundtrip;
pub mod spec;
pub mod text;
pub mod value_laws;
pub mod writer;

pub use entry::{DesktopEntry, DesktopEntryGroup, DesktopEntryGroupEntry, EntryValue};
pub use error::{
    EntryParseError, GroupHeaderParseError, GroupParseError, LinedError, ValueBoolError,
    ValueStringError,
};
pub use lines::Lines;
pub use message::Describe;
pub use parse::group_header_from_line;
