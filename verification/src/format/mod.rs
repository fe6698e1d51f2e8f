//! DwarFS container format: section headers, the section index, and
//! integrity hashes.
//!
//! This module covers the byte-level layout of a `.dwarfs` image
//! independently of metadata or block payload contents. It is the
//! foundation every higher-level reader builds on.

pub mod detect;
pub mod header;
pub mod history;
pub mod image;
pub mod index;
pub mod integrity;
pub mod layout;
pub mod sections;
pub mod source;
pub mod types;
pub mod written;

pub use detect::detect_base_offset;
pub use header::{
    HEADER_LEN, MAGIC, SHA_COVER_START, SUPPORTED_MAJOR, SUPPORTED_MINOR, SectionHeader,
    WRITTEN_MINOR, XXH_COVER_START,
};
pub use image::Image;
pub use index::{IndexEntry, SectionIndex};
pub use sections::{SectionRecord, SectionRef, Sections};
pub use source::{FileSource, ImageSource, SliceSource, WindowedSource};
pub use types::{Compression, SectionType};
