//! A reader for DwarFS images.
//!
//! The crate is layered bottom to top: [`format`] finds and walks the
//! sections of an image, [`compression`] turns a section payload into
//! bytes, [`metadata`] decodes the Frozen2 metadata, and [`fs`] answers
//! file-system questions from the decoded tables.
#![allow(unused_imports)]

pub mod bytes;
pub mod cli;
pub mod collect;
pub mod compression;
pub mod error;
pub mod format;
pub mod fs;
pub mod fuse;
pub mod metadata;
pub mod shown;
pub mod text;
pub mod utf8;

pub use error::{Error, Result};
