//! What the command-line tools compute: options, reports, checksums.

pub mod checksum;
pub mod details;
pub mod json;
pub mod parse;
pub mod printed;
pub mod readback;
pub mod reading;
pub mod report;
pub mod spelling;
