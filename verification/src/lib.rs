//! Verified CSV-to-JSON transcoding.
//!
//! The library parses CSV text (comma-delimited fields with double-quote
//! escaping), pairs each data row with the header row to form records, and
//! renders the resulting document as a pretty-printed JSON array of
//! objects. All functions work on plain bytes; file discovery and file I/O
//! stay with the caller, which selects input files with
//! [`has_csv_extension`], feeds each file's bytes to [`transcode`], and
//! writes the output under the name [`json_output_name`] gives.

pub mod ascii;
pub mod csv_parse;
pub mod json_out;
pub mod names;
pub mod record;
pub mod transcode;

pub use csv_parse::ParseError;
pub use names::has_csv_extension;
pub use names::is_csv_name;
pub use names::json_output_name;
pub use transcode::transcode;
