//! A size-exclusion report: a bounded stream of JSON records, one per line, that says
//! which files a backup would leave out and why.
//!
//! * [`text`]: canonical decimal and hexadecimal text.
//! * [`codec`]: the calls into `serde_json`, with what is taken for granted of them.
//! * [`json`]: JSON values.
//! * [`path`]: lossless encoding of file names.
//! * [`error`]: why a report could not be made.
//! * [`report`]: the byte budget and the record framing.
//! * [`inventory`]: the plan of a run and the records of a report.
//! * [`session`]: a report under way, from its header to its completion footer.
//! * [`version`]: the version and capability record.
pub mod codec;
pub mod error;
pub mod inventory;
pub mod json;
pub mod path;
pub mod report;
pub mod session;
pub mod text;
pub mod version;
