//! Line-level diff with selective redaction and a binding commitment digest.
//!
//! - `script`: edit operations and what makes a list of them an edit script.
//! - `myers`: the shortest-edit-script search and its reconstruction.
//! - `records`: output records, with the redaction rule.
//! - `commitment`: content digests and the commitment over the records.
//! - `parse`: the redaction spec syntax.
//! - `diff`: the whole computation, from two documents to the output bundle.
pub mod script;
pub mod myers;
pub mod records;
pub mod commitment;
pub mod diff;
pub mod parse;
