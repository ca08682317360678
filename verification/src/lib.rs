//! A small contact-book library: records of (id, name, email) kept one per
//! line in a comma-delimited text file.
//!
//! The library covers the pure logic of that format: encoding a record as a
//! line, tolerant decoding of a line, loading every well-formed record out of
//! a file's contents, appending a record to those contents, and exact-match
//! search over the raw rows. Reading and writing the file itself, and the
//! interactive menu, are left to the surrounding application.

pub mod codec;
pub mod input;
pub mod search;
pub mod store;
pub mod text;
