//! Range reads over an object store that fetch nearby byte ranges as one, and the paths and files
//! that tests of such reads work on.
//!
//! - [`store`]: the store that joins ranges, and the setting that says how far apart they may be.
//! - [`ranges`]: which ranges are fetched to serve those asked for, and what follows from it.
//! - [`fetch`]: the calls into `object_store`, and what is claimed of them.
//! - [`text`]: numbers in text and white space around them.
//! - [`file_util`]: paths and files for test data.
//! - [`disk`]: what the making of such a file does to a disk.
pub mod disk;
pub mod fetch;
pub mod file_util;
pub mod ranges;
pub mod store;
pub mod text;
