//! An index over the files of NTFS volumes: decoding of the on-disk
//! structures, the in-memory index, and the decisions of the search engine
//! that is built on it.

pub mod bytes;
pub mod clock;
pub mod dates;
pub mod diag;
pub mod encoding;
pub mod engine;
pub mod hashed;
pub mod index;
pub mod messages;
pub mod metrics;
pub mod mft;
pub mod ondisk;
pub mod order;
pub mod paths;
pub mod stop;
pub mod text;
pub mod wording;
pub mod wtf8;
