//! The NTFS on-disk byte grammar: decoders for the bytes a raw volume read
//! hands back.
//!
//! - [`ntfs`]: boot sector, file-record header, attribute headers, `$FILE_NAME`
//! - [`record`]: whole-attribute-chain validation for one fixed-up record
//! - [`attribute_list`]: `$ATTRIBUTE_LIST` entries and non-resident run maps
//! - [`extents`]: mapping pairs decoded to runs
//! - [`closure`]: the extents of a split stream, collected until they cover it
//! - [`list_stream`]: a non-resident list read entry by entry
//! - [`fixup`]: the update-sequence array applied to a record buffer
//! - [`layout`]: where each fact stands in the bytes
//! - [`chains`]: how sectors, attributes, pairs and entries follow each other
//! - [`streams`]: what runs hold of a stream
//! - [`tells`]: what decoding answers
//! - [`accepts`]: exactly which bytes are accepted

pub mod accepts;
pub mod attribute_list;
pub mod chains;
pub mod closure;
pub mod extents;
pub mod fixup;
pub mod layout;
pub mod list_stream;
pub mod ntfs;
pub mod record;
pub mod streams;
pub mod tells;
