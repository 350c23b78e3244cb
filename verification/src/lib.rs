//! A local file-storage manager.
//!
//! The manager owns a storage root (a flat directory of stored files plus a
//! single metadata document) and offers four operations: upload, download,
//! list and delete. The storage state is modelled explicitly, so every
//! decision the manager makes — collision resolution for stored names, the
//! exact text of the metadata document, which records survive a delete —
//! is stated in contracts and proved.
//!
//! - [`meta`] holds the record type and the error kinds.
//! - [`digits`] and [`strings`] are small helpers: decimal numerals and
//!   character-level string work.
//! - [`codec`] renders and parses the metadata document, with a proved
//!   round trip.
//! - [`naming`] resolves name collisions with integer prefixes.
//! - [`store`] is the storage manager itself.
//! - [`laws`] states and proves the laws that relate the operations.

pub mod codec;
pub mod digits;
pub mod laws;
pub mod meta;
pub mod naming;
pub mod store;
pub mod strings;
