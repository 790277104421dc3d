//! A small local credential store.
//!
//! Named secrets ("entries") live in memory in a [`store::Store`], together
//! with a side list of soft-deleted entries ("backups") so that an accidental
//! removal can be undone.  The store is persisted as a single text blob whose
//! exact shape is defined and proved in [`codec`]; an optional confidentiality
//! transform sits between the text and the file bytes ([`crypto`]), currently
//! an identity pass-through.

pub mod codec;
pub mod crypto;
pub mod persist;
pub mod store;
