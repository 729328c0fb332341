//! Pieces of the runtime tier that build on the reader's data model.

pub mod keyword;
