//! Reader for RGSSAD game archives (versions 1, 2 and 3).
//!
//! An archive is opened from its bytes: the header is checked, the table that
//! the version announces is decoded into an index of entries by name, and a
//! reader over an entry hands out its plaintext in pieces of any size.
//! Every function states what it returns over the models in `format` and
//! `cipher`; `laws` holds what follows from them for all archives.

pub mod keystream;
pub mod cipher;
pub mod wire;
pub mod names;
pub mod index;
pub mod format;
pub mod entry;
pub mod archive;
pub mod filter;
pub mod laws;
