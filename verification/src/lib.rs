//! Persistence of a deck of study cards together with the binary files the
//! cards reference, as a single portable archive.
//!
//! A [`deck::Deck`] owns a list of flash cards and a store of binary
//! attachments ([`filedesc::FileDesc`]).  Saving a deck produces one
//! gzip-compressed tar archive holding the bytes of every currently open
//! attachment plus a fixed-layout binary snapshot of the deck's metadata;
//! loading reverses the process and returns the deck with every attachment
//! closed.

pub mod archive;
pub mod codec;
pub mod deck;
pub mod error;
pub mod filedesc;
pub mod flashcard;
pub(crate) mod outside;

pub use deck::Deck;
pub use error::Error;
pub use error::Kind;
pub use filedesc::FileDesc;
pub use flashcard::Field;
pub use flashcard::Flashcard;
pub use flashcard::Side;
