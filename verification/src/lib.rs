//! Decoding of torrent metainfo, verified.
//!
//! A metainfo document is a dictionary in a small self-delimiting encoding
//! of integers, byte strings, lists and dictionaries. This crate reads such
//! a document out of a byte buffer without copying from it: [`bencode`]
//! holds the cursor that reads the primitives, [`metainfo`] the decoders of
//! the document and of its info dictionary, whose bytes are hashed as they
//! stand to give the torrent its identity.
//!
//! What the decoders do is stated against the grammar in [`grammar`], a set
//! of functions on byte sequences. [`value`] and [`canonical`] prove that
//! the grammar reads back what an encoder writes: integers, byte strings,
//! nested values, info dictionaries and whole documents.
//!
//! [`torrent`] decodes an older, flat form of the description. [`net`] and
//! [`tracker`] write the query of a tracker request, and [`catalog`] picks
//! the torrent file out of a directory.

pub mod ascii;
pub mod bencode;
pub mod bytes;
pub mod canonical;
pub mod catalog;
pub mod decimal;
pub mod digest;
pub mod error;
pub mod grammar;
pub mod keys;
pub mod metainfo;
pub mod net;
pub mod torrent;
pub mod tracker;
pub mod value;

pub use crate::bencode::BencodeParser;
pub use crate::error::Error;
pub use crate::metainfo::{Info, MetaInfoFile};
