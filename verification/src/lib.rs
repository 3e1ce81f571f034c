//! A flat-file store of short free-text entries, with keyword search and
//! narrative composition over it.
//!
//! Entries live in one text file, apart from one another by lines of dashes.
//! A [`Gatherbrained`] holds the entries of such a file in order. It is
//! searched by needles, all of which an entry must hold, letter case aside,
//! and a narrative, each line of which is one such search, composes a story
//! from it. The library does no input or output of its own: the caller hands
//! it what files hold and writes what it hands back.

pub mod compose;
pub mod flatfile;
pub mod laws;
pub mod lemmas;
pub mod matcher;
pub mod model;
pub mod std_specs;
pub mod store;
pub mod text;

pub use crate::store::{
    accepted, append_extension, history_for, tmpfile_for, Error, Gatherbrained, Session,
};
