//! A small key-value store of text pairs.
//!
//! The store lives in memory ([`database`]). Its backing file holds one
//! record per line, the key and the value parted by a tab ([`format`]); the
//! store is loaded from that text and serialized back to it in full. Keys
//! that begin with a dot are secret: they are left out of the listing
//! ([`listing`]) and are otherwise keys like any other. [`command`] runs one
//! command of the command line on a store, and [`location`] says where the
//! backing file lies. [`entries`] holds the model that the contracts speak
//! of, and [`text`] what they need of character sequences.
//!
//! Reading and writing the file itself is left to the caller.

pub mod command;
pub mod database;
pub mod entries;
pub mod format;
pub mod listing;
pub mod location;
pub mod text;
