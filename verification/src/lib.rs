//! A relay that cross-posts the items of a syndication feed to a story API.
//!
//! The crate holds the decisions of the relay: which feed items are new, which
//! tags an outgoing story carries, how a response of the story API is read, and
//! in which order the steps of one run follow each other. Network and file
//! access are left to the caller, which performs the actions that the relay
//! asks for and reports back what happened.

pub mod batch;
pub mod feed;
pub mod ledger;
pub mod relay;
pub mod string_set;
pub mod submit;
pub mod tags;
pub mod text;
