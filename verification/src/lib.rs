//! A small blob store: bodies that are posted under a path are queued in memory and
//! written to disk by workers, and are read back under the same path.
//!
//! The rules of the service stand here, with what they promise: which paths are
//! allowed ([`path`]), how many bytes may wait to be written ([`budget`], and over the
//! life of a budget [`ledger`]), what a request is answered ([`routes`]), in which
//! steps a body gets to disk ([`writer`], and what they come to there [`disk`]), and
//! how settings are read ([`config`]). What is believed of other crates is in
//! [`outside`].

pub mod budget;
pub mod config;
pub mod disk;
pub mod ledger;
pub mod outside;
pub mod path;
pub mod routes;
pub mod text;
pub mod writer;
