//! A verified dispatch core for the SCPI instrument-control text protocol.
//!
//! Incoming ASCII command lines are split into compound units, each unit's
//! mnemonic path is resolved against a static command tree (case-insensitive,
//! with the SCPI short-form abbreviation rule), the trailing query marker
//! decides query-vs-event mode, and the resolved handler is invoked with the
//! device, a parameter source and a response sink.

pub mod ascii;
pub mod error;
pub mod tokenizer;
pub mod tree;
pub mod params;
pub mod response;
pub mod command;
pub mod dispatch;
