//! A batching telemetry writer for a time-series database.
//!
//! Producers hand measurements (a key, ordered tags, typed fields, an
//! optional timestamp) to a background writer, which accumulates them in a
//! reusable text buffer in line-protocol form and posts the buffer to the
//! database when a batch is full or has waited long enough.  This crate
//! holds the verified core: the measurement types, the line-protocol
//! encoder with its escaping rules, and the flush-policy state machine.
//! The thread, channel and HTTP plumbing around it live outside.

pub mod influx;
pub mod measurement;
pub mod numfmt;
pub mod strbuf;
pub mod warnings;
pub mod writer;
