//! In-memory module registry for an embedding host runtime.
//!
//! A single contiguous byte blob, produced once at build time, encodes a
//! list of (module name, payload) entries. The blob is decoded into a
//! name-to-payload lookup structure whose payloads are borrowed views into
//! the blob (never copied), plus a derived set of package names. The
//! registry built from two such blobs (source text and compiled code)
//! answers the four queries an import mechanism needs: source payload,
//! code payload, module existence, and package membership.

pub mod bytes;
pub mod blob;
pub mod packages;
pub mod registry;
pub mod encode;
