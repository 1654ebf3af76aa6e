//! A binary-safe, streaming decoder and encoder for a length-prefixed,
//! line-delimited wire protocol of RESP's shape.
//!
//! The decoder is incremental: byte delivery boundaries are unrelated to
//! frame boundaries, so a decode attempt may suspend mid-frame when data is
//! insufficient and resume later without re-parsing already-confirmed tokens.
//! The grammar, the resumable machine that drives it, and the laws that hold
//! of them live in [`resp_parser`]; the per-connection codec in
//! [`resp_codec`]; the value model in [`resp_types`].

pub mod logger;
pub mod messages;
pub mod resp_codec;
pub mod resp_parser;
pub mod resp_types;
