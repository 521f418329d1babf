//! Decoder for a binary telemetry "logs" message tree (resources,
//! instrumentation scopes, log records, typed key/value attributes), with an
//! eager reusable parse tree and a lazy zero-copy view over the same wire
//! format.
//!
//! The wire format is classic protobuf encoding; `wire` holds the byte-level
//! primitives and the specification-level scan they are proved against, and
//! `model` says what every message kind denotes.  The three strategies —
//! the eager tree in `otlp_bytes`, the lazy views in `otlp_bytes_lazy`, and
//! the plain in-memory tree in `owned` — all state their contracts over
//! those shared models, so that:
//!
//! - parsing a buffer into the eager tree leaves exactly the buffer's
//!   denotation, whatever the tree held before (reuse leaks nothing, and
//!   re-parsing the same bytes is idempotent);
//! - every lazy accessor reports the denoted field of its byte range;
//! - the traversals in `traverse` report identical counts from any
//!   strategy over the same content, and each count is bounded by the
//!   length of the input buffer;
//! - decoding the encoding of a run of submessages yields exactly those
//!   submessages, at the varint, field, scope-group and payload level.

use vstd::prelude::*;

pub mod model;
pub mod otlp_bytes;
pub mod otlp_bytes_lazy;
pub mod owned;
pub mod text;
pub mod traverse;
pub mod wire;

verus! {

/// The dynamic type of an attribute value, shared by every strategy.
#[derive(Debug, Clone, PartialEq, Eq, Structural)]
pub enum ValueType {
    String,
    Bool,
    Int64,
    Double,
    Bytes,
    Array,
    KeyValueList,
}

} // verus!
