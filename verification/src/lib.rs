//! A schema-less codec for the Protocol Buffers wire format.
//!
//! The crate decodes an arbitrary byte stream into a generic, inspectable
//! value tree without a `.proto` definition, and re-encodes such a tree back
//! to wire bytes. Length-delimited payloads are ambiguous by design; the
//! decoder applies a deterministic three-tier heuristic (nested message,
//! UTF-8 text, raw bytes) to classify them.
//!
//! `Varint` values are stored as raw unsigned 64-bit bit patterns without
//! zig-zag decoding: callers must know out of band whether a field is
//! zig-zag-encoded and apply the signed varint codec themselves.

pub mod buffer;
pub mod error;
pub mod fixint;
pub mod protobuf;
pub mod varint;
