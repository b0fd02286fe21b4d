//! Delta bit-packing: a value described by a schema is written to a bit
//! stream against an optional prior snapshot, so that what did not change
//! costs a bit or nothing, and read back against the same prior.
//!
//! - `bits`, `stream`: the bit layout of numbers, and a writer and reader.
//! - `schema`, `values`: schemas with their hints, and the values they describe.
//! - `wire`: the wire format, stated as functions from values to bits and back.
//! - `codec`: encoding and decoding, proved to follow the wire format.
//! - `laws`: round trip, exact length, unchanged values, variant framing.
//! - `hints`, `parse`, `builder`, `prim`: building a schema from a type's
//!   declared shape and the hints on its parts.
pub mod bits;
pub mod builder;
pub mod codec;
pub mod hints;
pub mod laws;
pub mod parse;
pub mod prim;
pub mod schema;
pub mod stream;
pub mod values;
pub mod wire;
