//! A schema-aware binary object codec.
//!
//! Typed in-memory values (structs, enums, scalars, and nested compositions
//! thereof) are converted to and from a compact binary representation.
//! Fields and enum variants may be marked `skip`: such a field contributes no
//! bytes to the wire format and is restored to its type's default value on
//! decode, which lets producers and consumers tolerate schema drift.
//!
//! The crate is organised leaves first:
//! - [`err`] — the error taxonomy shared by every layer;
//! - [`varint`] — the variable-length unsigned integer primitive;
//! - [`schema`] — type descriptors, skip annotations, and the field/variant
//!   resolver that fixes the deterministic wire order;
//! - [`value`] — the dynamic value model, its defaults, and the
//!   skip-to-default normalisation;
//! - [`codec`] — the struct/enum encoder and decoder with their
//!   round-trip theorems;
//! - [`engine`] — the type registry and the top-level serialize and
//!   deserialize entry points;
//! - [`laws`] — the public statements of the format's guarantees.

pub mod codec;
pub mod engine;
pub mod err;
pub mod laws;
pub mod schema;
pub mod value;
pub mod varint;
