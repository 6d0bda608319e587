//! Field-element memory codec for a circuit runtime's linear memory.
//!
//! A host exchanges arbitrary-precision finite-field values with a
//! zero-knowledge circuit runtime running inside a sandboxed wasm virtual
//! machine. The runtime exposes only a flat byte buffer, so every value
//! crosses the boundary in a compact, self-describing binary layout. This
//! crate holds the verified core of that exchange:
//!
//! - [`field_element`]: the arbitrary-precision signed values themselves,
//!   as canonical little-endian limbs with a mathematical view;
//! - [`encoding`]: the three wire layouts (short positive, short negative,
//!   long with an optional Montgomery reduction on decode), their encode
//!   and decode policies as spec functions, and the round-trip laws;
//! - [`linear_memory`]: typed, bounds-respecting access to the wasm linear
//!   memory, the one place the foreign buffer is touched;
//! - [`memory`]: the bump allocator whose cursor lives at buffer offset 0,
//!   and the codec that writes and reads field elements at allocated
//!   offsets;
//! - [`error`]: the distinct failures the codec surfaces instead of
//!   recovering, so that a corrupt buffer never poisons a proof silently.

pub mod encoding;
pub mod error;
pub mod field_element;
pub mod linear_memory;
pub mod memory;
