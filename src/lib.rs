//! A fixed-layout binary codec. Values are written to and read from flat
//! byte buffers at a caller-held position; every type has a static bound on
//! its encoded length.
//!
//! - `bytes`: little-endian integers and the buffer splicing that writes
//!   are stated in.
//! - `traits`: the `Poke` / `Peek` capabilities and their impls for the
//!   integers, `bool`, `()`, markers, options and tuples.
//! - `layout`: the shapes of declared records and tagged unions, with the
//!   size oracle, the encoding and the decoding as spec functions, and the
//!   laws they obey.
//! - `codec`: the generated code: size, write and read for any shape.

pub mod bytes;
pub mod codec;
pub mod layout;
pub mod traits;
