//! Hide and retrieve messages inside PNG files by storing them as ancillary
//! chunks.
//!
//! The crate models the binary side of that job: the four-letter chunk type
//! with its naming-convention bits, the length-prefixed chunk record guarded
//! by a CRC-32, and the PNG container that holds an ordered run of records.
//! Every function here works on byte buffers and strings that are already in
//! memory; reading and writing files is left to the caller.

pub mod chunk;
pub mod chunk_type;
pub mod commands;
pub mod png;
pub mod text;
