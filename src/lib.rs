//! Bit-packing core of a packet-description-language backend: integer storage
//! widths and byte order, packing of sub-byte fields into byte-aligned chunks,
//! the decode / encode operation lists generated for each packet with the
//! meaning of those lists and interpreters that run them, and the
//! records of Linux snoop capture files.
pub mod width;
pub mod chunk;
pub mod field;
pub mod parser;
pub mod serializer;
pub mod snoop;
pub mod runtime;
pub mod semantics;
