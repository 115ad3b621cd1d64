//! A codec for the bencode serialization format: four value kinds (signed
//! integers, raw byte strings, lists, and key-sorted dictionaries), with a
//! verified parser and a verified canonical encoder. Parsing and encoding
//! invert one another: the round-trip laws are proved in `roundtrip`.

pub mod byte_string;
pub mod common;
pub mod dictionary;
pub mod encoder;
pub mod integer;
pub mod list;
pub mod parser;
pub mod roundtrip;
