//! A binary serialization and deserialization framework, verified.
//!
//! # Design
//!
//! A type whose values can be written as bytes and read back implements [`Packable`]. The
//! trait states what the bytes of a value are (`spec_pack`) and what bytes decode to
//! (`spec_unpack`), and every implementation proves two laws of the two: unpacking the bytes
//! of a value gives the value back, and unpacking the bytes of a value cut short fails for
//! want of bytes, whether unpacking makes every check or leaves out those it may. `pack` and
//! `unpack` are proved to compute `spec_pack` and `spec_unpack` on every byte sink
//! ([`packer::Packer`]) and every byte source ([`unpacker::Unpacker`]).
//!
//! A type may hold what it unpacks against a context that the caller hands in, the visitor.
//! The laws then speak of the values that pass that check. Two small types show how a type
//! implements the trait by hand: an enum behind a tag ([`maybe`]) and a struct with such a
//! check ([`capped`]).
//!
//! Integers are packed in little-endian order, booleans as the bytes 1 and 0. Options,
//! arrays, tuples, boxes, vectors, boxed slices, strings, ordered sets and maps and hash maps
//! are packed from their parts. The types of [`bounded`] are integers held to a range, and
//! the types of [`prefix`] are collections behind a length prefix of such an integer.
//!
//! Unpacking never allocates for a length that the bytes only claim: the items of a
//! collection are read one by one, and memory is taken as they arrive.
//!
//! Every error has a text for a reader, `message()` of [`message::Message`], which the
//! contracts give letter for letter.
//!
//! Beside the framework stand small helpers that know nothing of it: hex strings with a
//! prefix ([`prefix_hex`]), checks of sortedness ([`sorted`]), the configuration of a logger
//! ([`logger`]), the claims of a token and password hashes ([`auth`]), timestamps as text
//! ([`timestamp`]), and the filters of tracing layers ([`trace`]).

pub mod array;
pub mod auth;
pub mod bool;
pub mod bounded;
pub mod boxed;
pub mod capped;
pub mod error;
pub mod hashmap;
pub mod items;
pub mod le;
pub mod logger;
pub mod map;
pub mod maybe;
pub mod message;
pub mod num;
pub mod option;
pub mod order;
pub mod packable;
pub mod packer;
pub mod prefix;
pub mod prefix_hex;
pub mod set;
pub mod sorted;
pub mod string;
pub mod tally;
pub mod text;
pub mod timestamp;
pub mod trace;
pub mod tuple;
pub mod unpacker;
pub mod vec;
pub mod visitor;

pub use crate::packable::{Decoded, Packable, PackableExt};
