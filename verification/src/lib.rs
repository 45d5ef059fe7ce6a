//! A bidirectional structural codec between nested values and a flat,
//! string-addressed representation.
//!
//! A nested [`value::Value`] (records, tuples, lists, maps, options, tagged
//! choices and scalars) is encoded into a flat list of leaf entries, each a
//! (path, raw text) pair, suitable for a linear key-value medium such as form
//! fields. The decoder reconstructs a value of a given [`value::Shape`] from
//! such a flat list, inverting the encoding.

pub mod codec;
pub mod decode;
pub mod encode;
pub mod label;
pub mod laws;
pub mod path;
pub mod text;
pub mod value;
