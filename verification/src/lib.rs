//! An in-memory JSON document library: it parses JSON text into a navigable
//! tree of nodes, lets callers inspect and mutate that tree, and serializes it
//! back to compact JSON text.
//!
//! The tree is modelled by a ghost datatype, `model::JsonModel`; the grammar
//! the parser accepts is specified in `grammar`; and `round_trip` proves that
//! serializing any well-formed tree and parsing the result yields the same
//! tree, because serialization emits exactly the grammar the parser accepts.

pub mod grammar;
pub mod iter;
pub mod json_node;
pub mod json_parser;
pub mod json_node_error;
pub mod json_property_map;
pub mod model;
pub mod numbers;
pub mod round_trip;
pub mod string_utils;
pub mod text;

pub use iter::Iter;
pub use json_node::JsonNode;
pub use json_node_error::JsonNodeError;
pub use json_parser::JsonNodeParser;
pub use json_property_map::JsonPropertyMap;
pub use string_utils::SurroundWith;
