//! The errors that parsing and property-map removal can produce.

use vstd::prelude::*;

verus! {

/// An error that can occur when parsing a JSON node or when removing a
/// property from a property map.
#[derive(Debug, PartialEq, Clone)]
pub enum JsonNodeError {
    /// The JSON string is empty or has only white space.
    /// If the `Option` is `Some`, the string is the enclosing text the empty
    /// span was extracted from.
    EmptyJson(Option<Box<String>>),
    /// The JSON string could not be parsed; it is carried verbatim.
    CouldntParseNode(String),
    /// The JSON object has multiple properties with the same key; the key is
    /// carried.
    MultiplePropertiesWithSameKey(String),
    /// The JSON object has no property with the given key; the key is
    /// carried.
    KeyNotFound(String),
}

impl JsonNodeError {
    /// The human-readable text of the error: the enclosing text, the
    /// offending span, or the key, as the variant carries it.
    pub fn message(&self) -> (r: String)
        ensures
            match self {
                JsonNodeError::EmptyJson(Some(p)) => r@ == p@,
                JsonNodeError::EmptyJson(None) => r@ == "Json node has no parent"@,
                JsonNodeError::CouldntParseNode(t) => r@ == t@,
                JsonNodeError::MultiplePropertiesWithSameKey(k) => r@ == k@,
                JsonNodeError::KeyNotFound(k) => r@ == k@,
            },
    {
        match self {
            JsonNodeError::EmptyJson(Some(p)) => String::from_str(p.as_str()),
            JsonNodeError::EmptyJson(None) => String::from_str("Json node has no parent"),
            JsonNodeError::CouldntParseNode(t) => String::from_str(t.as_str()),
            JsonNodeError::MultiplePropertiesWithSameKey(k) => String::from_str(k.as_str()),
            JsonNodeError::KeyNotFound(k) => String::from_str(k.as_str()),
        }
    }
}

} // verus!
