//! A small JSON engine: a hand-written lexer, a recursive-descent parser
//! building a tree of `JsonValue`s, and serialization / deserialization
//! capabilities that convert typed records to and from that tree.
//!
//! Every function is verified: the lexer and the parser are proved to
//! compute exactly what the specification-level tokenizer and grammar
//! functions describe, and the codec traits carry exact contracts relating
//! values to their models.

use vstd::prelude::*;

pub mod json_value;
pub mod lexer;
pub mod parser;
pub mod record;
pub mod relex;
pub mod text;

pub use json_value::JsonValue;

use json_value::{SpecNumber, SpecValue, JsonNumber};

verus! {

/// The serialization capability: a type that can describe itself as a
/// JSON value. Serialization is total; `spec_to_json` pins the exact tree
/// produced for every instance.
pub trait JsonSerializable {
    /// The model of the tree this instance serializes to.
    spec fn spec_to_json(&self) -> SpecValue;

    fn to_json(&self) -> (r: JsonValue)
        ensures
            r.wf(),
            r.model() == self.spec_to_json(),
    ;
}

/// The deserialization capability: a type that can be read back from a
/// JSON value, fallibly. `json_accepted` says exactly which trees are
/// accepted; `json_decodes` says exactly which instance a tree decodes to.
pub trait JsonDeserializable: Sized {
    /// The trees from which deserialization succeeds.
    spec fn json_accepted(j: SpecValue) -> bool;

    /// Whether this instance is the decoding of the tree `j`.
    spec fn json_decodes(&self, j: SpecValue) -> bool;

    fn from_json(value: &JsonValue) -> (r: Option<Self>)
        requires
            value.wf(),
        ensures
            match r {
                Some(x) => Self::json_accepted(value.model()) && x.json_decodes(value.model()),
                None => !Self::json_accepted(value.model()),
            },
    ;
}

impl JsonSerializable for String {
    open spec fn spec_to_json(&self) -> SpecValue {
        SpecValue::String(self@)
    }

    fn to_json(&self) -> (r: JsonValue) {
        JsonValue::String(self.clone())
    }
}

impl JsonDeserializable for String {
    open spec fn json_accepted(j: SpecValue) -> bool {
        j is String
    }

    open spec fn json_decodes(&self, j: SpecValue) -> bool {
        j == SpecValue::String(self@)
    }

    fn from_json(value: &JsonValue) -> (r: Option<Self>) {
        if let JsonValue::String(s) = value {
            Some(s.clone())
        } else {
            None
        }
    }
}

impl JsonSerializable for u32 {
    open spec fn spec_to_json(&self) -> SpecValue {
        SpecValue::Number(SpecNumber::of_u32(*self))
    }

    fn to_json(&self) -> (r: JsonValue) {
        JsonValue::Number(JsonNumber::from_u32(*self))
    }
}

impl JsonDeserializable for u32 {
    open spec fn json_accepted(j: SpecValue) -> bool {
        j is Number
    }

    /// The documented lossy-cast policy: any Number decodes, by truncation.
    open spec fn json_decodes(&self, j: SpecValue) -> bool {
        match j {
            SpecValue::Number(n) => *self == n.trunc_u32(),
            _ => false,
        }
    }

    fn from_json(value: &JsonValue) -> (r: Option<Self>) {
        if let JsonValue::Number(n) = value {
            Some(n.to_u32_trunc())
        } else {
            None
        }
    }
}

impl JsonSerializable for bool {
    open spec fn spec_to_json(&self) -> SpecValue {
        SpecValue::Bool(*self)
    }

    fn to_json(&self) -> (r: JsonValue) {
        JsonValue::Bool(*self)
    }
}

impl JsonDeserializable for bool {
    open spec fn json_accepted(j: SpecValue) -> bool {
        j is Bool
    }

    open spec fn json_decodes(&self, j: SpecValue) -> bool {
        j == SpecValue::Bool(*self)
    }

    fn from_json(value: &JsonValue) -> (r: Option<Self>) {
        if let JsonValue::Bool(b) = value {
            Some(*b)
        } else {
            None
        }
    }
}

} // verus!
