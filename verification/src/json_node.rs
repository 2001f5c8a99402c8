//! The JSON tree type: a recursive tagged union of an object, an array, and
//! the five scalar kinds.

use vstd::prelude::*;
use crate::json_node_error::JsonNodeError;
use crate::json_property_map::JsonPropertyMap;
use crate::model::JsonModel;

verus! {

broadcast use vstd::seq::group_seq_axioms;

/// A node of a JSON tree. Each node exclusively owns its children.
///
/// A `Float` node holds the literal text of the float, exactly as it stood in
/// the parsed input; serialization emits that text verbatim.
#[derive(Debug, PartialEq)]
pub enum JsonNode {
    Object(JsonPropertyMap),
    Array(Vec<JsonNode>),
    String(String),
    Integer(i64),
    Float(String),
    Boolean(bool),
    Null,
}

/// The abstract value of a node.
pub open spec fn node_view(n: JsonNode) -> JsonModel
    decreases n,
{
    match n {
        JsonNode::Object(m) => JsonModel::Object(entries_view(m.0@)),
        JsonNode::Array(a) => JsonModel::Array(nodes_view(a@)),
        JsonNode::String(t) => JsonModel::Text(t@),
        JsonNode::Integer(v) => JsonModel::Integer(v as int),
        JsonNode::Float(t) => JsonModel::Float(t@),
        JsonNode::Boolean(b) => JsonModel::Boolean(b),
        JsonNode::Null => JsonModel::Null,
    }
}

/// The abstract values of a sequence of nodes.
pub open spec fn nodes_view(v: Seq<JsonNode>) -> Seq<JsonModel>
    decreases v, v.len(),
{
    if v.len() == 0 {
        Seq::empty()
    } else {
        seq![node_view(v[0])] + nodes_view(v.drop_first())
    }
}

/// The abstract values of a sequence of (name, node) entries.
pub open spec fn entries_view(v: Seq<(String, JsonNode)>) -> Seq<(Seq<char>, JsonModel)>
    decreases v, v.len(),
{
    if v.len() == 0 {
        Seq::empty()
    } else {
        seq![(v[0].0@, node_view(v[0].1))] + entries_view(v.drop_first())
    }
}

impl View for JsonNode {
    type V = JsonModel;

    open spec fn view(&self) -> JsonModel {
        node_view(*self)
    }
}

/// `nodes_view` maps the sequence pointwise.
pub proof fn lemma_nodes_view(v: Seq<JsonNode>)
    ensures
        nodes_view(v).len() == v.len(),
        forall|i: int| 0 <= i < v.len() ==> #[trigger] nodes_view(v)[i] == node_view(v[i]),
    decreases v.len(),
{
    if v.len() > 0 {
        lemma_nodes_view(v.drop_first());
        assert forall|i: int| 0 <= i < v.len() implies nodes_view(v)[i] == node_view(v[i]) by {
            if i > 0 {
                assert(nodes_view(v.drop_first())[i - 1] == node_view(v.drop_first()[i - 1]));
            }
        }
    }
}

/// `entries_view` maps the sequence pointwise.
pub proof fn lemma_entries_view(v: Seq<(String, JsonNode)>)
    ensures
        entries_view(v).len() == v.len(),
        forall|i: int|
            0 <= i < v.len() ==> #[trigger] entries_view(v)[i] == (v[i].0@, node_view(v[i].1)),
    decreases v.len(),
{
    if v.len() > 0 {
        lemma_entries_view(v.drop_first());
        assert forall|i: int|
            0 <= i < v.len() implies entries_view(v)[i] == (v[i].0@, node_view(v[i].1)) by {
            if i > 0 {
                let d = v.drop_first();
                assert(entries_view(d)[i - 1] == (d[i - 1].0@, node_view(d[i - 1].1)));
            }
        }
    }
}

/// `entries_view` commutes with updating one entry.
pub proof fn lemma_entries_view_update(v: Seq<(String, JsonNode)>, i: int, e: (String, JsonNode))
    requires
        0 <= i < v.len(),
    ensures
        entries_view(v.update(i, e)) == entries_view(v).update(i, (e.0@, node_view(e.1))),
{
    lemma_entries_view(v);
    lemma_entries_view(v.update(i, e));
    assert(entries_view(v.update(i, e)) =~= entries_view(v).update(i, (e.0@, node_view(e.1))));
}

/// `entries_view` commutes with appending an entry.
pub proof fn lemma_entries_view_push(v: Seq<(String, JsonNode)>, e: (String, JsonNode))
    ensures
        entries_view(v.push(e)) == entries_view(v).push((e.0@, node_view(e.1))),
{
    lemma_entries_view(v);
    lemma_entries_view(v.push(e));
    assert(entries_view(v.push(e)) =~= entries_view(v).push((e.0@, node_view(e.1))));
}

/// `entries_view` commutes with removing one entry.
pub proof fn lemma_entries_view_remove(v: Seq<(String, JsonNode)>, i: int)
    requires
        0 <= i < v.len(),
    ensures
        entries_view(v.remove(i)) == entries_view(v).remove(i),
{
    lemma_entries_view(v);
    lemma_entries_view(v.remove(i));
    assert(entries_view(v.remove(i)) =~= entries_view(v).remove(i));
}

impl JsonNode {
    /// Parses a JSON string slice into a `JsonNode` tree.
    ///
    /// Succeeds exactly on the texts the grammar accepts, with the tree the
    /// grammar gives; fails with `EmptyJson` exactly on blank text and with
    /// `CouldntParseNode`, carrying the text verbatim, on all other rejected
    /// text.
    pub fn parse(json: &str) -> (r: Result<JsonNode, JsonNodeError>)
        ensures
            match r {
                Ok(n) => crate::grammar::parse_spec(json@) == Some(n@),
                Err(JsonNodeError::EmptyJson(p)) => crate::text::trim(json@).len() == 0 && p
                    is None,
                Err(JsonNodeError::CouldntParseNode(t)) => crate::text::trim(json@).len() > 0
                    && crate::grammar::parse_spec(json@) is None && t@ == json@,
                Err(_) => false,
            },
    {
        crate::json_parser::JsonNodeParser::parse_node(json, None)
    }

    /// Whether the node is an object.
    pub fn is_object(&self) -> (r: bool)
        ensures
            r == (self@ matches JsonModel::Object(_)),
    {
        match self {
            JsonNode::Object(_) => true,
            _ => false,
        }
    }

    /// Whether the node is an array.
    pub fn is_array(&self) -> (r: bool)
        ensures
            r == (self@ matches JsonModel::Array(_)),
    {
        match self {
            JsonNode::Array(_) => true,
            _ => false,
        }
    }

    /// The property map inside the node, if it is an object.
    pub fn as_object(&self) -> (r: Option<&JsonPropertyMap>)
        ensures
            match r {
                Some(m) => self@ == JsonModel::Object(m@),
                None => !(self@ matches JsonModel::Object(_)),
            },
    {
        match self {
            JsonNode::Object(object) => Some(object),
            _ => None,
        }
    }

    /// The element vector inside the node, if it is an array.
    pub fn as_array(&self) -> (r: Option<&Vec<JsonNode>>)
        ensures
            match r {
                Some(a) => self@ == JsonModel::Array(nodes_view(a@)),
                None => !(self@ matches JsonModel::Array(_)),
            },
    {
        match self {
            JsonNode::Array(array) => Some(array),
            _ => None,
        }
    }

    /// The property map inside the node as a mutable value, if it is an
    /// object.
    pub fn as_object_mut(&mut self) -> (r: Option<&mut JsonPropertyMap>)
        ensures
            match r {
                Some(m) => old(self)@ == JsonModel::Object((*m)@) && final(self)@
                    == JsonModel::Object((*final(m))@),
                None => !(old(self)@ matches JsonModel::Object(_)) && *final(self) == *old(self),
            },
    {
        match self {
            JsonNode::Object(object) => Some(object),
            _ => None,
        }
    }

    /// The element vector inside the node as a mutable value, if it is an
    /// array.
    pub fn as_array_mut(&mut self) -> (r: Option<&mut Vec<JsonNode>>)
        ensures
            match r {
                Some(a) => old(self)@ == JsonModel::Array(nodes_view((*a)@)) && final(self)@
                    == JsonModel::Array(nodes_view((*final(a))@)),
                None => !(old(self)@ matches JsonModel::Array(_)) && *final(self) == *old(self),
            },
    {
        match self {
            JsonNode::Array(array) => Some(array),
            _ => None,
        }
    }

    /// Whether the node is a string scalar.
    pub fn is_string(&self) -> (r: bool)
        ensures
            r == (self@ matches JsonModel::Text(_)),
    {
        match self {
            JsonNode::String(_) => true,
            _ => false,
        }
    }

    /// Whether the node is an integer scalar.
    pub fn is_integer(&self) -> (r: bool)
        ensures
            r == (self@ matches JsonModel::Integer(_)),
    {
        match self {
            JsonNode::Integer(_) => true,
            _ => false,
        }
    }

    /// Whether the node is a float scalar.
    pub fn is_float(&self) -> (r: bool)
        ensures
            r == (self@ matches JsonModel::Float(_)),
    {
        match self {
            JsonNode::Float(_) => true,
            _ => false,
        }
    }

    /// Whether the node is a boolean scalar.
    pub fn is_bool(&self) -> (r: bool)
        ensures
            r == (self@ matches JsonModel::Boolean(_)),
    {
        match self {
            JsonNode::Boolean(_) => true,
            _ => false,
        }
    }

    /// Whether the node is the null scalar.
    pub fn is_null(&self) -> (r: bool)
        ensures
            r == (self@ matches JsonModel::Null),
    {
        match self {
            JsonNode::Null => true,
            _ => false,
        }
    }

    /// The text inside the node, if it is a string scalar.
    pub fn as_string(&self) -> (r: Option<&str>)
        ensures
            match r {
                Some(t) => self@ == JsonModel::Text(t@),
                None => !(self@ matches JsonModel::Text(_)),
            },
    {
        match self {
            JsonNode::String(value) => Some(value.as_str()),
            _ => None,
        }
    }

    /// The value inside the node, if it is an integer scalar.
    pub fn as_integer(&self) -> (r: Option<&i64>)
        ensures
            match r {
                Some(v) => self@ == JsonModel::Integer(*v as int),
                None => !(self@ matches JsonModel::Integer(_)),
            },
    {
        match self {
            JsonNode::Integer(value) => Some(value),
            _ => None,
        }
    }

    /// The literal text inside the node, if it is a float scalar.
    pub fn as_float(&self) -> (r: Option<&String>)
        ensures
            match r {
                Some(t) => self@ == JsonModel::Float(t@),
                None => !(self@ matches JsonModel::Float(_)),
            },
    {
        match self {
            JsonNode::Float(value) => Some(value),
            _ => None,
        }
    }

    /// The value inside the node, if it is a boolean scalar.
    pub fn as_boolean(&self) -> (r: Option<&bool>)
        ensures
            match r {
                Some(b) => self@ == JsonModel::Boolean(*b),
                None => !(self@ matches JsonModel::Boolean(_)),
            },
    {
        match self {
            JsonNode::Boolean(value) => Some(value),
            _ => None,
        }
    }

    /// The text inside the node as a mutable value, if it is a string scalar.
    pub fn as_string_mut(&mut self) -> (r: Option<&mut String>)
        ensures
            match r {
                Some(t) => old(self)@ == JsonModel::Text((*t)@) && final(self)@ == JsonModel::Text(
                    (*final(t))@,
                ),
                None => !(old(self)@ matches JsonModel::Text(_)) && *final(self) == *old(self),
            },
    {
        match self {
            JsonNode::String(value) => Some(value),
            _ => None,
        }
    }

    /// The value inside the node as a mutable value, if it is an integer
    /// scalar.
    pub fn as_integer_mut(&mut self) -> (r: Option<&mut i64>)
        ensures
            match r {
                Some(v) => old(self)@ == JsonModel::Integer(*v as int) && final(self)@
                    == JsonModel::Integer(*final(v) as int),
                None => !(old(self)@ matches JsonModel::Integer(_)) && *final(self) == *old(self),
            },
    {
        match self {
            JsonNode::Integer(value) => Some(value),
            _ => None,
        }
    }

    /// The literal text inside the node as a mutable value, if it is a float
    /// scalar.
    pub fn as_float_mut(&mut self) -> (r: Option<&mut String>)
        ensures
            match r {
                Some(t) => old(self)@ == JsonModel::Float((*t)@) && final(self)@
                    == JsonModel::Float((*final(t))@),
                None => !(old(self)@ matches JsonModel::Float(_)) && *final(self) == *old(self),
            },
    {
        match self {
            JsonNode::Float(value) => Some(value),
            _ => None,
        }
    }

    /// The value inside the node as a mutable value, if it is a boolean
    /// scalar.
    pub fn as_boolean_mut(&mut self) -> (r: Option<&mut bool>)
        ensures
            match r {
                Some(b) => old(self)@ == JsonModel::Boolean(*b) && final(self)@
                    == JsonModel::Boolean(*final(b)),
                None => !(old(self)@ matches JsonModel::Boolean(_)) && *final(self) == *old(self),
            },
    {
        match self {
            JsonNode::Boolean(value) => Some(value),
            _ => None,
        }
    }

    /// Writes the compact serialization of the node after `out`.
    pub(crate) fn write_json(&self, out: &mut String)
        ensures
            final(out)@ == old(out)@ + crate::model::ser(self@),
        decreases *self,
    {
        match self {
            JsonNode::Object(m) => {
                m.write_json(out);
            },
            JsonNode::Array(a) => {
                proof {
                    reveal_strlit("[");
                    reveal_strlit("]");
                    reveal_strlit(",");
                    assert("["@ =~= seq!['[']);
                    assert("]"@ =~= seq![']']);
                    assert(","@ =~= seq![',']);
                    lemma_nodes_view(a@);
                }
                let ghost vs = nodes_view(a@);
                out.append("[");
                let ghost start = out@;
                let n = a.len();
                let mut i: usize = 0;
                while i < n
                    invariant
                        *self == JsonNode::Array(*a),
                        i <= n == a@.len(),
                        vs == nodes_view(a@),
                        vs.len() == n,
                        forall|j: int| 0 <= j < n ==> #[trigger] vs[j] == node_view(a@[j]),
                        i == 0 ==> out@ == start,
                        i > 0 ==> out@ == start + crate::model::ser_elems(
                            vs.subrange(0, i as int),
                        ),
                    decreases n - i,
                {
                    let ghost pre = vs.subrange(0, i as int);
                    if i > 0 {
                        out.append(",");
                        proof {
                            reveal_strlit(",");
                            assert(","@ =~= seq![',']);
                        }
                    }
                    proof {
                        assert(*self == JsonNode::Array(*a));
                        assert((*self)->Array_0 == *a);
                        assert(decreases_to!(*self => (*self)->Array_0));
                        assert(decreases_to!(*a => a@));
                        assert(decreases_to!(a@ => a@[i as int]));
                    }
                    a[i].write_json(out);
                    proof {
                        crate::model::lemma_ser_elems_snoc(pre, vs[i as int]);
                        assert(vs.subrange(0, i + 1) =~= pre.push(vs[i as int]));
                        if i == 0 {
                            assert(out@ =~= start + crate::model::ser_elems(
                                vs.subrange(0, i + 1),
                            ));
                        } else {
                            assert(start + crate::model::ser_elems(pre) + ","@ + crate::model::ser(
                                vs[i as int],
                            ) =~= start + (crate::model::ser_elems(pre) + seq![',']
                                + crate::model::ser(vs[i as int])));
                        }
                    }
                    i += 1;
                }
                proof {
                    if n > 0 {
                        assert(vs.subrange(0, n as int) =~= vs);
                    } else {
                        assert(crate::model::ser_elems(vs) =~= Seq::<char>::empty());
                        assert(out@ =~= start + crate::model::ser_elems(vs));
                    }
                }
                out.append("]");
                proof {
                    assert(old(out)@ + "["@ + crate::model::ser_elems(vs) + "]"@ =~= old(out)@ + (
                    seq!['['] + crate::model::ser_elems(vs) + seq![']']));
                }
            },
            JsonNode::String(t) => {
                proof {
                    reveal_strlit("\"");
                    assert("\""@ =~= seq!['"']);
                }
                out.append("\"");
                out.append(t.as_str());
                out.append("\"");
                proof {
                    assert(old(out)@ + "\""@ + t@ + "\""@ =~= old(out)@ + (seq!['"'] + t@
                        + seq!['"']));
                }
            },
            JsonNode::Integer(v) => {
                crate::numbers::push_i64_dec(*v, out);
            },
            JsonNode::Float(t) => {
                out.append(t.as_str());
            },
            JsonNode::Boolean(b) => {
                if *b {
                    out.append("true");
                    proof {
                        reveal_strlit("true");
                        assert("true"@ =~= seq!['t', 'r', 'u', 'e']);
                    }
                } else {
                    out.append("false");
                    proof {
                        reveal_strlit("false");
                        assert("false"@ =~= seq!['f', 'a', 'l', 's', 'e']);
                    }
                }
            },
            JsonNode::Null => {
                out.append("null");
                proof {
                    reveal_strlit("null");
                    assert("null"@ =~= seq!['n', 'u', 'l', 'l']);
                }
            },
        }
    }

    /// Serializes the node tree as compact JSON text: no spaces, no
    /// new-lines.
    pub fn to_json_string(&self) -> (r: String)
        ensures
            r@ == crate::model::ser(self@),
    {
        let mut out = String::new();
        self.write_json(&mut out);
        proof {
            assert(Seq::<char>::empty() + crate::model::ser(self@) =~= crate::model::ser(self@));
        }
        out
    }
}

impl Clone for JsonNode {
    /// A deep copy: the clone has the same abstract value as the original.
    fn clone(&self) -> (r: Self)
        ensures
            r@ == self@,
        decreases *self,
    {
        match self {
            JsonNode::Object(m) => JsonNode::Object(m.clone()),
            JsonNode::Array(a) => {
                let mut out: Vec<JsonNode> = Vec::new();
                let n = a.len();
                let mut i: usize = 0;
                proof {
                    lemma_nodes_view(a@);
                }
                while i < n
                    invariant
                        *self == JsonNode::Array(*a),
                        i <= n == a@.len(),
                        out@.len() == i,
                        forall|j: int|
                            0 <= j < i ==> node_view(#[trigger] out@[j]) == node_view(a@[j]),
                    decreases n - i,
                {
                    proof {
                        assert((*self)->Array_0 == *a);
                        assert(decreases_to!(*self => (*self)->Array_0));
                        assert(decreases_to!(*a => a@));
                        assert(decreases_to!(a@ => a@[i as int]));
                    }
                    let c = a[i].clone();
                    out.push(c);
                    i += 1;
                }
                proof {
                    lemma_nodes_view(out@);
                    lemma_nodes_view(a@);
                    assert(nodes_view(out@) =~= nodes_view(a@));
                }
                JsonNode::Array(out)
            },
            JsonNode::String(t) => JsonNode::String(t.clone()),
            JsonNode::Integer(v) => JsonNode::Integer(*v),
            JsonNode::Float(t) => JsonNode::Float(t.clone()),
            JsonNode::Boolean(b) => JsonNode::Boolean(*b),
            JsonNode::Null => JsonNode::Null,
        }
    }
}

} // verus!
