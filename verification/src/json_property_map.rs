//! The property map backing a JSON object: an ordered association list of
//! (name, node) pairs. Insertion order is preserved and is the serialization
//! order; `add` keeps names unique, but a map built by direct construction
//! may hold repeats, which `remove` detects.

use vstd::prelude::*;
use crate::json_node::{
    entries_view, lemma_entries_view, lemma_entries_view_push, lemma_entries_view_remove,
    lemma_entries_view_update, node_view, JsonNode,
};
use crate::json_node_error::JsonNodeError;
use crate::model::JsonModel;
use crate::text::str_eq;

verus! {

broadcast use vstd::seq::group_seq_axioms;

/// An ordered collection of (name, node) pairs representing a JSON object's
/// members.
#[derive(Debug, PartialEq)]
pub struct JsonPropertyMap(pub Vec<(String, JsonNode)>);

impl View for JsonPropertyMap {
    type V = Seq<(Seq<char>, JsonModel)>;

    open spec fn view(&self) -> Seq<(Seq<char>, JsonModel)> {
        entries_view(self.0@)
    }
}

/// The value of the first entry named `k`, if any: lookup scans in insertion
/// order.
pub open spec fn lookup(v: Seq<(Seq<char>, JsonModel)>, k: Seq<char>) -> Option<JsonModel>
    decreases v.len(),
{
    if v.len() == 0 {
        None
    } else if v[0].0 == k {
        Some(v[0].1)
    } else {
        lookup(v.drop_first(), k)
    }
}

pub open spec fn has_key(v: Seq<(Seq<char>, JsonModel)>, k: Seq<char>) -> bool {
    exists|i: int| 0 <= i < v.len() && (#[trigger] v[i]).0 == k
}

/// How many entries carry the name `k`.
pub open spec fn count_key(v: Seq<(Seq<char>, JsonModel)>, k: Seq<char>) -> int
    decreases v.len(),
{
    if v.len() == 0 {
        0
    } else {
        count_key(v.drop_first(), k) + if v[0].0 == k {
            1int
        } else {
            0int
        }
    }
}

/// The position of the first entry named `k`; the length where there is none.
pub open spec fn first_key_idx(v: Seq<(Seq<char>, JsonModel)>, k: Seq<char>) -> int
    decreases v.len(),
{
    if v.len() == 0 {
        0
    } else if v[0].0 == k {
        0
    } else {
        1 + first_key_idx(v.drop_first(), k)
    }
}

/// Lookup finds the value at the first position whose name matches: if no
/// name among the first `i` entries is `k` and entry `i` (when it exists)
/// carries `k`, lookup yields that entry's value, or nothing past the end.
pub proof fn lemma_lookup_first(v: Seq<(Seq<char>, JsonModel)>, k: Seq<char>, i: int)
    requires
        0 <= i <= v.len(),
        forall|j: int| 0 <= j < i ==> (#[trigger] v[j]).0 != k,
        i < v.len() ==> v[i].0 == k,
    ensures
        lookup(v, k) == if i < v.len() {
            Some(v[i].1)
        } else {
            None
        },
        first_key_idx(v, k) == i,
        has_key(v, k) == (i < v.len()),
    decreases v.len(),
{
    if v.len() > 0 {
        if v[0].0 == k {
            assert(i == 0);
        } else {
            let d = v.drop_first();
            assert(forall|j: int| 0 <= j < i - 1 ==> (#[trigger] d[j]).0 != k);
            lemma_lookup_first(d, k, i - 1);
            if i < v.len() {
                assert(has_key(v, k)) by {
                    assert(v[i].0 == k);
                }
            } else {
                if has_key(v, k) {
                    let w = choose|j: int| 0 <= j < v.len() && (#[trigger] v[j]).0 == k;
                    assert(v[w].0 != k);
                }
            }
        }
    }
}

/// The count of a name is zero exactly when no entry carries it.
pub proof fn lemma_count_key_zero(v: Seq<(Seq<char>, JsonModel)>, k: Seq<char>)
    ensures
        (count_key(v, k) == 0) == !has_key(v, k),
        count_key(v, k) >= 0,
    decreases v.len(),
{
    if v.len() > 0 {
        let d = v.drop_first();
        lemma_count_key_zero(d, k);
        if v[0].0 == k {
            assert(has_key(v, k));
        } else {
            if has_key(v, k) {
                let w = choose|j: int| 0 <= j < v.len() && (#[trigger] v[j]).0 == k;
                assert(d[w - 1].0 == k);
                assert(has_key(d, k));
            }
            if has_key(d, k) {
                let w = choose|j: int| 0 <= j < d.len() && (#[trigger] d[j]).0 == k;
                assert(v[w + 1].0 == k);
                assert(has_key(v, k));
            }
        }
    }
}

/// Counting a name over a prefix and the rest adds up.
pub proof fn lemma_count_key_split(v: Seq<(Seq<char>, JsonModel)>, k: Seq<char>, i: int)
    requires
        0 <= i <= v.len(),
    ensures
        count_key(v, k) == count_key(v.subrange(0, i), k) + count_key(
            v.subrange(i, v.len() as int),
            k,
        ),
    decreases i,
{
    if i == 0 {
        assert(v.subrange(0, 0) =~= Seq::<(Seq<char>, JsonModel)>::empty());
        assert(v.subrange(0, v.len() as int) =~= v);
    } else {
        let d = v.drop_first();
        lemma_count_key_split(d, k, i - 1);
        assert(v.subrange(0, i).drop_first() =~= d.subrange(0, i - 1));
        assert(v.subrange(i, v.len() as int) =~= d.subrange(i - 1, d.len() as int));
        assert(v.subrange(0, i)[0] == v[0]);
    }
}

proof fn lemma_count_key_one(x: (Seq<char>, JsonModel), k: Seq<char>)
    ensures
        count_key(seq![x], k) == if x.0 == k {
            1int
        } else {
            0int
        },
{
    assert(seq![x].drop_first() =~= Seq::<(Seq<char>, JsonModel)>::empty());
    assert(count_key(Seq::<(Seq<char>, JsonModel)>::empty(), k) == 0);
    assert(seq![x][0] == x);
}

/// First write wins. Adding a fresh name puts it in the map with its value,
/// and lookup then finds that value; since `add` leaves a map holding the
/// name unchanged, a later `add` of the same name cannot overwrite the first
/// value.
pub proof fn lemma_first_write_wins(w: Seq<(Seq<char>, JsonModel)>, k: Seq<char>, v: JsonModel)
    requires
        !has_key(w, k),
    ensures
        has_key(w.push((k, v)), k),
        lookup(w.push((k, v)), k) == Some(v),
        first_key_idx(w.push((k, v)), k) == w.len(),
{
    let w2 = w.push((k, v));
    assert(w2[w.len() as int] == (k, v));
    assert forall|j: int| 0 <= j < w.len() implies (#[trigger] w2[j]).0 != k by {
        assert(w2[j] == w[j]);
        if w[j].0 == k {
            assert(has_key(w, k));
        }
    }
    lemma_lookup_first(w2, k, w.len() as int);
}

impl JsonPropertyMap {
    /// Creates an empty property map.
    pub fn new() -> (r: Self)
        ensures
            r@ == Seq::<(Seq<char>, JsonModel)>::empty(),
    {
        JsonPropertyMap(Vec::new())
    }

    /// The number of properties in the map.
    pub fn len(&self) -> (r: usize)
        ensures
            r == self@.len(),
    {
        proof {
            lemma_entries_view(self.0@);
        }
        self.0.len()
    }

    /// Whether the map holds no properties.
    pub fn is_empty(&self) -> (r: bool)
        ensures
            r == (self@.len() == 0),
    {
        self.len() == 0
    }

    /// The entry at a position, in insertion order.
    pub fn at(&self, index: usize) -> (r: &(String, JsonNode))
        requires
            index < self@.len(),
        ensures
            self@[index as int].0 == r.0@,
            self@[index as int].1 == node_view(r.1),
    {
        proof {
            lemma_entries_view(self.0@);
        }
        &self.0[index]
    }

    /// The entry at a position as a mutable value; mutable iteration walks
    /// the positions.
    pub fn at_mut(&mut self, index: usize) -> (r: &mut (String, JsonNode))
        requires
            index < old(self)@.len(),
        ensures
            old(self)@[index as int].0 == r.0@,
            old(self)@[index as int].1 == node_view(r.1),
            final(self)@ == old(self)@.update(
                index as int,
                (final(r).0@, node_view(final(r).1)),
            ),
    {
        proof {
            lemma_entries_view(self.0@);
        }
        let ghost old_entries = self.0@;
        let r = &mut self.0[index];
        proof {
            lemma_entries_view_update(old_entries, index as int, *final(r));
        }
        r
    }

    /// The node associated with a name: a linear scan that returns the first
    /// match, or nothing if the name is absent.
    pub fn get(&self, property_name: &str) -> (r: Option<&JsonNode>)
        ensures
            match r {
                Some(n) => lookup(self@, property_name@) == Some(node_view(*n)),
                None => lookup(self@, property_name@) is None,
            },
    {
        proof {
            lemma_entries_view(self.0@);
        }
        let n = self.0.len();
        let mut i: usize = 0;
        while i < n
            invariant
                i <= n == self.0@.len(),
                self@ == entries_view(self.0@),
                self@.len() == n,
                forall|j: int| 0 <= j < self@.len() ==> #[trigger] self@[j] == (
                    self.0@[j].0@,
                    node_view(self.0@[j].1),
                ),
                forall|j: int| 0 <= j < i ==> (#[trigger] self@[j]).0 != property_name@,
            decreases n - i,
        {
            if str_eq(self.0[i].0.as_str(), property_name) {
                proof {
                    lemma_lookup_first(self@, property_name@, i as int);
                }
                return Some(&self.0[i].1);
            }
            i += 1;
        }
        proof {
            lemma_lookup_first(self@, property_name@, n as int);
        }
        None
    }

    /// The node associated with a name as a mutable value: the first match,
    /// or nothing if the name is absent.
    pub fn get_mut(&mut self, property_name: &str) -> (r: Option<&mut JsonNode>)
        ensures
            match r {
                Some(p) => {
                    let idx = first_key_idx(old(self)@, property_name@);
                    &&& has_key(old(self)@, property_name@)
                    &&& lookup(old(self)@, property_name@) == Some(node_view(*p))
                    &&& final(self)@ == old(self)@.update(
                        idx,
                        (old(self)@[idx].0, node_view(*final(p))),
                    )
                },
                None => !has_key(old(self)@, property_name@) && *final(self) == *old(self),
            },
    {
        proof {
            lemma_entries_view(self.0@);
        }
        let n = self.0.len();
        let mut i: usize = 0;
        while i < n
            invariant
                i <= n == self.0@.len(),
                *self == *old(self),
                self@ == entries_view(self.0@),
                self@.len() == n,
                forall|j: int| 0 <= j < self@.len() ==> #[trigger] self@[j] == (
                    self.0@[j].0@,
                    node_view(self.0@[j].1),
                ),
                forall|j: int| 0 <= j < i ==> (#[trigger] self@[j]).0 != property_name@,
            decreases n - i,
        {
            if str_eq(self.0[i].0.as_str(), property_name) {
                proof {
                    lemma_lookup_first(self@, property_name@, i as int);
                }
                let ghost old_entries = self.0@;
                let pair = &mut self.0[i];
                let p = &mut pair.1;
                proof {
                    lemma_entries_view_update(
                        old_entries,
                        i as int,
                        (old_entries[i as int].0, *final(p)),
                    );
                }
                return Some(p);
            }
            i += 1;
        }
        proof {
            lemma_lookup_first(self@, property_name@, n as int);
        }
        None
    }

    /// Adds a mapping unless the name is already present, in which case the
    /// call is a silent no-op: the first write wins.
    pub fn add(&mut self, property_name: &str, json_node: JsonNode)
        ensures
            has_key(old(self)@, property_name@) ==> *final(self) == *old(self),
            !has_key(old(self)@, property_name@) ==> final(self)@ == old(self)@.push(
                (property_name@, node_view(json_node)),
            ),
    {
        if self.contains_property(property_name) {
            return ;
        }
        proof {
            lemma_entries_view(self.0@);
        }
        let ghost before = self.0@;
        let key = String::from_str(property_name);
        let ghost entry = (key, json_node);
        self.0.push((key, json_node));
        proof {
            lemma_entries_view_push(before, entry);
            assert(self.0@ == before.push(entry));
        }
    }

    /// Removes the mapping for a name and returns its node. With several
    /// entries of that name the call fails with `MultiplePropertiesWithSameKey`;
    /// with none it fails with `KeyNotFound`; the map is unchanged on failure.
    pub fn remove(&mut self, property_name: &str) -> (r: Result<JsonNode, JsonNodeError>)
        ensures
            count_key(old(self)@, property_name@) > 1 ==> (r matches Err(
                JsonNodeError::MultiplePropertiesWithSameKey(t),
            ) && t@ == property_name@) && *final(self) == *old(self),
            count_key(old(self)@, property_name@) == 0 ==> (r matches Err(
                JsonNodeError::KeyNotFound(t),
            ) && t@ == property_name@) && *final(self) == *old(self),
            count_key(old(self)@, property_name@) == 1 ==> (r matches Ok(n)
                && Some(node_view(n)) == lookup(old(self)@, property_name@) && final(self)@
                == old(self)@.remove(first_key_idx(old(self)@, property_name@))),
    {
        proof {
            lemma_entries_view(self.0@);
            lemma_count_key_zero(self@, property_name@);
        }
        let n = self.0.len();
        let mut count: usize = 0;
        let mut i: usize = 0;
        while i < n
            invariant
                i <= n == self.0@.len(),
                count <= i,
                *self == *old(self),
                self@ == entries_view(self.0@),
                self@.len() == n,
                forall|j: int| 0 <= j < self@.len() ==> #[trigger] self@[j] == (
                    self.0@[j].0@,
                    node_view(self.0@[j].1),
                ),
                count == count_key(self@.subrange(0, i as int), property_name@),
            decreases n - i,
        {
            proof {
                lemma_count_key_split(self@.subrange(0, i + 1), property_name@, i as int);
                assert(self@.subrange(0, i + 1).subrange(0, i as int) =~= self@.subrange(
                    0,
                    i as int,
                ));
                assert(self@.subrange(0, i + 1).subrange(i as int, i + 1) =~= seq![
                    self@[i as int],
                ]);
                lemma_count_key_one(self@[i as int], property_name@);
            }
            if str_eq(self.0[i].0.as_str(), property_name) {
                count += 1;
            }
            i += 1;
        }
        proof {
            assert(self@.subrange(0, n as int) =~= self@);
        }
        if count > 1 {
            return Err(
                JsonNodeError::MultiplePropertiesWithSameKey(String::from_str(property_name)),
            );
        }
        if count == 0 {
            return Err(JsonNodeError::KeyNotFound(String::from_str(property_name)));
        }
        let mut i: usize = 0;
        while i < n
            invariant
                i <= n == self.0@.len(),
                *self == *old(self),
                self@ == entries_view(self.0@),
                self@.len() == n,
                count_key(self@, property_name@) == 1,
                forall|j: int| 0 <= j < self@.len() ==> #[trigger] self@[j] == (
                    self.0@[j].0@,
                    node_view(self.0@[j].1),
                ),
                forall|j: int| 0 <= j < i ==> (#[trigger] self@[j]).0 != property_name@,
            decreases n - i,
        {
            if str_eq(self.0[i].0.as_str(), property_name) {
                proof {
                    lemma_lookup_first(self@, property_name@, i as int);
                }
                let ghost before = self.0@;
                let entry = self.0.remove(i);
                proof {
                    lemma_entries_view_remove(before, i as int);
                }
                return Ok(entry.1);
            }
            i += 1;
        }
        proof {
            lemma_lookup_first(self@, property_name@, n as int);
            lemma_count_key_zero(self@, property_name@);
        }
        Err(JsonNodeError::KeyNotFound(String::from_str(property_name)))
    }

    /// Whether a property with the given name exists.
    pub fn contains_property(&self, property_name: &str) -> (r: bool)
        ensures
            r == has_key(self@, property_name@),
    {
        proof {
            lemma_entries_view(self.0@);
        }
        let n = self.0.len();
        let mut i: usize = 0;
        while i < n
            invariant
                i <= n == self.0@.len(),
                self@ == entries_view(self.0@),
                self@.len() == n,
                forall|j: int| 0 <= j < self@.len() ==> #[trigger] self@[j] == (
                    self.0@[j].0@,
                    node_view(self.0@[j].1),
                ),
                forall|j: int| 0 <= j < i ==> (#[trigger] self@[j]).0 != property_name@,
            decreases n - i,
        {
            if str_eq(self.0[i].0.as_str(), property_name) {
                proof {
                    assert(self@[i as int].0 == property_name@);
                }
                return true;
            }
            i += 1;
        }
        proof {
            if has_key(self@, property_name@) {
                let w = choose|j: int| 0 <= j < self@.len() && (#[trigger] self@[j]).0
                    == property_name@;
                assert(self@[w].0 != property_name@);
            }
        }
        false
    }

    /// All property names, in insertion order.
    pub fn property_names(&self) -> (r: Vec<&String>)
        ensures
            r@.len() == self@.len(),
            forall|i: int| 0 <= i < r@.len() ==> (#[trigger] r@[i])@ == self@[i].0,
    {
        proof {
            lemma_entries_view(self.0@);
        }
        let n = self.0.len();
        let mut out: Vec<&String> = Vec::new();
        let mut i: usize = 0;
        while i < n
            invariant
                i <= n == self.0@.len(),
                self@ == entries_view(self.0@),
                self@.len() == n,
                forall|j: int| 0 <= j < self@.len() ==> #[trigger] self@[j] == (
                    self.0@[j].0@,
                    node_view(self.0@[j].1),
                ),
                out@.len() == i,
                forall|j: int| 0 <= j < i ==> (#[trigger] out@[j])@ == self@[j].0,
            decreases n - i,
        {
            out.push(&self.0[i].0);
            i += 1;
        }
        out
    }

    /// All child nodes, in insertion order.
    pub fn nodes(&self) -> (r: Vec<&JsonNode>)
        ensures
            r@.len() == self@.len(),
            forall|i: int| 0 <= i < r@.len() ==> node_view(*#[trigger] r@[i]) == self@[i].1,
    {
        proof {
            lemma_entries_view(self.0@);
        }
        let n = self.0.len();
        let mut out: Vec<&JsonNode> = Vec::new();
        let mut i: usize = 0;
        while i < n
            invariant
                i <= n == self.0@.len(),
                self@ == entries_view(self.0@),
                self@.len() == n,
                forall|j: int| 0 <= j < self@.len() ==> #[trigger] self@[j] == (
                    self.0@[j].0@,
                    node_view(self.0@[j].1),
                ),
                out@.len() == i,
                forall|j: int| 0 <= j < i ==> node_view(*#[trigger] out@[j]) == self@[j].1,
            decreases n - i,
        {
            out.push(&self.0[i].1);
            i += 1;
        }
        out
    }

    /// Writes the compact serialization of the object after `out`: brace-
    /// wrapped `"name":value` members joined by commas.
    pub(crate) fn write_json(&self, out: &mut String)
        ensures
            final(out)@ == old(out)@ + seq!['{'] + crate::model::ser_props(self@) + seq!['}'],
        decreases *self,
    {
        proof {
            reveal_strlit("{");
            reveal_strlit("}");
            reveal_strlit(",");
            reveal_strlit("\"");
            reveal_strlit("\":");
            assert("{"@ =~= seq!['{']);
            assert("}"@ =~= seq!['}']);
            assert(","@ =~= seq![',']);
            assert("\""@ =~= seq!['"']);
            assert("\":"@ =~= seq!['"', ':']);
            lemma_entries_view(self.0@);
        }
        let ghost vs = self@;
        out.append("{");
        let ghost start = out@;
        let n = self.0.len();
        let mut i: usize = 0;
        while i < n
            invariant
                i <= n == self.0@.len(),
                vs == self@,
                self@ == entries_view(self.0@),
                vs.len() == n,
                forall|j: int| 0 <= j < n ==> #[trigger] vs[j] == (
                    self.0@[j].0@,
                    node_view(self.0@[j].1),
                ),
                i == 0 ==> out@ == start,
                i > 0 ==> out@ == start + crate::model::ser_props(vs.subrange(0, i as int)),
            decreases n - i,
        {
            let ghost pre = vs.subrange(0, i as int);
            let ghost mark = out@;
            if i > 0 {
                out.append(",");
                proof {
                    reveal_strlit(",");
                    assert(","@ =~= seq![',']);
                }
            }
            out.append("\"");
            out.append(self.0[i].0.as_str());
            out.append("\":");
            self.0[i].1.write_json(out);
            proof {
                reveal_strlit("\"");
                reveal_strlit("\":");
                assert("\""@ =~= seq!['"']);
                assert("\":"@ =~= seq!['"', ':']);
                crate::model::lemma_ser_props_snoc(pre, vs[i as int]);
                assert(vs.subrange(0, i + 1) =~= pre.push(vs[i as int]));
                let member = crate::model::ser_prop(vs[i as int]);
                assert(member == seq!['"'] + vs[i as int].0 + seq!['"', ':'] + crate::model::ser(
                    vs[i as int].1,
                ));
                if i == 0 {
                    assert(out@ =~= start + crate::model::ser_props(vs.subrange(0, i + 1)));
                } else {
                    assert(out@ =~= start + (crate::model::ser_props(pre) + seq![',']
                        + member));
                }
            }
            i += 1;
        }
        proof {
            if n > 0 {
                assert(vs.subrange(0, n as int) =~= vs);
            } else {
                assert(crate::model::ser_props(vs) =~= Seq::<char>::empty());
                assert(out@ =~= start + crate::model::ser_props(vs));
            }
        }
        out.append("}");
        proof {
            assert(old(out)@ + "{"@ + crate::model::ser_props(vs) + "}"@ =~= old(out)@
                + seq!['{'] + crate::model::ser_props(vs) + seq!['}']);
        }
    }

    /// Serializes the object as a compact JSON object string: members joined
    /// by commas, no trailing comma, wrapped in braces; an empty map
    /// serializes to a pair of braces.
    pub fn to_json_string(&self) -> (r: String)
        ensures
            r@ == seq!['{'] + crate::model::ser_props(self@) + seq!['}'],
    {
        let mut out = String::new();
        self.write_json(&mut out);
        proof {
            assert(Seq::<char>::empty() + seq!['{'] + crate::model::ser_props(self@) + seq!['}']
                =~= seq!['{'] + crate::model::ser_props(self@) + seq!['}']);
        }
        out
    }

    /// Clears the map of all mappings.
    pub fn clear(&mut self)
        ensures
            final(self)@ == Seq::<(Seq<char>, JsonModel)>::empty(),
    {
        self.0.clear();
    }
}

impl Clone for JsonPropertyMap {
    /// A deep copy: the clone has the same entries as the original.
    fn clone(&self) -> (r: Self)
        ensures
            r@ == self@,
        decreases *self,
    {
        proof {
            lemma_entries_view(self.0@);
        }
        let mut out: Vec<(String, JsonNode)> = Vec::new();
        let n = self.0.len();
        let mut i: usize = 0;
        while i < n
            invariant
                i <= n == self.0@.len(),
                out@.len() == i,
                forall|j: int|
                    0 <= j < i ==> (#[trigger] out@[j]).0 == self.0@[j].0 && node_view(out@[j].1)
                        == node_view(self.0@[j].1),
            decreases n - i,
        {
            let entry = (self.0[i].0.clone(), self.0[i].1.clone());
            out.push(entry);
            i += 1;
        }
        proof {
            lemma_entries_view(out@);
            lemma_entries_view(self.0@);
            assert(entries_view(out@) =~= entries_view(self.0@));
        }
        JsonPropertyMap(out)
    }
}

impl From<Vec<(String, JsonNode)>> for JsonPropertyMap {
    /// Wraps a plain list of pairs, repeats and all, as a property map.
    fn from(value: Vec<(String, JsonNode)>) -> (r: JsonPropertyMap) {
        JsonPropertyMap(value)
    }
}

impl vstd::std_specs::convert::FromSpecImpl<Vec<(String, JsonNode)>> for JsonPropertyMap {
    open spec fn obeys_from_spec() -> bool {
        true
    }

    open spec fn from_spec(value: Vec<(String, JsonNode)>) -> JsonPropertyMap {
        JsonPropertyMap(value)
    }
}

} // verus!
