//! The mathematical model of a JSON tree: a ghost datatype that the contracts
//! of the executable types speak about, the specification of compact
//! serialization, and the scalar-leaf sequence that depth-first traversal
//! yields.

use vstd::prelude::*;
use crate::numbers::{int_dec, is_float_str, is_i64_str};

verus! {

broadcast use vstd::seq::group_seq_axioms;

/// The abstract value of a JSON tree node.
///
/// Scalars are inlined: a string holds its characters, an integer its
/// mathematical value, and a float the characters of its literal text (the
/// library stores float scalars textually). An object holds its properties as
/// a sequence of (name, value) pairs in insertion order; an array holds its
/// elements in order.
pub enum JsonModel {
    Object(Seq<(Seq<char>, JsonModel)>),
    Array(Seq<JsonModel>),
    Text(Seq<char>),
    Integer(int),
    Float(Seq<char>),
    Boolean(bool),
    Null,
}

/// A character with no structural meaning to the grammar: not a quote, comma,
/// colon, brace or bracket.
pub open spec fn plain_char(c: char) -> bool {
    c != '"' && c != ',' && c != ':' && c != '{' && c != '}' && c != '[' && c != ']'
}

pub open spec fn plain_text(t: Seq<char>) -> bool {
    forall|i: int| 0 <= i < t.len() ==> plain_char(t[i])
}

/// A well-formed tree: one whose serialization the parser maps back to the
/// same tree.
///
/// String scalars and property names must hold no structural characters
/// (parsing does not unescape, so serialized structural characters would
/// corrupt the depth count or the split points); integers must fit `i64`;
/// a float's text must lie in the float grammar and outside the integer
/// grammar, or re-parsing would classify it differently.
pub open spec fn wf(m: JsonModel) -> bool
    decreases m,
{
    match m {
        JsonModel::Object(ps) => wf_props(ps),
        JsonModel::Array(es) => wf_elems(es),
        JsonModel::Text(t) => plain_text(t),
        JsonModel::Integer(i) => -0x8000000000000000 <= i <= 0x7fffffffffffffff,
        JsonModel::Float(t) => is_float_str(t) && !is_i64_str(t),
        JsonModel::Boolean(_) => true,
        JsonModel::Null => true,
    }
}

/// Every element of an array is well-formed.
pub open spec fn wf_elems(es: Seq<JsonModel>) -> bool
    decreases es, es.len(),
{
    if es.len() == 0 {
        true
    } else {
        wf(es[0]) && wf_elems(es.drop_first())
    }
}

/// Every member of an object has a plain name and a well-formed value.
pub open spec fn wf_props(ps: Seq<(Seq<char>, JsonModel)>) -> bool
    decreases ps, ps.len(),
{
    if ps.len() == 0 {
        true
    } else {
        plain_text(ps[0].0) && wf(ps[0].1) && wf_props(ps.drop_first())
    }
}

/// `wf_elems` holds exactly when every element is well-formed.
pub proof fn lemma_wf_elems(es: Seq<JsonModel>)
    ensures
        wf_elems(es) == (forall|i: int| 0 <= i < es.len() ==> wf(#[trigger] es[i])),
    decreases es.len(),
{
    if es.len() > 0 {
        let d = es.drop_first();
        lemma_wf_elems(d);
        if wf_elems(es) {
            assert forall|i: int| 0 <= i < es.len() implies wf(#[trigger] es[i]) by {
                if i > 0 {
                    assert(wf(d[i - 1]));
                }
            }
        }
        if forall|i: int| 0 <= i < es.len() ==> wf(#[trigger] es[i]) {
            assert(forall|i: int| 0 <= i < d.len() ==> wf(#[trigger] d[i]));
        }
    }
}

/// `wf_props` holds exactly when every member has a plain name and a
/// well-formed value.
pub proof fn lemma_wf_props(ps: Seq<(Seq<char>, JsonModel)>)
    ensures
        wf_props(ps) == (forall|i: int|
            0 <= i < ps.len() ==> plain_text((#[trigger] ps[i]).0) && wf(ps[i].1)),
    decreases ps.len(),
{
    if ps.len() > 0 {
        let d = ps.drop_first();
        lemma_wf_props(d);
        if wf_props(ps) {
            assert forall|i: int|
                0 <= i < ps.len() implies plain_text((#[trigger] ps[i]).0) && wf(ps[i].1) by {
                if i > 0 {
                    assert(plain_text(d[i - 1].0) && wf(d[i - 1].1));
                }
            }
        }
        if forall|i: int| 0 <= i < ps.len() ==> plain_text((#[trigger] ps[i]).0) && wf(ps[i].1) {
            assert(forall|i: int|
                0 <= i < d.len() ==> plain_text((#[trigger] d[i]).0) && wf(d[i].1));
        }
    }
}

/// The compact serialization of a tree: no inserted whitespace, strings
/// quoted verbatim, floats by their stored text, booleans and null by their
/// lower-case words.
pub open spec fn ser(m: JsonModel) -> Seq<char>
    decreases m,
{
    match m {
        JsonModel::Object(ps) => seq!['{'] + ser_props(ps) + seq!['}'],
        JsonModel::Array(es) => seq!['['] + ser_elems(es) + seq![']'],
        JsonModel::Text(t) => seq!['"'] + t + seq!['"'],
        JsonModel::Integer(i) => int_dec(i),
        JsonModel::Float(t) => t,
        JsonModel::Boolean(b) => if b {
            seq!['t', 'r', 'u', 'e']
        } else {
            seq!['f', 'a', 'l', 's', 'e']
        },
        JsonModel::Null => seq!['n', 'u', 'l', 'l'],
    }
}

/// The serialized elements of an array, joined by commas.
pub open spec fn ser_elems(es: Seq<JsonModel>) -> Seq<char>
    decreases es, es.len(),
{
    if es.len() == 0 {
        Seq::empty()
    } else if es.len() == 1 {
        ser(es[0])
    } else {
        ser(es[0]) + seq![','] + ser_elems(es.drop_first())
    }
}

/// One serialized object member: the quoted name, a colon, the value.
pub open spec fn ser_prop(p: (Seq<char>, JsonModel)) -> Seq<char>
    decreases p,
{
    seq!['"'] + p.0 + seq!['"', ':'] + ser(p.1)
}

/// The serialized members of an object, joined by commas.
pub open spec fn ser_props(ps: Seq<(Seq<char>, JsonModel)>) -> Seq<char>
    decreases ps, ps.len(),
{
    if ps.len() == 0 {
        Seq::empty()
    } else if ps.len() == 1 {
        ser_prop(ps[0])
    } else {
        ser_prop(ps[0]) + seq![','] + ser_props(ps.drop_first())
    }
}

/// Appending one more element extends the joined serialization by a comma
/// and the element's text.
pub proof fn lemma_ser_elems_snoc(w: Seq<JsonModel>, m: JsonModel)
    ensures
        ser_elems(w.push(m)) == if w.len() == 0 {
            ser(m)
        } else {
            ser_elems(w) + seq![','] + ser(m)
        },
    decreases w.len(),
{
    let p = w.push(m);
    if w.len() == 0 {
        assert(p.len() == 1);
        assert(p[0] == m);
    } else {
        assert(p.len() >= 2);
        assert(p[0] == w[0]);
        assert(p.drop_first() =~= w.drop_first().push(m));
        lemma_ser_elems_snoc(w.drop_first(), m);
        if w.len() == 1 {
            assert(w.drop_first().len() == 0);
            assert(ser_elems(p) == ser(w[0]) + seq![','] + ser(m));
        } else {
            assert(ser_elems(p) == ser(w[0]) + seq![','] + (ser_elems(w.drop_first())
                + seq![','] + ser(m)));
            assert(ser(w[0]) + seq![','] + (ser_elems(w.drop_first()) + seq![','] + ser(m)) =~= (
            ser(w[0]) + seq![','] + ser_elems(w.drop_first())) + seq![','] + ser(m));
        }
    }
}

/// Appending one more member extends the joined serialization by a comma and
/// the member's text.
pub proof fn lemma_ser_props_snoc(w: Seq<(Seq<char>, JsonModel)>, p: (Seq<char>, JsonModel))
    ensures
        ser_props(w.push(p)) == if w.len() == 0 {
            ser_prop(p)
        } else {
            ser_props(w) + seq![','] + ser_prop(p)
        },
    decreases w.len(),
{
    let q = w.push(p);
    if w.len() == 0 {
        assert(q.len() == 1);
        assert(q[0] == p);
    } else {
        assert(q.len() >= 2);
        assert(q[0] == w[0]);
        assert(q.drop_first() =~= w.drop_first().push(p));
        lemma_ser_props_snoc(w.drop_first(), p);
        if w.len() == 1 {
            assert(w.drop_first().len() == 0);
            assert(ser_props(q) == ser_prop(w[0]) + seq![','] + ser_prop(p));
        } else {
            assert(ser_props(q) == ser_prop(w[0]) + seq![','] + (ser_props(w.drop_first())
                + seq![','] + ser_prop(p)));
            assert(ser_prop(w[0]) + seq![','] + (ser_props(w.drop_first()) + seq![','] + ser_prop(
                p,
            )) =~= (ser_prop(w[0]) + seq![','] + ser_props(w.drop_first())) + seq![','] + ser_prop(
                p,
            ));
        }
    }
}

/// Whether the tree is a scalar leaf.
pub open spec fn is_scalar(m: JsonModel) -> bool {
    match m {
        JsonModel::Object(_) => false,
        JsonModel::Array(_) => false,
        _ => true,
    }
}

/// The scalar leaves of a tree in depth-first order: array elements and
/// object values in stored order, nested containers flattened.
pub open spec fn leaves(m: JsonModel) -> Seq<JsonModel>
    decreases m,
{
    match m {
        JsonModel::Object(ps) => leaves_props(ps),
        JsonModel::Array(es) => leaves_elems(es),
        _ => seq![m],
    }
}

pub open spec fn leaves_elems(es: Seq<JsonModel>) -> Seq<JsonModel>
    decreases es, es.len(),
{
    if es.len() == 0 {
        Seq::empty()
    } else {
        leaves(es[0]) + leaves_elems(es.drop_first())
    }
}

pub open spec fn leaves_props(ps: Seq<(Seq<char>, JsonModel)>) -> Seq<JsonModel>
    decreases ps, ps.len(),
{
    if ps.len() == 0 {
        Seq::empty()
    } else {
        leaves(ps[0].1) + leaves_props(ps.drop_first())
    }
}

/// The number of nodes in a tree; the measure that bounds a traversal.
pub open spec fn size(m: JsonModel) -> int
    decreases m,
{
    match m {
        JsonModel::Object(ps) => 1 + size_props(ps),
        JsonModel::Array(es) => 1 + size_elems(es),
        _ => 1,
    }
}

pub open spec fn size_elems(es: Seq<JsonModel>) -> int
    decreases es, es.len(),
{
    if es.len() == 0 {
        0
    } else {
        size(es[0]) + size_elems(es.drop_first())
    }
}

pub open spec fn size_props(ps: Seq<(Seq<char>, JsonModel)>) -> int
    decreases ps, ps.len(),
{
    if ps.len() == 0 {
        0
    } else {
        size(ps[0].1) + size_props(ps.drop_first())
    }
}

pub proof fn lemma_size_pos(m: JsonModel)
    ensures
        size(m) >= 1,
        (m matches JsonModel::Array(es) ==> size_elems(es) >= 0),
        (m matches JsonModel::Object(ps) ==> size_props(ps) >= 0),
    decreases m, 0int,
{
    match m {
        JsonModel::Array(es) => {
            lemma_size_elems_nonneg(es);
        },
        JsonModel::Object(ps) => {
            lemma_size_props_nonneg(ps);
        },
        _ => {},
    }
}

pub proof fn lemma_size_elems_nonneg(es: Seq<JsonModel>)
    ensures
        size_elems(es) >= 0,
    decreases es, es.len(),
{
    if es.len() > 0 {
        lemma_size_pos(es[0]);
        lemma_size_elems_nonneg(es.drop_first());
    }
}

pub proof fn lemma_size_props_nonneg(ps: Seq<(Seq<char>, JsonModel)>)
    ensures
        size_props(ps) >= 0,
    decreases ps, ps.len(),
{
    if ps.len() > 0 {
        lemma_size_pos(ps[0].1);
        lemma_size_props_nonneg(ps.drop_first());
    }
}

} // verus!
