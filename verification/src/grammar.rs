//! The grammar: what parsing yields on every character sequence. The
//! executable parser is verified against these functions, and the round-trip
//! law is proved about them.

use vstd::prelude::*;
use crate::model::JsonModel;
use crate::numbers::{i64_val, is_float_str, is_i64_str};
use crate::text::{eq_ig_case, trim};

verus! {

broadcast use vstd::seq::group_seq_axioms;

/// The contribution of one character to the bracket-nesting depth.
pub open spec fn depth_delta(c: char) -> int {
    if c == '{' || c == '[' {
        1
    } else if c == '}' || c == ']' {
        -1
    } else {
        0
    }
}

/// The net bracket-nesting depth over a whole character sequence.
pub open spec fn depth(s: Seq<char>) -> int
    decreases s.len(),
{
    if s.len() == 0 {
        0
    } else {
        depth(s.drop_last()) + depth_delta(s[s.len() - 1])
    }
}

/// A comma at position `i` that splits: one lying at depth zero.
pub open spec fn top_comma_at(s: Seq<char>, i: int) -> bool {
    0 <= i < s.len() && s[i] == ',' && depth(s.subrange(0, i)) == 0
}

pub open spec fn first_top_comma_from(s: Seq<char>, i: int) -> Option<int>
    decreases s.len() - i,
    when 0 <= i <= s.len()
{
    if i == s.len() {
        None
    } else if top_comma_at(s, i) {
        Some(i)
    } else {
        first_top_comma_from(s, i + 1)
    }
}

/// The position of the first depth-zero comma, where array elements and
/// object members are split.
pub open spec fn first_top_comma(s: Seq<char>) -> Option<int> {
    first_top_comma_from(s, 0)
}

pub proof fn lemma_first_top_comma_from(s: Seq<char>, i: int)
    requires
        0 <= i <= s.len(),
    ensures
        match first_top_comma_from(s, i) {
            None => forall|j: int| i <= j < s.len() ==> !top_comma_at(s, j),
            Some(k) => i <= k < s.len() && top_comma_at(s, k) && forall|j: int|
                i <= j < k ==> !top_comma_at(s, j),
        },
    decreases s.len() - i,
{
    if i < s.len() && !top_comma_at(s, i) {
        lemma_first_top_comma_from(s, i + 1);
    }
}

/// Characterizes `first_top_comma` as the least splitting position.
pub proof fn lemma_first_top_comma(s: Seq<char>)
    ensures
        match first_top_comma(s) {
            None => forall|j: int| 0 <= j < s.len() ==> !top_comma_at(s, j),
            Some(k) => 0 <= k < s.len() && top_comma_at(s, k) && forall|j: int|
                0 <= j < k ==> !top_comma_at(s, j),
        },
{
    lemma_first_top_comma_from(s, 0);
}

/// The position of the first colon, where an object member is split into
/// name and value.
pub open spec fn find_colon(s: Seq<char>) -> Option<int>
    decreases s.len(),
{
    if s.len() == 0 {
        None
    } else if s[0] == ':' {
        Some(0)
    } else {
        match find_colon(s.drop_first()) {
            Some(i) => Some(i + 1),
            None => None,
        }
    }
}

/// Characterizes `find_colon` as the position of the first colon.
pub proof fn lemma_find_colon(s: Seq<char>)
    ensures
        match find_colon(s) {
            None => forall|i: int| 0 <= i < s.len() ==> s[i] != ':',
            Some(k) => 0 <= k < s.len() && s[k] == ':' && forall|i: int| 0 <= i < k ==> s[i] != ':',
        },
    decreases s.len(),
{
    if s.len() > 0 && s[0] != ':' {
        let d = s.drop_first();
        lemma_find_colon(d);
        match find_colon(d) {
            None => {
                assert forall|i: int| 0 <= i < s.len() implies s[i] != ':' by {
                    if i > 0 {
                        assert(d[i - 1] == s[i]);
                    }
                }
            },
            Some(k) => {
                assert(s[k + 1] == d[k]);
                assert forall|i: int| 0 <= i < k + 1 implies s[i] != ':' by {
                    if i > 0 {
                        assert(d[i - 1] == s[i]);
                    }
                }
            },
        }
    }
}

/// What parsing yields on a span: the scalar grammars are tried first in
/// their fixed order, then the array grammar, then the object grammar;
/// `None` where the span is blank or matches none of them.
pub open spec fn parse_spec(s: Seq<char>) -> Option<JsonModel>
    decreases s.len(), 0int,
    via parse_spec_dec
{
    let t = trim(s);
    if t.len() == 0 {
        None
    } else if t.len() >= 2 && t[0] == '"' && t[t.len() - 1] == '"' {
        Some(JsonModel::Text(t.subrange(1, t.len() - 1)))
    } else if is_i64_str(t) {
        Some(JsonModel::Integer(i64_val(t)))
    } else if is_float_str(t) {
        Some(JsonModel::Float(t))
    } else if eq_ig_case(t, seq!['t', 'r', 'u', 'e']) {
        Some(JsonModel::Boolean(true))
    } else if eq_ig_case(t, seq!['f', 'a', 'l', 's', 'e']) {
        Some(JsonModel::Boolean(false))
    } else if eq_ig_case(t, seq!['n', 'u', 'l', 'l']) {
        Some(JsonModel::Null)
    } else if t.len() >= 2 && t[0] == '[' && t[t.len() - 1] == ']' {
        let inner = trim(t.subrange(1, t.len() - 1));
        if inner.len() == 0 {
            Some(JsonModel::Array(Seq::empty()))
        } else {
            match parse_elems(inner) {
                Some(es) => Some(JsonModel::Array(es)),
                None => None,
            }
        }
    } else if t.len() >= 2 && t[0] == '{' && t[t.len() - 1] == '}' {
        let inner = trim(t.subrange(1, t.len() - 1));
        if inner.len() == 0 {
            Some(JsonModel::Object(Seq::empty()))
        } else {
            match parse_members(inner) {
                Some(ps) => Some(JsonModel::Object(ps)),
                None => None,
            }
        }
    } else {
        None
    }
}

#[via_fn]
proof fn parse_spec_dec(s: Seq<char>) {
    let t = trim(s);
    crate::text::lemma_trim_len(s);
    if t.len() >= 2 {
        crate::text::lemma_trim_len(t.subrange(1, t.len() - 1));
    }
}

/// The elements of an array interior: the span is split at its depth-zero
/// commas and every piece must parse; an array with a failing piece fails as
/// a whole.
pub open spec fn parse_elems(s: Seq<char>) -> Option<Seq<JsonModel>>
    decreases s.len(), 2int,
    via parse_elems_dec
{
    match first_top_comma(s) {
        None => match parse_spec(s) {
            Some(m) => Some(seq![m]),
            None => None,
        },
        Some(i) => match parse_spec(s.subrange(0, i)) {
            Some(m) => match parse_elems(s.subrange(i + 1, s.len() as int)) {
                Some(rest) => Some(seq![m] + rest),
                None => None,
            },
            None => None,
        },
    }
}

#[via_fn]
proof fn parse_elems_dec(s: Seq<char>) {
    lemma_first_top_comma(s);
}

/// One object member: the trimmed span is split at its first colon; the name
/// part must be a quoted string, whose quotes are stripped, and the value
/// part must parse.
pub open spec fn parse_member(s: Seq<char>) -> Option<(Seq<char>, JsonModel)>
    decreases s.len(), 1int,
    via parse_member_dec
{
    let m = trim(s);
    match find_colon(m) {
        None => None,
        Some(ci) => {
            let name_part = m.subrange(0, ci);
            let value_part = m.subrange(ci + 1, m.len() as int);
            if name_part.len() >= 2 && name_part[0] == '"' && name_part[name_part.len() - 1]
                == '"' {
                match parse_spec(value_part) {
                    Some(v) => Some((name_part.subrange(1, name_part.len() - 1), v)),
                    None => None,
                }
            } else {
                None
            }
        },
    }
}

#[via_fn]
proof fn parse_member_dec(s: Seq<char>) {
    crate::text::lemma_trim_len(s);
    lemma_find_colon(trim(s));
}

/// The members of an object interior, split as array elements are.
pub open spec fn parse_members(s: Seq<char>) -> Option<Seq<(Seq<char>, JsonModel)>>
    decreases s.len(), 2int,
    via parse_members_dec
{
    match first_top_comma(s) {
        None => match parse_member(s) {
            Some(p) => Some(seq![p]),
            None => None,
        },
        Some(i) => match parse_member(s.subrange(0, i)) {
            Some(p) => match parse_members(s.subrange(i + 1, s.len() as int)) {
                Some(rest) => Some(seq![p] + rest),
                None => None,
            },
            None => None,
        },
    }
}

#[via_fn]
proof fn parse_members_dec(s: Seq<char>) {
    lemma_first_top_comma(s);
}

} // verus!
