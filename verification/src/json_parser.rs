//! The parser: recursive descent over a text span with eager classification.
//! A span is trimmed, tried against the scalar grammars in fixed order, then
//! against the array grammar, then the object grammar; array elements and
//! object members are split at depth-zero commas.

use vstd::prelude::*;
use crate::grammar::{
    depth, first_top_comma, lemma_find_colon, lemma_first_top_comma, find_colon, parse_elems,
    parse_member, parse_members, parse_spec, top_comma_at,
};
use crate::json_node::{entries_view, lemma_entries_view, nodes_view, lemma_nodes_view, JsonNode};
use crate::json_node_error::JsonNodeError;
use crate::json_property_map::JsonPropertyMap;
use crate::numbers::{check_float_range, parse_i64_range};
use crate::text::{span_eq_ignore_case, trim, trim_range};

verus! {

broadcast use vstd::seq::group_seq_axioms;

pub struct JsonNodeParser;

impl JsonNodeParser {
    /// Parses a whole JSON text into a node tree. A blank text fails with
    /// `EmptyJson` carrying the enclosing text, if one was given; a text
    /// matching no grammar fails with `CouldntParseNode` carrying the text
    /// verbatim.
    pub fn parse_node(json_node_as_json_string: &str, parent_node: Option<String>) -> (r: Result<
        JsonNode,
        JsonNodeError,
    >)
        ensures
            match r {
                Ok(n) => parse_spec(json_node_as_json_string@) == Some(n@),
                Err(JsonNodeError::EmptyJson(p)) => trim(json_node_as_json_string@).len() == 0 && (
                match (p, parent_node) {
                    (Some(b), Some(q)) => b@ == q@,
                    (None, None) => true,
                    _ => false,
                }),
                Err(JsonNodeError::CouldntParseNode(t)) => trim(
                    json_node_as_json_string@,
                ).len() > 0 && parse_spec(json_node_as_json_string@) is None && t@
                    == json_node_as_json_string@,
                Err(_) => false,
            },
    {
        let n = json_node_as_json_string.unicode_len();
        proof {
            assert(json_node_as_json_string@.subrange(0, n as int)
                =~= json_node_as_json_string@);
        }
        let (a, b) = trim_range(json_node_as_json_string, 0, n);
        if a == b {
            let ctx = match parent_node {
                Some(p) => Some(Box::new(p)),
                None => None,
            };
            return Err(JsonNodeError::EmptyJson(ctx));
        }
        match Self::parse_span(json_node_as_json_string, 0, n) {
            Some(node) => Ok(node),
            None => Err(
                JsonNodeError::CouldntParseNode(String::from_str(json_node_as_json_string)),
            ),
        }
    }

    /// Parses the span `lo..hi` of `s`: the dispatch that tries each grammar
    /// in order.
    pub(crate) fn parse_span(s: &str, lo: usize, hi: usize) -> (r: Option<JsonNode>)
        requires
            lo <= hi <= s@.len(),
        ensures
            ({
                let t = s@.subrange(lo as int, hi as int);
                match r {
                    Some(n) => parse_spec(t) == Some(n@),
                    None => parse_spec(t) is None,
                }
            }),
        decreases hi - lo, 0int,
    {
        let ghost t0 = s@.subrange(lo as int, hi as int);
        let (a, b) = trim_range(s, lo, hi);
        let ghost t = trim(t0);
        proof {
            assert(t == s@.subrange(a as int, b as int));
        }
        if a == b {
            return None;
        }
        let c0 = s.get_char(a);
        let clast = s.get_char(b - 1);
        proof {
            assert(t[0] == s@[a as int]);
            assert(t[t.len() - 1] == s@[b - 1]);
        }
        if b - a >= 2 && c0 == '"' && clast == '"' {
            let text = String::from_str(s.substring_char(a + 1, b - 1));
            proof {
                assert(t.subrange(1, t.len() - 1) =~= s@.subrange(a + 1, b - 1));
            }
            return Some(JsonNode::String(text));
        }
        match parse_i64_range(s, a, b) {
            Some(v) => {
                return Some(JsonNode::Integer(v));
            },
            None => {},
        }
        if check_float_range(s, a, b) {
            let text = String::from_str(s.substring_char(a, b));
            return Some(JsonNode::Float(text));
        }
        proof {
            reveal_strlit("true");
            reveal_strlit("false");
            reveal_strlit("null");
            assert("true"@ =~= seq!['t', 'r', 'u', 'e']);
            assert("false"@ =~= seq!['f', 'a', 'l', 's', 'e']);
            assert("null"@ =~= seq!['n', 'u', 'l', 'l']);
        }
        if span_eq_ignore_case(s, a, b, "true") {
            return Some(JsonNode::Boolean(true));
        }
        if span_eq_ignore_case(s, a, b, "false") {
            return Some(JsonNode::Boolean(false));
        }
        if span_eq_ignore_case(s, a, b, "null") {
            return Some(JsonNode::Null);
        }
        if b - a >= 2 && c0 == '[' && clast == ']' {
            proof {
                assert(t.subrange(1, t.len() - 1) =~= s@.subrange(a + 1, b - 1));
            }
            let (ia, ib) = trim_range(s, a + 1, b - 1);
            if ia == ib {
                let nodes: Vec<JsonNode> = Vec::new();
                proof {
                    assert(nodes_view(nodes@) =~= Seq::<crate::model::JsonModel>::empty());
                }
                return Some(JsonNode::Array(nodes));
            }
            match Self::parse_elems_span(s, ia, ib) {
                Some(es) => {
                    return Some(JsonNode::Array(es));
                },
                None => {
                    return None;
                },
            }
        }
        if b - a >= 2 && c0 == '{' && clast == '}' {
            proof {
                assert(t.subrange(1, t.len() - 1) =~= s@.subrange(a + 1, b - 1));
            }
            let (ia, ib) = trim_range(s, a + 1, b - 1);
            if ia == ib {
                let map = JsonPropertyMap::new();
                return Some(JsonNode::Object(map));
            }
            match Self::parse_members_span(s, ia, ib) {
                Some(entries) => {
                    let map = JsonPropertyMap(entries);
                    return Some(JsonNode::Object(map));
                },
                None => {
                    return None;
                },
            }
        }
        None
    }

    /// Parses the elements of an array interior, split at depth-zero commas.
    fn parse_elems_span(s: &str, lo: usize, hi: usize) -> (r: Option<Vec<JsonNode>>)
        requires
            lo <= hi <= s@.len(),
        ensures
            ({
                let t = s@.subrange(lo as int, hi as int);
                match r {
                    Some(v) => parse_elems(t) == Some(nodes_view(v@)),
                    None => parse_elems(t) is None,
                }
            }),
        decreases hi - lo, 2int,
    {
        let ghost t = s@.subrange(lo as int, hi as int);
        match Self::find_top_comma(s, lo, hi) {
            None => match Self::parse_span(s, lo, hi) {
                Some(n) => {
                    let mut v: Vec<JsonNode> = Vec::new();
                    v.push(n);
                    proof {
                        lemma_nodes_view(v@);
                        assert(nodes_view(v@) =~= seq![n@]);
                    }
                    Some(v)
                },
                None => None,
            },
            Some(ci) => {
                proof {
                    assert(t.subrange(0, ci - lo) =~= s@.subrange(lo as int, ci as int));
                    assert(t.subrange(ci - lo + 1, t.len() as int) =~= s@.subrange(
                        ci + 1,
                        hi as int,
                    ));
                }
                match Self::parse_span(s, lo, ci) {
                    Some(n) => match Self::parse_elems_span(s, ci + 1, hi) {
                        Some(mut rest) => {
                            let ghost rv = rest@;
                            rest.insert(0, n);
                            proof {
                                lemma_nodes_view(rv);
                                lemma_nodes_view(rest@);
                                assert(rest@ =~= seq![n] + rv);
                                assert(nodes_view(rest@) =~= seq![n@] + nodes_view(rv));
                            }
                            Some(rest)
                        },
                        None => None,
                    },
                    None => None,
                }
            },
        }
    }

    /// Parses one object member: split at the first colon into a quoted name
    /// and a value span.
    fn parse_member_span(s: &str, lo: usize, hi: usize) -> (r: Option<(String, JsonNode)>)
        requires
            lo <= hi <= s@.len(),
        ensures
            ({
                let t = s@.subrange(lo as int, hi as int);
                match r {
                    Some(p) => parse_member(t) == Some((p.0@, p.1@)),
                    None => parse_member(t) is None,
                }
            }),
        decreases hi - lo, 1int,
    {
        let ghost t = s@.subrange(lo as int, hi as int);
        let (a, b) = trim_range(s, lo, hi);
        let ghost m = trim(t);
        proof {
            assert(m == s@.subrange(a as int, b as int));
        }
        match Self::find_colon_span(s, a, b) {
            None => None,
            Some(ci) => {
                proof {
                    assert(m.subrange(0, ci - a) =~= s@.subrange(a as int, ci as int));
                    assert(m.subrange(ci - a + 1, m.len() as int) =~= s@.subrange(
                        ci + 1,
                        b as int,
                    ));
                }
                let ghost name_part = m.subrange(0, ci - a);
                if ci - a >= 2 && s.get_char(a) == '"' && s.get_char(ci - 1) == '"' {
                    proof {
                        assert(name_part[0] == s@[a as int]);
                        assert(name_part[name_part.len() - 1] == s@[ci - 1]);
                        assert(name_part.subrange(1, name_part.len() - 1) =~= s@.subrange(
                            a + 1,
                            ci - 1,
                        ));
                    }
                    match Self::parse_span(s, ci + 1, b) {
                        Some(v) => {
                            let name = String::from_str(s.substring_char(a + 1, ci - 1));
                            Some((name, v))
                        },
                        None => None,
                    }
                } else {
                    proof {
                        if name_part.len() >= 2 {
                            assert(name_part[0] == s@[a as int]);
                            assert(name_part[name_part.len() - 1] == s@[ci - 1]);
                        }
                    }
                    None
                }
            },
        }
    }

    /// Parses the members of an object interior, split at depth-zero commas.
    fn parse_members_span(s: &str, lo: usize, hi: usize) -> (r: Option<Vec<(String, JsonNode)>>)
        requires
            lo <= hi <= s@.len(),
        ensures
            ({
                let t = s@.subrange(lo as int, hi as int);
                match r {
                    Some(v) => parse_members(t) == Some(entries_view(v@)),
                    None => parse_members(t) is None,
                }
            }),
        decreases hi - lo, 2int,
    {
        let ghost t = s@.subrange(lo as int, hi as int);
        match Self::find_top_comma(s, lo, hi) {
            None => match Self::parse_member_span(s, lo, hi) {
                Some(p) => {
                    let ghost pv = (p.0@, p.1@);
                    let mut v: Vec<(String, JsonNode)> = Vec::new();
                    v.push(p);
                    proof {
                        lemma_entries_view(v@);
                        assert(entries_view(v@) =~= seq![pv]);
                    }
                    Some(v)
                },
                None => None,
            },
            Some(ci) => {
                proof {
                    assert(t.subrange(0, ci - lo) =~= s@.subrange(lo as int, ci as int));
                    assert(t.subrange(ci - lo + 1, t.len() as int) =~= s@.subrange(
                        ci + 1,
                        hi as int,
                    ));
                }
                match Self::parse_member_span(s, lo, ci) {
                    Some(p) => match Self::parse_members_span(s, ci + 1, hi) {
                        Some(mut rest) => {
                            let ghost pv = (p.0@, p.1@);
                            let ghost rv = rest@;
                            rest.insert(0, p);
                            proof {
                                lemma_entries_view(rv);
                                lemma_entries_view(rest@);
                                assert(rest@ =~= seq![rest@[0]] + rv);
                                assert(entries_view(rest@) =~= seq![pv] + entries_view(rv));
                            }
                            Some(rest)
                        },
                        None => None,
                    },
                    None => None,
                }
            },
        }
    }

    /// The position of the first depth-zero comma in the span `lo..hi`,
    /// tracking the bracket-nesting depth character by character.
    fn find_top_comma(s: &str, lo: usize, hi: usize) -> (r: Option<usize>)
        requires
            lo <= hi <= s@.len(),
        ensures
            ({
                let t = s@.subrange(lo as int, hi as int);
                match r {
                    Some(j) => lo <= j < hi && first_top_comma(t) == Some(j - lo),
                    None => first_top_comma(t) is None,
                }
            }),
    {
        let ghost t = s@.subrange(lo as int, hi as int);
        let mut opens: usize = 0;
        let mut closes: usize = 0;
        let mut i = lo;
        while i < hi
            invariant
                lo <= i <= hi <= s@.len(),
                t == s@.subrange(lo as int, hi as int),
                opens + closes <= i - lo,
                opens as int - closes as int == depth(t.subrange(0, i - lo)),
                forall|k: int| 0 <= k < i - lo ==> !top_comma_at(t, k),
            decreases hi - i,
        {
            let c = s.get_char(i);
            let ghost pre = t.subrange(0, i - lo);
            let ghost pre1 = t.subrange(0, i - lo + 1);
            proof {
                assert(t[i - lo] == s@[i as int]);
                assert(pre1.drop_last() =~= pre);
                assert(pre1[pre1.len() - 1] == t[i - lo]);
            }
            if c == '{' || c == '[' {
                opens += 1;
            } else if c == '}' || c == ']' {
                closes += 1;
            } else if c == ',' && opens == closes {
                proof {
                    assert(top_comma_at(t, i - lo));
                    lemma_first_top_comma(t);
                    match first_top_comma(t) {
                        None => {
                            assert(false);
                        },
                        Some(k) => {
                            if k < i - lo {
                                assert(!top_comma_at(t, k));
                            }
                            if k > i - lo {
                                assert(!top_comma_at(t, i - lo));
                            }
                        },
                    }
                }
                return Some(i);
            }
            i += 1;
        }
        proof {
            lemma_first_top_comma(t);
            match first_top_comma(t) {
                None => {},
                Some(k) => {
                    assert(!top_comma_at(t, k));
                },
            }
        }
        None
    }

    /// The position of the first colon in the span `lo..hi`.
    fn find_colon_span(s: &str, lo: usize, hi: usize) -> (r: Option<usize>)
        requires
            lo <= hi <= s@.len(),
        ensures
            ({
                let t = s@.subrange(lo as int, hi as int);
                match r {
                    Some(j) => lo <= j < hi && find_colon(t) == Some(j - lo),
                    None => find_colon(t) is None,
                }
            }),
    {
        let ghost t = s@.subrange(lo as int, hi as int);
        let mut i = lo;
        while i < hi
            invariant
                lo <= i <= hi <= s@.len(),
                t == s@.subrange(lo as int, hi as int),
                forall|k: int| 0 <= k < i - lo ==> t[k] != ':',
            decreases hi - i,
        {
            let c = s.get_char(i);
            proof {
                assert(t[i - lo] == s@[i as int]);
            }
            if c == ':' {
                proof {
                    lemma_find_colon(t);
                    match find_colon(t) {
                        None => {
                            assert(false);
                        },
                        Some(k) => {
                            if k < i - lo {
                                assert(t[k] != ':');
                            }
                            if k > i - lo {
                                assert(t[i - lo] != ':');
                            }
                        },
                    }
                }
                return Some(i);
            }
            i += 1;
        }
        proof {
            lemma_find_colon(t);
            match find_colon(t) {
                None => {},
                Some(k) => {
                    assert(t[k] != ':');
                },
            }
        }
        None
    }
}

} // verus!
