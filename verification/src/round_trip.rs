//! The round-trip law: parsing a serialized well-formed tree yields the same
//! tree. Serialization emits exactly the grammar the parser accepts, so the
//! proof walks the tree, shows each serialized piece is `sealed` (balanced
//! brackets, every comma under at least one bracket), and shows the parser's
//! depth-zero splitting recovers exactly the serialized pieces.

use vstd::prelude::*;
use crate::grammar::{depth, depth_delta, first_top_comma, lemma_first_top_comma, top_comma_at};
use crate::model::{ser, ser_elems, ser_prop, ser_props, wf, JsonModel};
use crate::numbers::{
    all_digits, find_exp, int_dec, is_digit, is_exp_part, is_float_number, is_float_special,
    is_float_str, is_i64_str, is_mantissa, i64_val, lemma_find_exp, lemma_nat_dec, nat_dec,
    strip_sign,
};
use crate::text::{eq_ig_case, eq_ig_case_char, is_ws, lower_ascii, trim};

verus! {

broadcast use vstd::seq::group_seq_axioms;

/// Depth adds over concatenation.
pub proof fn lemma_depth_concat(a: Seq<char>, b: Seq<char>)
    ensures
        depth(a + b) == depth(a) + depth(b),
    decreases b.len(),
{
    if b.len() == 0 {
        assert(a + b =~= a);
    } else {
        lemma_depth_concat(a, b.drop_last());
        let w = a + b;
        assert(w.drop_last() =~= a + b.drop_last());
        assert(w[w.len() - 1] == b[b.len() - 1]);
        assert(depth(b) == depth(b.drop_last()) + depth_delta(b[b.len() - 1]));
    }
}

/// A prefix of a concatenation, split at the junction.
pub proof fn lemma_prefix_concat(a: Seq<char>, b: Seq<char>, i: int)
    requires
        0 <= i <= a.len() + b.len(),
    ensures
        i <= a.len() ==> (a + b).subrange(0, i) == a.subrange(0, i),
        i > a.len() ==> (a + b).subrange(0, i) == a + b.subrange(0, i - a.len()),
{
    if i <= a.len() {
        assert((a + b).subrange(0, i) =~= a.subrange(0, i));
    } else {
        assert((a + b).subrange(0, i) =~= a + b.subrange(0, i - a.len()));
    }
}

/// Balanced text: net depth zero, and no prefix dips below zero.
pub open spec fn balanced(s: Seq<char>) -> bool {
    depth(s) == 0 && forall|i: int| 0 <= i <= s.len() ==> depth(#[trigger] s.subrange(0, i)) >= 0
}

/// Sealed text: balanced, and every comma lies under at least one bracket.
/// The depth-zero splitter passes over sealed text without splitting it.
pub open spec fn sealed(s: Seq<char>) -> bool {
    balanced(s) && forall|i: int|
        0 <= i < s.len() && #[trigger] s[i] == ',' ==> depth(s.subrange(0, i)) >= 1
}

/// Text whose characters all have depth delta zero and are not commas is
/// sealed.
pub proof fn lemma_flat_sealed(s: Seq<char>)
    requires
        forall|i: int| 0 <= i < s.len() ==> depth_delta(#[trigger] s[i]) == 0 && s[i] != ',',
    ensures
        sealed(s),
{
    lemma_flat_depth(s);
    assert forall|i: int| 0 <= i <= s.len() implies depth(#[trigger] s.subrange(0, i)) >= 0 by {
        let p = s.subrange(0, i);
        assert(forall|j: int| 0 <= j < p.len() ==> depth_delta(#[trigger] p[j]) == 0);
        lemma_flat_depth(p);
    }
}

proof fn lemma_flat_depth(s: Seq<char>)
    requires
        forall|i: int| 0 <= i < s.len() ==> depth_delta(#[trigger] s[i]) == 0,
    ensures
        depth(s) == 0,
    decreases s.len(),
{
    if s.len() > 0 {
        let d = s.drop_last();
        assert(forall|i: int| 0 <= i < d.len() ==> depth_delta(#[trigger] d[i]) == 0);
        lemma_flat_depth(d);
    }
}

/// The decimal rendering of an `i64`-ranged integer lies in the integer
/// grammar, reads back to the same value, and uses only digits and a leading
/// minus sign.
pub proof fn lemma_int_dec(i: int)
    requires
        -0x8000000000000000 <= i <= 0x7fffffffffffffff,
    ensures
        int_dec(i).len() > 0,
        is_i64_str(int_dec(i)),
        i64_val(int_dec(i)) == i,
        forall|j: int|
            0 <= j < int_dec(i).len() ==> is_digit(#[trigger] int_dec(i)[j]) || int_dec(i)[j]
                == '-',
        is_digit(int_dec(i)[int_dec(i).len() - 1]),
{
    if i < 0 {
        lemma_nat_dec((-i) as nat);
        let t = int_dec(i);
        let b = nat_dec((-i) as nat);
        assert(t == seq!['-'] + b);
        assert(t[0] == '-');
        assert(t.drop_first() =~= b);
        assert(strip_sign(t) == b);
        assert(crate::numbers::is_neg(t));
        assert forall|j: int|
            0 <= j < t.len() implies is_digit(#[trigger] t[j]) || t[j] == '-' by {
            if j > 0 {
                assert(is_digit(b[j - 1]));
            }
        }
        assert(t[t.len() - 1] == b[b.len() - 1]);
    } else {
        lemma_nat_dec(i as nat);
        let t = int_dec(i);
        assert(t == nat_dec(i as nat));
        assert(is_digit(t[0]));
        assert(t[0] != '-' && t[0] != '+');
        assert(strip_sign(t) == t);
    }
}

/// A character that can occur in a float literal: a digit, a point, a sign,
/// an exponent marker, or a letter of `inf`, `infinity` or `nan` in either
/// case.
pub open spec fn float_char(c: char) -> bool {
    is_digit(c) || c == '.' || c == '+' || c == '-' || c == 'e' || c == 'E' || lower_ascii(c)
        == 'i' as u32 || lower_ascii(c) == 'n' as u32 || lower_ascii(c) == 'f' as u32
        || lower_ascii(c) == 'a' as u32 || lower_ascii(c) == 't' as u32 || lower_ascii(c)
        == 'y' as u32
}

/// Every character of a float literal is a `float_char`.
pub proof fn lemma_float_chars(t: Seq<char>)
    requires
        is_float_str(t),
    ensures
        t.len() > 0,
        forall|i: int| 0 <= i < t.len() ==> float_char(#[trigger] t[i]),
{
    let b = strip_sign(t);
    if is_float_special(b) {
        assert(b.len() > 0);
        assert forall|i: int| 0 <= i < b.len() implies float_char(#[trigger] b[i]) by {
            if eq_ig_case(b, seq!['i', 'n', 'f']) {
                assert(eq_ig_case_char(b[i], seq!['i', 'n', 'f'][i]));
            } else if eq_ig_case(b, seq!['i', 'n', 'f', 'i', 'n', 'i', 't', 'y']) {
                assert(eq_ig_case_char(b[i], seq!['i', 'n', 'f', 'i', 'n', 'i', 't', 'y'][i]));
            } else {
                assert(eq_ig_case_char(b[i], seq!['n', 'a', 'n'][i]));
            }
        }
    } else {
        assert(is_float_number(b));
        lemma_find_exp(b);
        match find_exp(b) {
            None => {
                assert(is_mantissa(b));
                assert forall|i: int| 0 <= i < b.len() implies float_char(#[trigger] b[i]) by {
                    assert(is_digit(b[i]) || b[i] == '.');
                }
            },
            Some(k) => {
                let m = b.subrange(0, k);
                let x = b.subrange(k + 1, b.len() as int);
                assert(is_mantissa(m));
                assert(is_exp_part(x));
                assert(b.len() > 0);
                assert forall|i: int| 0 <= i < b.len() implies float_char(#[trigger] b[i]) by {
                    if i < k {
                        assert(b[i] == m[i]);
                        assert(is_digit(m[i]) || m[i] == '.');
                    } else if i == k {
                        assert(b[i] == 'e' || b[i] == 'E');
                    } else {
                        assert(b[i] == x[i - k - 1]);
                        let sx = strip_sign(x);
                        if x.len() > 0 && (x[0] == '+' || x[0] == '-') {
                            if i - k - 1 > 0 {
                                assert(x[i - k - 1] == sx[i - k - 2]);
                                assert(is_digit(sx[i - k - 2]));
                            }
                        } else {
                            assert(x[i - k - 1] == sx[i - k - 1]);
                            assert(is_digit(sx[i - k - 1]));
                        }
                    }
                }
            },
        }
    }
    if t.len() > 0 && (t[0] == '+' || t[0] == '-') {
        assert(t.drop_first() =~= b);
        assert forall|i: int| 0 <= i < t.len() implies float_char(#[trigger] t[i]) by {
            if i > 0 {
                assert(t[i] == b[i - 1]);
                assert(float_char(b[i - 1]));
            }
        }
    } else {
        assert(t == b);
        assert(t.len() > 0) by {
            if b.len() == 0 {
                assert(!is_float_special(b));
                assert(!is_float_number(b)) by {
                    lemma_find_exp(b);
                }
            }
        }
    }
}

/// A float character is not whitespace, not a quote, and has no structural
/// meaning: float literals pass through trimming and splitting untouched.
pub proof fn lemma_float_char_plain(c: char)
    requires
        float_char(c),
    ensures
        !is_ws(c),
        c != '"',
        c != ',',
        c != ':',
        depth_delta(c) == 0,
{
}

proof fn lemma_depth_single(c: char)
    ensures
        depth(seq![c]) == depth_delta(c),
{
    assert(seq![c].drop_last() =~= Seq::<char>::empty());
    assert(depth(Seq::<char>::empty()) == 0);
    assert(seq![c][0] == c);
}

/// Balance survives concatenation.
pub proof fn lemma_balanced_concat(a: Seq<char>, b: Seq<char>)
    requires
        balanced(a),
        balanced(b),
    ensures
        balanced(a + b),
{
    lemma_depth_concat(a, b);
    assert forall|i: int| 0 <= i <= (a + b).len() implies depth(
        #[trigger] (a + b).subrange(0, i),
    ) >= 0 by {
        lemma_prefix_concat(a, b, i);
        if i <= a.len() {
            assert(depth(a.subrange(0, i)) >= 0);
        } else {
            lemma_depth_concat(a, b.subrange(0, i - a.len()));
            assert(depth(b.subrange(0, i - a.len())) >= 0);
        }
    }
}

/// Flat, comma-free text in front of sealed text leaves it sealed.
pub proof fn lemma_sealed_flat_front(f: Seq<char>, b: Seq<char>)
    requires
        forall|i: int| 0 <= i < f.len() ==> depth_delta(#[trigger] f[i]) == 0 && f[i] != ',',
        sealed(b),
    ensures
        sealed(f + b),
{
    lemma_flat_sealed(f);
    lemma_balanced_concat(f, b);
    assert forall|i: int|
        0 <= i < (f + b).len() && #[trigger] (f + b)[i] == ',' implies depth(
        (f + b).subrange(0, i),
    ) >= 1 by {
        lemma_prefix_concat(f, b, i);
        if i < f.len() {
            assert(f[i] != ',');
        } else {
            assert((f + b)[i] == b[i - f.len()]);
            lemma_depth_concat(f, b.subrange(0, i - f.len()));
            lemma_flat_depth(f);
            assert(depth(b.subrange(0, i - f.len())) >= 1);
        }
    }
}

/// Balanced text joined by a comma stays balanced.
pub proof fn lemma_balanced_comma_join(a: Seq<char>, b: Seq<char>)
    requires
        balanced(a),
        balanced(b),
    ensures
        balanced(a + seq![','] + b),
{
    assert(balanced(seq![','])) by {
        lemma_depth_single(',');
        assert(depth(Seq::<char>::empty()) == 0);
        assert forall|i: int|
            0 <= i <= seq![','].len() implies depth(#[trigger] seq![','].subrange(0, i)) >= 0 by {
            if i == 0 {
                assert(seq![','].subrange(0, 0) =~= Seq::<char>::empty());
            } else {
                assert(seq![','].subrange(0, 1) =~= seq![',']);
            }
        }
    }
    lemma_balanced_concat(a, seq![',']);
    lemma_balanced_concat(a + seq![','], b);
    assert(a + seq![','] + b =~= (a + seq![',']) + b);
}

/// Wrapping balanced text in one bracket pair seals it.
pub proof fn lemma_sealed_bracket(w: Seq<char>, open: char, close: char)
    requires
        balanced(w),
        depth_delta(open) == 1,
        depth_delta(close) == -1,
    ensures
        sealed(seq![open] + w + seq![close]),
        (seq![open] + w + seq![close]).len() == w.len() + 2,
        (seq![open] + w + seq![close])[0] == open,
        (seq![open] + w + seq![close])[w.len() as int + 1] == close,
        (seq![open] + w + seq![close]).subrange(1, w.len() as int + 1) == w,
{
    let s = seq![open] + w + seq![close];
    assert(s.subrange(1, w.len() as int + 1) =~= w);
    lemma_depth_single(open);
    lemma_depth_single(close);
    lemma_depth_concat(seq![open], w);
    lemma_depth_concat(seq![open] + w, seq![close]);
    assert(s =~= (seq![open] + w) + seq![close]);
    assert(depth(s) == 0);
    assert forall|i: int| 0 <= i <= s.len() implies depth(#[trigger] s.subrange(0, i)) >= 0 by {
        lemma_prefix_depth_bracket(w, open, close, i);
    }
    assert forall|i: int|
        0 <= i < s.len() && #[trigger] s[i] == ',' implies depth(s.subrange(0, i)) >= 1 by {
        assert(0 < i <= w.len());
        assert(s[i] == w[i - 1]);
        lemma_prefix_depth_bracket(w, open, close, i);
        assert(depth(s.subrange(0, i)) == 1 + depth(w.subrange(0, i - 1)));
        assert(depth(w.subrange(0, i - 1)) >= 0);
    }
}

/// A text whose first character is neither a digit nor a point is not a
/// float number.
pub proof fn lemma_not_float_number(t: Seq<char>)
    requires
        t.len() == 0 || !(is_digit(t[0]) || t[0] == '.'),
    ensures
        !is_float_number(t),
{
    lemma_find_exp(t);
    match find_exp(t) {
        None => {
            if is_mantissa(t) {
                assert(is_digit(t[0]) || t[0] == '.');
            }
        },
        Some(k) => {
            let m = t.subrange(0, k);
            if is_mantissa(m) {
                assert(m[0] == t[0]);
                assert(is_digit(t[0]) || t[0] == '.');
            }
        },
    }
}

/// A text led by a bracket or a brace matches none of the scalar grammars.
pub proof fn lemma_reject_scalars_bracket(t: Seq<char>)
    requires
        t.len() > 0,
        t[0] == '[' || t[0] == '{',
    ensures
        !is_i64_str(t),
        !is_float_str(t),
        !eq_ig_case(t, seq!['t', 'r', 'u', 'e']),
        !eq_ig_case(t, seq!['f', 'a', 'l', 's', 'e']),
        !eq_ig_case(t, seq!['n', 'u', 'l', 'l']),
{
    assert(strip_sign(t) == t);
    if is_i64_str(t) {
        assert(is_digit(t[0]));
    }
    if is_float_special(t) {
        if eq_ig_case(t, seq!['i', 'n', 'f']) {
            assert(eq_ig_case_char(t[0], 'i'));
        } else if eq_ig_case(t, seq!['i', 'n', 'f', 'i', 'n', 'i', 't', 'y']) {
            assert(eq_ig_case_char(t[0], 'i'));
        } else {
            assert(eq_ig_case_char(t[0], 'n'));
        }
        assert(false);
    }
    lemma_not_float_number(t);
    if eq_ig_case(t, seq!['t', 'r', 'u', 'e']) {
        assert(eq_ig_case_char(t[0], 't'));
    }
    if eq_ig_case(t, seq!['f', 'a', 'l', 's', 'e']) {
        assert(eq_ig_case_char(t[0], 'f'));
    }
    if eq_ig_case(t, seq!['n', 'u', 'l', 'l']) {
        assert(eq_ig_case_char(t[0], 'n'));
    }
}

/// The shape of every serialized well-formed tree: non-empty text, free of
/// whitespace at the ends, and sealed.
pub proof fn lemma_ser_shape(m: JsonModel)
    requires
        wf(m),
    ensures
        ser(m).len() > 0,
        !is_ws(ser(m)[0]),
        !is_ws(ser(m)[ser(m).len() - 1]),
        sealed(ser(m)),
    decreases m, 1int,
{
    let s = ser(m);
    match m {
        JsonModel::Text(x) => {
            assert(s == seq!['"'] + x + seq!['"']);
            assert(s.len() == x.len() + 2);
            assert(s[0] == '"');
            assert(s[s.len() - 1] == '"');
            assert forall|i: int|
                0 <= i < s.len() implies depth_delta(#[trigger] s[i]) == 0 && s[i] != ',' by {
                if 0 < i < s.len() - 1 {
                    assert(s[i] == x[i - 1]);
                    assert(crate::model::plain_char(x[i - 1]));
                }
            }
            lemma_flat_sealed(s);
        },
        JsonModel::Integer(i) => {
            lemma_int_dec(i);
            assert forall|j: int|
                0 <= j < s.len() implies depth_delta(#[trigger] s[j]) == 0 && s[j] != ',' by {
                assert(is_digit(s[j]) || s[j] == '-');
            }
            lemma_flat_sealed(s);
            assert(is_digit(s[0]) || s[0] == '-');
        },
        JsonModel::Float(t) => {
            lemma_float_chars(t);
            assert forall|j: int|
                0 <= j < s.len() implies depth_delta(#[trigger] s[j]) == 0 && s[j] != ',' by {
                lemma_float_char_plain(s[j]);
            }
            lemma_flat_sealed(s);
            lemma_float_char_plain(s[0]);
            lemma_float_char_plain(s[s.len() - 1]);
        },
        JsonModel::Boolean(b) => {
            assert forall|j: int|
                0 <= j < s.len() implies depth_delta(#[trigger] s[j]) == 0 && s[j] != ','
                    && !is_ws(s[j]) by {}
            lemma_flat_sealed(s);
        },
        JsonModel::Null => {
            assert forall|j: int|
                0 <= j < s.len() implies depth_delta(#[trigger] s[j]) == 0 && s[j] != ','
                    && !is_ws(s[j]) by {}
            lemma_flat_sealed(s);
        },
        JsonModel::Array(es) => {
            crate::model::lemma_wf_elems(es);
            lemma_join_elems(es);
            let w = ser_elems(es);
            lemma_sealed_bracket(w, '[', ']');
            assert(s == seq!['['] + w + seq![']']);
            assert(s[0] == '[');
            assert(s[s.len() - 1] == ']');
        },
        JsonModel::Object(ps) => {
            crate::model::lemma_wf_props(ps);
            lemma_join_props(ps);
            let w = ser_props(ps);
            lemma_sealed_bracket(w, '{', '}');
            assert(s == seq!['{'] + w + seq!['}']);
            assert(s[0] == '{');
            assert(s[s.len() - 1] == '}');
        },
    }
}

/// The join of serialized array elements is balanced; a non-empty join
/// starts as its first element does and ends as its last element does.
pub proof fn lemma_join_elems(es: Seq<JsonModel>)
    requires
        forall|i: int| 0 <= i < es.len() ==> wf(#[trigger] es[i]),
    ensures
        balanced(ser_elems(es)),
        es.len() > 0 ==> ser_elems(es).len() > 0 && ser_elems(es)[0] == ser(es[0])[0] && !is_ws(
            ser_elems(es)[0],
        ) && !is_ws(ser_elems(es)[ser_elems(es).len() - 1]),
    decreases es, es.len(),
{
    let w = ser_elems(es);
    if es.len() == 0 {
        assert(w == Seq::<char>::empty());
        assert(depth(w) == 0);
        assert forall|i: int| 0 <= i <= w.len() implies depth(#[trigger] w.subrange(0, i)) >= 0 by {
            assert(w.subrange(0, 0) =~= Seq::<char>::empty());
        }
    } else if es.len() == 1 {
        lemma_ser_shape(es[0]);
        assert(w == ser(es[0]));
    } else {
        lemma_ser_shape(es[0]);
        let d = es.drop_first();
        assert(forall|i: int| 0 <= i < d.len() ==> wf(#[trigger] d[i]));
        lemma_join_elems(d);
        let a = ser(es[0]);
        let r = ser_elems(d);
        assert(w == a + seq![','] + r);
        lemma_balanced_comma_join(a, r);
        assert(d[0] == es[1]);
        assert(w[0] == a[0]);
        assert(w[w.len() - 1] == r[r.len() - 1]);
    }
}

/// One serialized object member: quote-led, sealed, ending as its value
/// does.
pub proof fn lemma_prop_shape(p: (Seq<char>, JsonModel))
    requires
        crate::model::plain_text(p.0),
        wf(p.1),
    ensures
        ser_prop(p).len() == p.0.len() + 3 + ser(p.1).len(),
        ser_prop(p)[0] == '"',
        !is_ws(ser_prop(p)[0]),
        !is_ws(ser_prop(p)[ser_prop(p).len() - 1]),
        sealed(ser_prop(p)),
    decreases p, 1int,
{
    lemma_ser_shape(p.1);
    let f = seq!['"'] + p.0 + seq!['"', ':'];
    let s = ser_prop(p);
    assert(s =~= f + ser(p.1));
    assert(f.len() == p.0.len() + 3);
    assert forall|i: int|
        0 <= i < f.len() implies depth_delta(#[trigger] f[i]) == 0 && f[i] != ',' by {
        if 0 < i < p.0.len() + 1 {
            assert(f[i] == p.0[i - 1]);
            assert(crate::model::plain_char(p.0[i - 1]));
        }
    }
    lemma_sealed_flat_front(f, ser(p.1));
    assert(s[0] == f[0]);
    assert(s[s.len() - 1] == ser(p.1)[ser(p.1).len() - 1]);
}

/// The join of serialized object members is balanced; a non-empty join is
/// quote-led and ends as its last member does.
pub proof fn lemma_join_props(ps: Seq<(Seq<char>, JsonModel)>)
    requires
        forall|i: int|
            0 <= i < ps.len() ==> crate::model::plain_text((#[trigger] ps[i]).0) && wf(ps[i].1),
    ensures
        balanced(ser_props(ps)),
        ps.len() > 0 ==> ser_props(ps).len() > 0 && ser_props(ps)[0] == '"' && !is_ws(
            ser_props(ps)[0],
        ) && !is_ws(ser_props(ps)[ser_props(ps).len() - 1]),
    decreases ps, ps.len(),
{
    let w = ser_props(ps);
    if ps.len() == 0 {
        assert(w == Seq::<char>::empty());
        assert(depth(w) == 0);
        assert forall|i: int| 0 <= i <= w.len() implies depth(#[trigger] w.subrange(0, i)) >= 0 by {
            assert(w.subrange(0, 0) =~= Seq::<char>::empty());
        }
    } else if ps.len() == 1 {
        lemma_prop_shape(ps[0]);
        assert(w == ser_prop(ps[0]));
    } else {
        lemma_prop_shape(ps[0]);
        let d = ps.drop_first();
        assert(forall|i: int|
            0 <= i < d.len() ==> crate::model::plain_text((#[trigger] d[i]).0) && wf(d[i].1));
        lemma_join_props(d);
        let a = ser_prop(ps[0]);
        let r = ser_props(d);
        assert(w == a + seq![','] + r);
        lemma_balanced_comma_join(a, r);
        assert(w[0] == a[0]);
        assert(w[w.len() - 1] == r[r.len() - 1]);
    }
}

proof fn lemma_prefix_depth_bracket(w: Seq<char>, open: char, close: char, i: int)
    requires
        balanced(w),
        depth_delta(open) == 1,
        depth_delta(close) == -1,
        0 <= i <= w.len() + 2,
    ensures
        i == 0 ==> depth((seq![open] + w + seq![close]).subrange(0, i)) == 0,
        0 < i <= w.len() + 1 ==> depth((seq![open] + w + seq![close]).subrange(0, i)) == 1
            + depth(w.subrange(0, i - 1)),
        i == w.len() + 2 ==> depth((seq![open] + w + seq![close]).subrange(0, i)) == 0,
        depth((seq![open] + w + seq![close]).subrange(0, i)) >= 0,
{
    let s = seq![open] + w + seq![close];
    assert(s =~= (seq![open] + w) + seq![close]);
    if i == 0 {
        assert(s.subrange(0, 0) =~= Seq::<char>::empty());
    } else if i <= w.len() + 1 {
        assert(s.subrange(0, i) =~= seq![open] + w.subrange(0, i - 1));
        lemma_depth_concat(seq![open], w.subrange(0, i - 1));
        lemma_depth_single(open);
        assert(depth(w.subrange(0, i - 1)) >= 0);
    } else {
        assert(s.subrange(0, i) =~= s);
        lemma_depth_concat(seq![open] + w, seq![close]);
        lemma_depth_concat(seq![open], w);
        lemma_depth_single(open);
        lemma_depth_single(close);
    }
}

/// Sealed text has no splitting comma: the splitter keeps it in one piece.
pub proof fn lemma_sealed_no_top_comma(s: Seq<char>)
    requires
        sealed(s),
    ensures
        first_top_comma(s) is None,
{
    lemma_first_top_comma(s);
    match first_top_comma(s) {
        None => {},
        Some(k) => {
            assert(s[k] == ',');
            assert(depth(s.subrange(0, k)) >= 1);
        },
    }
}

/// After a sealed piece and a comma, the first splitting comma is exactly
/// that comma, whatever follows it.
pub proof fn lemma_first_top_comma_junction(a: Seq<char>, b: Seq<char>)
    requires
        sealed(a),
    ensures
        first_top_comma(a + seq![','] + b) == Some(a.len() as int),
        (a + seq![','] + b).subrange(0, a.len() as int) == a,
        (a + seq![','] + b).subrange(a.len() as int + 1, (a + seq![','] + b).len() as int) == b,
{
    let w = a + seq![','] + b;
    assert(w =~= (a + seq![',']) + b);
    assert(w[a.len() as int] == ',');
    assert(w.subrange(0, a.len() as int) =~= a);
    assert(w.subrange(a.len() as int + 1, w.len() as int) =~= b);
    assert(top_comma_at(w, a.len() as int));
    assert forall|j: int| 0 <= j < a.len() implies !top_comma_at(w, j) by {
        assert(w[j] == a[j]);
        if w[j] == ',' {
            assert(w.subrange(0, j) =~= a.subrange(0, j));
            assert(depth(a.subrange(0, j)) >= 1);
        }
    }
    lemma_first_top_comma(w);
    match first_top_comma(w) {
        None => {
            assert(false);
        },
        Some(k) => {
            if k < a.len() {
                assert(!top_comma_at(w, k));
            }
            if k > a.len() {
                assert(!top_comma_at(w, a.len() as int));
            }
        },
    }
}

/// Parsing one serialized member recovers the member.
proof fn lemma_member_round_trip(p: (Seq<char>, JsonModel))
    requires
        crate::model::plain_text(p.0),
        wf(p.1),
    ensures
        crate::grammar::parse_member(ser_prop(p)) == Some(p),
    decreases p, 2int,
{
    let s = ser_prop(p);
    let k = p.0;
    let v = ser(p.1);
    lemma_prop_shape(p);
    lemma_ser_shape(p.1);
    crate::text::lemma_trim_noop(s);
    assert(trim(s) == s);
    let ci = k.len() as int + 2;
    assert(s[ci] == ':') by {
        assert(s =~= (seq!['"'] + k + seq!['"', ':']) + v);
    }
    assert forall|j: int| 0 <= j < ci implies s[j] != ':' by {
        assert(s =~= (seq!['"'] + k + seq!['"', ':']) + v);
        if j == 0 {
            assert(s[j] == '"');
        } else if j < k.len() + 1 {
            assert(s[j] == k[j - 1]);
            assert(crate::model::plain_char(k[j - 1]));
        } else {
            assert(s[j] == '"');
        }
    }
    crate::grammar::lemma_find_colon(s);
    match crate::grammar::find_colon(s) {
        None => {
            assert(false);
        },
        Some(j) => {
            if j < ci {
                assert(s[j] != ':');
            }
            if j > ci {
                assert(s[ci] != ':');
            }
            assert(j == ci);
        },
    }
    let name_part = s.subrange(0, ci);
    let value_part = s.subrange(ci + 1, s.len() as int);
    assert(name_part =~= seq!['"'] + k + seq!['"']) by {
        assert(s =~= (seq!['"'] + k + seq!['"', ':']) + v);
    }
    assert(value_part =~= v) by {
        assert(s =~= (seq!['"'] + k + seq!['"', ':']) + v);
    }
    assert(name_part.len() == k.len() + 2);
    assert(name_part[0] == '"');
    assert(name_part[name_part.len() - 1] == '"');
    lemma_round_trip(p.1);
    assert(name_part.subrange(1, name_part.len() - 1) =~= k);
}

/// Parsing the joined serialized elements recovers the element list.
proof fn lemma_elems_round_trip(es: Seq<JsonModel>)
    requires
        es.len() > 0,
        forall|i: int| 0 <= i < es.len() ==> wf(#[trigger] es[i]),
    ensures
        crate::grammar::parse_elems(ser_elems(es)) == Some(es),
    decreases es, es.len(),
{
    let w = ser_elems(es);
    lemma_ser_shape(es[0]);
    if es.len() == 1 {
        assert(w == ser(es[0]));
        lemma_sealed_no_top_comma(w);
        lemma_round_trip(es[0]);
        assert(seq![es[0]] =~= es);
    } else {
        let a = ser(es[0]);
        let d = es.drop_first();
        assert(forall|i: int| 0 <= i < d.len() ==> wf(#[trigger] d[i]));
        let r = ser_elems(d);
        assert(w == a + seq![','] + r);
        lemma_first_top_comma_junction(a, r);
        lemma_round_trip(es[0]);
        lemma_elems_round_trip(d);
        assert(seq![es[0]] + d =~= es);
    }
}

/// Parsing the joined serialized members recovers the member list.
proof fn lemma_members_round_trip(ps: Seq<(Seq<char>, JsonModel)>)
    requires
        ps.len() > 0,
        forall|i: int|
            0 <= i < ps.len() ==> crate::model::plain_text((#[trigger] ps[i]).0) && wf(ps[i].1),
    ensures
        crate::grammar::parse_members(ser_props(ps)) == Some(ps),
    decreases ps, ps.len(),
{
    let w = ser_props(ps);
    lemma_prop_shape(ps[0]);
    if ps.len() == 1 {
        assert(w == ser_prop(ps[0]));
        lemma_sealed_no_top_comma(w);
        lemma_member_round_trip(ps[0]);
        assert(seq![ps[0]] =~= ps);
    } else {
        let a = ser_prop(ps[0]);
        let d = ps.drop_first();
        assert(forall|i: int|
            0 <= i < d.len() ==> crate::model::plain_text((#[trigger] d[i]).0) && wf(d[i].1));
        let r = ser_props(d);
        assert(w == a + seq![','] + r);
        lemma_first_top_comma_junction(a, r);
        lemma_member_round_trip(ps[0]);
        lemma_members_round_trip(d);
        assert(seq![ps[0]] + d =~= ps);
    }
}

/// Parsing a serialized well-formed scalar yields the same scalar.
proof fn lemma_scalar_round_trip(m: JsonModel)
    requires
        wf(m),
        crate::model::is_scalar(m),
    ensures
        crate::grammar::parse_spec(ser(m)) == Some(m),
{
    let s = ser(m);
    lemma_ser_shape(m);
    crate::text::lemma_trim_noop(s);
    assert(trim(s) == s);
    match m {
        JsonModel::Text(x) => {
            assert(s.len() == x.len() + 2);
            assert(s[0] == '"');
            assert(s[s.len() - 1] == '"');
            assert(s.subrange(1, s.len() - 1) =~= x);
        },
        JsonModel::Integer(i) => {
            lemma_int_dec(i);
            assert(s[0] != '"') by {
                assert(is_digit(s[0]) || s[0] == '-');
            }
        },
        JsonModel::Float(t) => {
            lemma_float_chars(t);
            lemma_float_char_plain(s[0]);
            assert(s[0] != '"');
        },
        JsonModel::Boolean(b) => {
            if b {
                let u = seq!['t', 'r', 'u', 'e'];
                assert(s == u);
                assert(s[0] == 't');
                assert(strip_sign(s) == s);
                assert(!is_i64_str(s)) by {
                    if all_digits(s) {
                        assert(is_digit(s[0]));
                    }
                }
                assert(!is_float_special(s));
                lemma_not_float_number(s);
                assert(eq_ig_case(s, u));
            } else {
                let u = seq!['f', 'a', 'l', 's', 'e'];
                assert(s == u);
                assert(s[0] == 'f');
                assert(strip_sign(s) == s);
                assert(!is_i64_str(s)) by {
                    if all_digits(s) {
                        assert(is_digit(s[0]));
                    }
                }
                assert(!is_float_special(s));
                lemma_not_float_number(s);
                assert(!eq_ig_case(s, seq!['t', 'r', 'u', 'e']));
                assert(eq_ig_case(s, u));
            }
        },
        JsonModel::Null => {
            let u = seq!['n', 'u', 'l', 'l'];
            assert(s == u);
            assert(s[0] == 'n');
            assert(strip_sign(s) == s);
            assert(!is_i64_str(s)) by {
                if all_digits(s) {
                    assert(is_digit(s[0]));
                }
            }
            assert(!is_float_special(s)) by {
                if eq_ig_case(s, seq!['n', 'a', 'n']) {
                    assert(s.len() == 3);
                }
            }
            lemma_not_float_number(s);
            assert(!eq_ig_case(s, seq!['t', 'r', 'u', 'e'])) by {
                if eq_ig_case(s, seq!['t', 'r', 'u', 'e']) {
                    assert(eq_ig_case_char(s[0], 't'));
                }
            }
            assert(!eq_ig_case(s, seq!['f', 'a', 'l', 's', 'e']));
            assert(eq_ig_case(s, u));
        },
        _ => {},
    }
}

/// The round-trip law: serializing any well-formed tree and parsing the
/// result yields the same tree. Serialization emits exactly the grammar the
/// parser accepts, so nothing is lost between a tree and its compact text.
///
/// `JsonNode::to_json_string` returns exactly `ser` of the node's abstract
/// value and `JsonNode::parse` returns exactly what `parse_spec` yields, so
/// this law says of the executable pair: parsing a well-formed node's
/// serialization succeeds and returns a node with the same abstract value.
pub proof fn lemma_round_trip(m: JsonModel)
    requires
        wf(m),
    ensures
        crate::grammar::parse_spec(ser(m)) == Some(m),
    decreases m, 1int,
{
    let s = ser(m);
    match m {
        JsonModel::Array(es) => {
            lemma_ser_shape(m);
            crate::text::lemma_trim_noop(s);
            assert(trim(s) == s);
            let w = ser_elems(es);
            crate::model::lemma_wf_elems(es);
            lemma_join_elems(es);
            lemma_sealed_bracket(w, '[', ']');
            assert(s[0] == '[');
            assert(s[s.len() - 1] == ']');
            lemma_reject_scalars_bracket(s);
            let inner_raw = s.subrange(1, s.len() - 1);
            assert(inner_raw == w);
            if es.len() == 0 {
                assert(w =~= Seq::<char>::empty());
                assert(trim(w).len() == 0);
                assert(es =~= Seq::<JsonModel>::empty());
                assert(crate::grammar::parse_spec(s) == Some(JsonModel::Array(
                    Seq::<JsonModel>::empty(),
                )));
            } else {
                crate::text::lemma_trim_noop(w);
                assert(trim(w) == w);
                lemma_elems_round_trip(es);
            }
        },
        JsonModel::Object(ps) => {
            lemma_ser_shape(m);
            crate::text::lemma_trim_noop(s);
            assert(trim(s) == s);
            let w = ser_props(ps);
            crate::model::lemma_wf_props(ps);
            lemma_join_props(ps);
            lemma_sealed_bracket(w, '{', '}');
            assert(s[0] == '{');
            assert(s[s.len() - 1] == '}');
            lemma_reject_scalars_bracket(s);
            let inner_raw = s.subrange(1, s.len() - 1);
            assert(inner_raw == w);
            if ps.len() == 0 {
                assert(w =~= Seq::<char>::empty());
                assert(trim(w).len() == 0);
                assert(ps =~= Seq::<(Seq<char>, JsonModel)>::empty());
                assert(crate::grammar::parse_spec(s) == Some(JsonModel::Object(
                    Seq::<(Seq<char>, JsonModel)>::empty(),
                )));
            } else {
                crate::text::lemma_trim_noop(w);
                assert(trim(w) == w);
                lemma_members_round_trip(ps);
            }
        },
        _ => {
            lemma_scalar_round_trip(m);
        },
    }
}

} // verus!
