//! Numeric literals: the grammar of signed 64-bit integers as `i64::from_str`
//! accepts them, the grammar of floats as `f64::from_str` accepts them, and
//! decimal rendering of integers.

use vstd::prelude::*;
use crate::text::eq_ig_case;

verus! {

pub open spec fn is_digit(c: char) -> bool {
    0x30 <= c as u32 && c as u32 <= 0x39
}

pub open spec fn digit_val(c: char) -> int {
    c as u32 - 0x30
}

pub open spec fn all_digits(s: Seq<char>) -> bool {
    forall|i: int| 0 <= i < s.len() ==> is_digit(s[i])
}

/// The value of a digit string read in base ten.
pub open spec fn dec_val(s: Seq<char>) -> int
    decreases s.len(),
{
    if s.len() == 0 {
        0
    } else {
        dec_val(s.drop_last()) * 10 + digit_val(s[s.len() - 1])
    }
}

/// The string with one leading `+` or `-` removed, if present.
pub open spec fn strip_sign(s: Seq<char>) -> Seq<char> {
    if s.len() > 0 && (s[0] == '+' || s[0] == '-') {
        s.drop_first()
    } else {
        s
    }
}

pub open spec fn is_neg(s: Seq<char>) -> bool {
    s.len() > 0 && s[0] == '-'
}

/// Whether `s` is a string that `i64::from_str` accepts: an optional sign,
/// then one or more digits, with the value in range for `i64`.
pub open spec fn is_i64_str(s: Seq<char>) -> bool {
    let b = strip_sign(s);
    b.len() > 0 && all_digits(b) && (if is_neg(s) {
        dec_val(b) <= 0x8000000000000000
    } else {
        dec_val(b) <= 0x7fffffffffffffff
    })
}

/// The value that `i64::from_str` returns on a string it accepts.
pub open spec fn i64_val(s: Seq<char>) -> int {
    if is_neg(s) {
        -dec_val(strip_sign(s))
    } else {
        dec_val(strip_sign(s))
    }
}

/// The index of the first exponent marker `e` or `E`, if any.
pub open spec fn find_exp(s: Seq<char>) -> Option<int>
    decreases s.len(),
{
    if s.len() == 0 {
        None
    } else if s[0] == 'e' || s[0] == 'E' {
        Some(0)
    } else {
        match find_exp(s.drop_first()) {
            Some(i) => Some(i + 1),
            None => None,
        }
    }
}

pub open spec fn count_dots(s: Seq<char>) -> int
    decreases s.len(),
{
    if s.len() == 0 {
        0
    } else {
        count_dots(s.drop_last()) + if s[s.len() - 1] == '.' {
            1int
        } else {
            0int
        }
    }
}

pub open spec fn has_digit(s: Seq<char>) -> bool {
    exists|i: int| 0 <= i < s.len() && is_digit(s[i])
}

/// A mantissa: digits with at most one decimal point and at least one digit.
pub open spec fn is_mantissa(s: Seq<char>) -> bool {
    &&& s.len() > 0
    &&& forall|i: int| 0 <= i < s.len() ==> (is_digit(s[i]) || s[i] == '.')
    &&& count_dots(s) <= 1
    &&& has_digit(s)
}

/// An exponent part: an optional sign, then one or more digits.
pub open spec fn is_exp_part(s: Seq<char>) -> bool {
    let b = strip_sign(s);
    b.len() > 0 && all_digits(b)
}

/// One of the case-insensitive special float words.
pub open spec fn is_float_special(s: Seq<char>) -> bool {
    eq_ig_case(s, seq!['i', 'n', 'f']) || eq_ig_case(
        s,
        seq!['i', 'n', 'f', 'i', 'n', 'i', 't', 'y'],
    ) || eq_ig_case(s, seq!['n', 'a', 'n'])
}

/// A number: a mantissa, optionally followed by an exponent marker and an
/// exponent part.
pub open spec fn is_float_number(s: Seq<char>) -> bool {
    match find_exp(s) {
        None => is_mantissa(s),
        Some(i) => is_mantissa(s.subrange(0, i)) && is_exp_part(
            s.subrange(i + 1, s.len() as int),
        ),
    }
}

/// Whether `s` is a string that `f64::from_str` accepts: an optional sign,
/// then either a special word (`inf`, `infinity`, `nan`, any case) or a
/// number with an optional exponent.
pub open spec fn is_float_str(s: Seq<char>) -> bool {
    let b = strip_sign(s);
    is_float_special(b) || is_float_number(b)
}

pub open spec fn digit_char(d: int) -> char {
    if d == 0 {
        '0'
    } else if d == 1 {
        '1'
    } else if d == 2 {
        '2'
    } else if d == 3 {
        '3'
    } else if d == 4 {
        '4'
    } else if d == 5 {
        '5'
    } else if d == 6 {
        '6'
    } else if d == 7 {
        '7'
    } else if d == 8 {
        '8'
    } else {
        '9'
    }
}

/// The decimal rendering of a natural number, without sign or leading zeros.
pub open spec fn nat_dec(n: nat) -> Seq<char>
    decreases n,
{
    if n < 10 {
        seq![digit_char(n as int)]
    } else {
        nat_dec(n / 10).push(digit_char((n % 10) as int))
    }
}

/// The decimal rendering of an integer, as `i64`'s `Display` writes it.
pub open spec fn int_dec(i: int) -> Seq<char> {
    if i < 0 {
        seq!['-'] + nat_dec((-i) as nat)
    } else {
        nat_dec(i as nat)
    }
}

pub proof fn lemma_nat_dec(n: nat)
    ensures
        nat_dec(n).len() > 0,
        all_digits(nat_dec(n)),
        dec_val(nat_dec(n)) == n,
    decreases n,
{
    if n < 10 {
        assert(dec_val(nat_dec(n).drop_last()) == 0) by {
            assert(nat_dec(n).drop_last() =~= Seq::<char>::empty());
        }
    } else {
        lemma_nat_dec(n / 10);
        let p = nat_dec(n / 10);
        let w = p.push(digit_char((n % 10) as int));
        assert(w.drop_last() =~= p);
        assert(w[w.len() - 1] == digit_char((n % 10) as int));
        assert(dec_val(w) == dec_val(p) * 10 + digit_val(digit_char((n % 10) as int)));
        assert(digit_val(digit_char((n % 10) as int)) == n % 10);
        assert((n / 10) * 10 + n % 10 == n) by {
            vstd::arithmetic::div_mod::lemma_fundamental_div_mod(n as int, 10);
        }
        assert forall|i: int| 0 <= i < w.len() implies is_digit(w[i]) by {
            if i < p.len() {
                assert(is_digit(p[i]));
            }
        }
    }
}

pub proof fn lemma_dec_val_nonneg(s: Seq<char>)
    requires
        all_digits(s),
    ensures
        dec_val(s) >= 0,
    decreases s.len(),
{
    if s.len() > 0 {
        assert(all_digits(s.drop_last())) by {
            assert(forall|i: int| 0 <= i < s.len() - 1 ==> is_digit(s.drop_last()[i]));
        }
        lemma_dec_val_nonneg(s.drop_last());
    }
}

/// Appending further digits never shrinks the value of a digit string.
pub proof fn lemma_dec_val_prefix(p: Seq<char>, q: Seq<char>)
    requires
        all_digits(p),
        all_digits(q),
    ensures
        dec_val(p + q) >= dec_val(p),
    decreases q.len(),
{
    if q.len() == 0 {
        assert(p + q =~= p);
    } else {
        let q0 = q.drop_last();
        assert(all_digits(q0)) by {
            assert(forall|i: int| 0 <= i < q0.len() ==> is_digit(q0[i]));
        }
        lemma_dec_val_prefix(p, q0);
        let w = p + q;
        assert(w.drop_last() =~= p + q0);
        assert(dec_val(w) == dec_val(p + q0) * 10 + digit_val(w[w.len() - 1]));
        lemma_dec_val_nonneg(p);
        assert(dec_val(p + q0) * 10 >= dec_val(p + q0)) by {
            lemma_dec_val_nonneg_concat(p, q0);
        }
    }
}

proof fn lemma_dec_val_nonneg_concat(p: Seq<char>, q: Seq<char>)
    requires
        all_digits(p),
        all_digits(q),
    ensures
        dec_val(p + q) >= 0,
{
    assert(all_digits(p + q)) by {
        assert(forall|i: int| 0 <= i < p.len() + q.len() ==> is_digit((p + q)[i]));
    }
    lemma_dec_val_nonneg(p + q);
}

/// Whether every character of the span `lo..hi` of `s` is a decimal digit.
pub fn all_digits_range(s: &str, lo: usize, hi: usize) -> (r: bool)
    requires
        lo <= hi <= s@.len(),
    ensures
        r == all_digits(s@.subrange(lo as int, hi as int)),
{
    let ghost t = s@.subrange(lo as int, hi as int);
    let mut i = lo;
    while i < hi
        invariant
            lo <= i <= hi <= s@.len(),
            t == s@.subrange(lo as int, hi as int),
            forall|j: int| 0 <= j < i - lo ==> is_digit(t[j]),
        decreases hi - i,
    {
        let u = s.get_char(i) as u32;
        if u < 0x30 || u > 0x39 {
            proof {
                assert(t[i - lo] == s@[i as int]);
                assert(!is_digit(t[i - lo]));
            }
            return false;
        }
        proof {
            assert(t[i - lo] == s@[i as int]);
        }
        i += 1;
    }
    true
}

/// Reads the span `lo..hi` of `s` as a signed 64-bit integer, exactly as
/// `i64::from_str` would: `None` on any string it rejects, among them any
/// whose value overflows.
pub fn parse_i64_range(s: &str, lo: usize, hi: usize) -> (r: Option<i64>)
    requires
        lo <= hi <= s@.len(),
    ensures
        ({
            let t = s@.subrange(lo as int, hi as int);
            match r {
                Some(v) => is_i64_str(t) && v as int == i64_val(t),
                None => !is_i64_str(t),
            }
        }),
{
    let ghost t = s@.subrange(lo as int, hi as int);
    if lo == hi {
        return None;
    }
    let c0 = s.get_char(lo);
    let neg = c0 == '-';
    let signed = neg || c0 == '+';
    let start = if signed {
        lo + 1
    } else {
        lo
    };
    proof {
        assert(t[0] == s@[lo as int]);
        if signed {
            assert(strip_sign(t) =~= s@.subrange(start as int, hi as int));
        } else {
            assert(strip_sign(t) =~= s@.subrange(start as int, hi as int));
        }
        assert(is_neg(t) == neg);
    }
    let ghost b = s@.subrange(start as int, hi as int);
    if start == hi {
        return None;
    }
    let limit: u64 = if neg {
        9223372036854775808
    } else {
        9223372036854775807
    };
    let mut acc: u64 = 0;
    let mut i = start;
    while i < hi
        invariant
            lo <= start <= i <= hi <= s@.len(),
            b == s@.subrange(start as int, hi as int),
            t == s@.subrange(lo as int, hi as int),
            strip_sign(t) == b,
            is_neg(t) == neg,
            limit == if neg {
                0x8000000000000000u64
            } else {
                0x7fffffffffffffffu64
            },
            acc <= limit,
            all_digits(s@.subrange(start as int, i as int)),
            acc as int == dec_val(s@.subrange(start as int, i as int)),
        decreases hi - i,
    {
        let c = s.get_char(i);
        let u = c as u32;
        let ghost pre = s@.subrange(start as int, i as int);
        let ghost pre1 = s@.subrange(start as int, i + 1);
        proof {
            assert(b[i - start] == s@[i as int]);
            assert(pre1.drop_last() =~= pre);
            assert(pre1[pre1.len() - 1] == s@[i as int]);
        }
        if u < 0x30 || u > 0x39 {
            proof {
                assert(!is_digit(b[i - start]));
            }
            return None;
        }
        let d = (u - 0x30) as u64;
        proof {
            assert(dec_val(pre1) == acc * 10 + d);
        }
        if acc > (limit - d) / 10 {
            proof {
                vstd::arithmetic::div_mod::lemma_fundamental_div_mod(limit - d, 10);
                assert(acc * 10 + d > limit);
                if all_digits(b) {
                    let rest = s@.subrange(i + 1, hi as int);
                    assert(all_digits(pre1)) by {
                        assert(forall|j: int| 0 <= j < pre1.len() ==> pre1[j] == b[j]);
                    }
                    assert(all_digits(rest)) by {
                        assert(forall|j: int|
                            0 <= j < rest.len() ==> rest[j] == b[j + (i - start) + 1]);
                    }
                    lemma_dec_val_prefix(pre1, rest);
                    assert(b =~= pre1 + rest);
                }
            }
            return None;
        }
        proof {
            vstd::arithmetic::div_mod::lemma_fundamental_div_mod(limit - d, 10);
            assert(acc * 10 + d <= limit);
            assert(forall|j: int| 0 <= j < pre1.len() ==> is_digit(pre1[j]));
        }
        acc = acc * 10 + d;
        i += 1;
    }
    proof {
        assert(b =~= s@.subrange(start as int, i as int));
        assert(is_i64_str(t));
    }
    if neg {
        if acc == 9223372036854775808 {
            Some(i64::MIN)
        } else {
            Some(-(acc as i64))
        }
    } else {
        Some(acc as i64)
    }
}

/// Whether the span `lo..hi` of `s` is a mantissa.
fn check_mantissa(s: &str, lo: usize, hi: usize) -> (r: bool)
    requires
        lo <= hi <= s@.len(),
    ensures
        r == is_mantissa(s@.subrange(lo as int, hi as int)),
{
    let ghost t = s@.subrange(lo as int, hi as int);
    if lo == hi {
        return false;
    }
    let mut dots: usize = 0;
    let mut saw_digit = false;
    let mut i = lo;
    while i < hi
        invariant
            lo <= i <= hi <= s@.len(),
            t == s@.subrange(lo as int, hi as int),
            dots <= i - lo,
            forall|j: int| 0 <= j < i - lo ==> (is_digit(t[j]) || t[j] == '.'),
            dots as int == count_dots(s@.subrange(lo as int, i as int)),
            saw_digit == has_digit(s@.subrange(lo as int, i as int)),
        decreases hi - i,
    {
        let c = s.get_char(i);
        let u = c as u32;
        let ghost pre = s@.subrange(lo as int, i as int);
        let ghost pre1 = s@.subrange(lo as int, i + 1);
        proof {
            assert(t[i - lo] == s@[i as int]);
            assert(pre1.drop_last() =~= pre);
            assert(pre1[pre1.len() - 1] == s@[i as int]);
        }
        if (u < 0x30 || u > 0x39) && u != 0x2E {
            proof {
                assert(!(is_digit(t[i - lo]) || t[i - lo] == '.'));
            }
            return false;
        }
        if u == 0x2E {
            dots += 1;
        } else {
            proof {
                if !saw_digit {
                    assert(has_digit(pre1)) by {
                        assert(is_digit(pre1[pre1.len() - 1]));
                    }
                }
            }
            saw_digit = true;
        }
        proof {
            if has_digit(pre) {
                let w = choose|j: int| 0 <= j < pre.len() && is_digit(pre[j]);
                assert(is_digit(pre1[w]));
            }
            if has_digit(pre1) && !is_digit(pre1[pre1.len() - 1]) {
                let w = choose|j: int| 0 <= j < pre1.len() && is_digit(pre1[j]);
                assert(is_digit(pre[w]));
            }
        }
        i += 1;
    }
    proof {
        assert(t =~= s@.subrange(lo as int, i as int));
    }
    dots <= 1 && saw_digit
}

/// Whether the span `lo..hi` of `s` is an exponent part.
fn check_exp_part(s: &str, lo: usize, hi: usize) -> (r: bool)
    requires
        lo <= hi <= s@.len(),
    ensures
        r == is_exp_part(s@.subrange(lo as int, hi as int)),
{
    let ghost t = s@.subrange(lo as int, hi as int);
    if lo == hi {
        return false;
    }
    let c0 = s.get_char(lo);
    let signed = c0 == '-' || c0 == '+';
    let start = if signed {
        lo + 1
    } else {
        lo
    };
    proof {
        assert(t[0] == s@[lo as int]);
        assert(strip_sign(t) =~= s@.subrange(start as int, hi as int));
    }
    if start == hi {
        return false;
    }
    all_digits_range(s, start, hi)
}

/// Whether the span `lo..hi` of `s` is a string that `f64::from_str` accepts.
pub fn check_float_range(s: &str, lo: usize, hi: usize) -> (r: bool)
    requires
        lo <= hi <= s@.len(),
    ensures
        r == is_float_str(s@.subrange(lo as int, hi as int)),
{
    let ghost t = s@.subrange(lo as int, hi as int);
    if lo == hi {
        return false;
    }
    let c0 = s.get_char(lo);
    let signed = c0 == '-' || c0 == '+';
    let start = if signed {
        lo + 1
    } else {
        lo
    };
    proof {
        assert(t[0] == s@[lo as int]);
        assert(strip_sign(t) =~= s@.subrange(start as int, hi as int));
    }
    let ghost b = s@.subrange(start as int, hi as int);
    if crate::text::span_eq_ignore_case(s, start, hi, "inf") || crate::text::span_eq_ignore_case(
        s,
        start,
        hi,
        "infinity",
    ) || crate::text::span_eq_ignore_case(s, start, hi, "nan") {
        proof {
            reveal_strlit("inf");
            reveal_strlit("infinity");
            reveal_strlit("nan");
            assert("inf"@ =~= seq!['i', 'n', 'f']);
            assert("infinity"@ =~= seq!['i', 'n', 'f', 'i', 'n', 'i', 't', 'y']);
            assert("nan"@ =~= seq!['n', 'a', 'n']);
        }
        return true;
    }
    proof {
        reveal_strlit("inf");
        reveal_strlit("infinity");
        reveal_strlit("nan");
        assert("inf"@ =~= seq!['i', 'n', 'f']);
        assert("infinity"@ =~= seq!['i', 'n', 'f', 'i', 'n', 'i', 't', 'y']);
        assert("nan"@ =~= seq!['n', 'a', 'n']);
        assert(!is_float_special(b));
    }
    match find_exp_range(s, start, hi) {
        Some(j) => {
            proof {
                assert(b.subrange(0, j - start) =~= s@.subrange(start as int, j as int));
                assert(b.subrange(j - start + 1, b.len() as int) =~= s@.subrange(
                    j + 1,
                    hi as int,
                ));
            }
            check_mantissa(s, start, j) && check_exp_part(s, j + 1, hi)
        },
        None => {
            proof {
                assert(b =~= s@.subrange(start as int, hi as int));
            }
            check_mantissa(s, start, hi)
        },
    }
}

/// The position of the first exponent marker in the span `lo..hi` of `s`.
fn find_exp_range(s: &str, lo: usize, hi: usize) -> (r: Option<usize>)
    requires
        lo <= hi <= s@.len(),
    ensures
        ({
            let t = s@.subrange(lo as int, hi as int);
            match r {
                Some(j) => lo <= j < hi && find_exp(t) == Some(j - lo),
                None => find_exp(t) is None,
            }
        }),
{
    let ghost t = s@.subrange(lo as int, hi as int);
    let mut j = lo;
    while j < hi
        invariant
            lo <= j <= hi <= s@.len(),
            t == s@.subrange(lo as int, hi as int),
            forall|k: int| 0 <= k < j - lo ==> !(t[k] == 'e' || t[k] == 'E'),
        decreases hi - j,
    {
        let u = s.get_char(j) as u32;
        proof {
            assert(t[j - lo] == s@[j as int]);
        }
        if u == 0x65 || u == 0x45 {
            proof {
                lemma_find_exp(t);
                if find_exp(t) is None {
                    assert(false);
                } else {
                    let k = find_exp(t)->Some_0;
                    if k < j - lo {
                        assert(!(t[k] == 'e' || t[k] == 'E'));
                    }
                    if k > j - lo {
                        assert(!(t[j - lo] == 'e' || t[j - lo] == 'E'));
                    }
                }
            }
            return Some(j);
        }
        j += 1;
    }
    proof {
        lemma_find_exp(t);
        if find_exp(t) is Some {
            let k = find_exp(t)->Some_0;
            assert(!(t[k] == 'e' || t[k] == 'E'));
        }
    }
    None
}

/// One decimal digit as text.
fn digit_str(d: u64) -> (r: &'static str)
    requires
        d < 10,
    ensures
        r@ == seq![digit_char(d as int)],
{
    proof {
        reveal_strlit("0");
        reveal_strlit("1");
        reveal_strlit("2");
        reveal_strlit("3");
        reveal_strlit("4");
        reveal_strlit("5");
        reveal_strlit("6");
        reveal_strlit("7");
        reveal_strlit("8");
        reveal_strlit("9");
    }
    if d == 0 {
        proof {
            assert("0"@ =~= seq![digit_char(0)]);
        }
        "0"
    } else if d == 1 {
        proof {
            assert("1"@ =~= seq![digit_char(1)]);
        }
        "1"
    } else if d == 2 {
        proof {
            assert("2"@ =~= seq![digit_char(2)]);
        }
        "2"
    } else if d == 3 {
        proof {
            assert("3"@ =~= seq![digit_char(3)]);
        }
        "3"
    } else if d == 4 {
        proof {
            assert("4"@ =~= seq![digit_char(4)]);
        }
        "4"
    } else if d == 5 {
        proof {
            assert("5"@ =~= seq![digit_char(5)]);
        }
        "5"
    } else if d == 6 {
        proof {
            assert("6"@ =~= seq![digit_char(6)]);
        }
        "6"
    } else if d == 7 {
        proof {
            assert("7"@ =~= seq![digit_char(7)]);
        }
        "7"
    } else if d == 8 {
        proof {
            assert("8"@ =~= seq![digit_char(8)]);
        }
        "8"
    } else {
        proof {
            assert("9"@ =~= seq![digit_char(9)]);
        }
        "9"
    }
}

/// Appends the decimal rendering of `n` to `out`.
fn push_u64_dec(n: u64, out: &mut String)
    ensures
        final(out)@ == old(out)@ + nat_dec(n as nat),
    decreases n,
{
    if n >= 10 {
        push_u64_dec(n / 10, out);
        out.append(digit_str(n % 10));
        proof {
            assert(old(out)@ + nat_dec((n / 10) as nat) + seq![digit_char((n % 10) as int)]
                =~= old(out)@ + nat_dec(n as nat));
        }
    } else {
        out.append(digit_str(n));
        proof {
            assert(old(out)@ + seq![digit_char(n as int)] =~= old(out)@ + nat_dec(n as nat));
        }
    }
}

/// Appends the decimal rendering of `v`, as `i64`'s `Display` writes it, to
/// `out`.
pub fn push_i64_dec(v: i64, out: &mut String)
    ensures
        final(out)@ == old(out)@ + int_dec(v as int),
{
    if v < 0 {
        let m: u64 = if v == i64::MIN {
            9223372036854775808
        } else {
            (-v) as u64
        };
        out.append("-");
        push_u64_dec(m, out);
        proof {
            reveal_strlit("-");
            assert("-"@ =~= seq!['-']);
            assert(old(out)@ + "-"@ + nat_dec(m as nat) =~= old(out)@ + int_dec(v as int));
        }
    } else {
        push_u64_dec(v as u64, out);
    }
}

/// Characterizes `find_exp` as the position of the first exponent marker.
pub proof fn lemma_find_exp(s: Seq<char>)
    ensures
        match find_exp(s) {
            None => forall|i: int| 0 <= i < s.len() ==> !(s[i] == 'e' || s[i] == 'E'),
            Some(k) => 0 <= k < s.len() && (s[k] == 'e' || s[k] == 'E') && forall|i: int|
                0 <= i < k ==> !(s[i] == 'e' || s[i] == 'E'),
        },
    decreases s.len(),
{
    if s.len() > 0 && !(s[0] == 'e' || s[0] == 'E') {
        let d = s.drop_first();
        lemma_find_exp(d);
        match find_exp(d) {
            None => {
                assert forall|i: int| 0 <= i < s.len() implies !(s[i] == 'e' || s[i] == 'E') by {
                    if i > 0 {
                        assert(d[i - 1] == s[i]);
                    }
                }
            },
            Some(k) => {
                assert(s[k + 1] == d[k]);
                assert forall|i: int| 0 <= i < k + 1 implies !(s[i] == 'e' || s[i] == 'E') by {
                    if i > 0 {
                        assert(d[i - 1] == s[i]);
                    }
                }
            },
        }
    }
}

} // verus!
