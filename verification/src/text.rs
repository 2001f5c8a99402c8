//! Characters and whitespace: the whitespace predicate used for trimming,
//! the trim function on character sequences, and small executable helpers
//! over string spans.

use vstd::prelude::*;

verus! {

/// A whitespace character: one with the Unicode `White_Space` property,
/// exactly the set that `str::trim` removes from the ends of a string.
pub open spec fn is_ws(c: char) -> bool {
    let u = c as u32;
    u == 0x09 || u == 0x0A || u == 0x0B || u == 0x0C || u == 0x0D || u == 0x20 || u == 0x85
        || u == 0xA0 || u == 0x1680 || (0x2000 <= u && u <= 0x200A) || u == 0x2028 || u == 0x2029
        || u == 0x202F || u == 0x205F || u == 0x3000
}

/// Drops leading whitespace.
pub open spec fn trim_front(s: Seq<char>) -> Seq<char>
    decreases s.len(),
{
    if s.len() > 0 && is_ws(s[0]) {
        trim_front(s.drop_first())
    } else {
        s
    }
}

/// Drops trailing whitespace.
pub open spec fn trim_back(s: Seq<char>) -> Seq<char>
    decreases s.len(),
{
    if s.len() > 0 && is_ws(s[s.len() - 1]) {
        trim_back(s.drop_last())
    } else {
        s
    }
}

/// The string with whitespace removed from both ends, as `str::trim` leaves it.
pub open spec fn trim(s: Seq<char>) -> Seq<char> {
    trim_back(trim_front(s))
}

pub proof fn lemma_trim_front_len(s: Seq<char>)
    ensures
        trim_front(s).len() <= s.len(),
    decreases s.len(),
{
    if s.len() > 0 && is_ws(s[0]) {
        lemma_trim_front_len(s.drop_first());
    }
}

pub proof fn lemma_trim_back_len(s: Seq<char>)
    ensures
        trim_back(s).len() <= s.len(),
    decreases s.len(),
{
    if s.len() > 0 && is_ws(s[s.len() - 1]) {
        lemma_trim_back_len(s.drop_last());
    }
}

pub proof fn lemma_trim_len(s: Seq<char>)
    ensures
        trim(s).len() <= s.len(),
{
    lemma_trim_front_len(s);
    lemma_trim_back_len(trim_front(s));
}

/// Trimming a string whose ends hold no whitespace leaves it unchanged.
pub proof fn lemma_trim_noop(s: Seq<char>)
    requires
        s.len() > 0,
        !is_ws(s[0]),
        !is_ws(s[s.len() - 1]),
    ensures
        trim(s) == s,
{
}

/// Whether `c` is a whitespace character.
pub fn ws_char(c: char) -> (r: bool)
    ensures
        r == is_ws(c),
{
    let u = c as u32;
    u == 0x09 || u == 0x0A || u == 0x0B || u == 0x0C || u == 0x0D || u == 0x20 || u == 0x85
        || u == 0xA0 || u == 0x1680 || (0x2000 <= u && u <= 0x200A) || u == 0x2028 || u == 0x2029
        || u == 0x202F || u == 0x205F || u == 0x3000
}

/// Narrows the span `lo..hi` of `s` to its trimmed core.
pub fn trim_range(s: &str, lo: usize, hi: usize) -> (r: (usize, usize))
    requires
        lo <= hi <= s@.len(),
    ensures
        lo <= r.0 <= r.1 <= hi,
        s@.subrange(r.0 as int, r.1 as int) == trim(s@.subrange(lo as int, hi as int)),
{
    let mut a = lo;
    let mut b = hi;
    while a < b && ws_char(s.get_char(a))
        invariant
            lo <= a <= b,
            b == hi <= s@.len(),
            trim_front(s@.subrange(lo as int, hi as int)) == trim_front(
                s@.subrange(a as int, hi as int),
            ),
        decreases b - a,
    {
        proof {
            assert(s@.subrange(a as int, hi as int).drop_first() =~= s@.subrange(
                a + 1,
                hi as int,
            ));
        }
        a += 1;
    }
    proof {
        assert(trim_front(s@.subrange(a as int, hi as int)) == s@.subrange(a as int, hi as int));
    }
    while a < b && ws_char(s.get_char(b - 1))
        invariant
            lo <= a <= b <= hi <= s@.len(),
            trim(s@.subrange(lo as int, hi as int)) == trim_back(s@.subrange(a as int, b as int)),
        decreases b,
    {
        proof {
            assert(s@.subrange(a as int, b as int).drop_last() =~= s@.subrange(
                a as int,
                b - 1,
            ));
        }
        b -= 1;
    }
    proof {
        assert(trim_back(s@.subrange(a as int, b as int)) == s@.subrange(a as int, b as int));
    }
    (a, b)
}

/// Whether the spans `alo..ahi` of `a` and the whole of `b` hold the same
/// characters.
pub fn span_eq_str(a: &str, alo: usize, ahi: usize, b: &str) -> (r: bool)
    requires
        alo <= ahi <= a@.len(),
    ensures
        r == (a@.subrange(alo as int, ahi as int) == b@),
{
    let blen = b.unicode_len();
    if ahi - alo != blen {
        proof {
            assert(a@.subrange(alo as int, ahi as int).len() != b@.len());
        }
        return false;
    }
    let mut i: usize = 0;
    while i < blen
        invariant
            alo <= ahi <= a@.len(),
            ahi - alo == blen == b@.len(),
            i <= blen,
            forall|j: int| 0 <= j < i ==> a@.subrange(alo as int, ahi as int)[j] == b@[j],
        decreases blen - i,
    {
        if a.get_char(alo + i) != b.get_char(i) {
            proof {
                assert(a@.subrange(alo as int, ahi as int)[i as int] != b@[i as int]);
            }
            return false;
        }
        i += 1;
    }
    proof {
        assert(a@.subrange(alo as int, ahi as int) =~= b@);
    }
    true
}

/// Whether two string slices hold the same characters.
pub fn str_eq(a: &str, b: &str) -> (r: bool)
    ensures
        r == (a@ == b@),
{
    let n = a.unicode_len();
    let r = span_eq_str(a, 0, n, b);
    proof {
        assert(a@.subrange(0, a@.len() as int) =~= a@);
    }
    r
}

/// ASCII-case-insensitive equality of two characters, as
/// `char::eq_ignore_ascii_case` decides it.
pub open spec fn eq_ig_case_char(a: char, b: char) -> bool {
    lower_ascii(a) == lower_ascii(b)
}

/// Maps an ASCII upper-case letter to lower case and leaves all else alone.
pub open spec fn lower_ascii(c: char) -> int {
    let u = c as u32;
    if 0x41 <= u && u <= 0x5A {
        u + 0x20
    } else {
        u as int
    }
}

/// ASCII-case-insensitive equality of two character sequences, as
/// `str::eq_ignore_ascii_case` decides it.
pub open spec fn eq_ig_case(a: Seq<char>, b: Seq<char>) -> bool {
    a.len() == b.len() && forall|i: int| 0 <= i < a.len() ==> eq_ig_case_char(a[i], b[i])
}

/// Whether the span `alo..ahi` of `a` equals `b` up to ASCII case.
pub fn span_eq_ignore_case(a: &str, alo: usize, ahi: usize, b: &str) -> (r: bool)
    requires
        alo <= ahi <= a@.len(),
    ensures
        r == eq_ig_case(a@.subrange(alo as int, ahi as int), b@),
{
    let blen = b.unicode_len();
    if ahi - alo != blen {
        return false;
    }
    let mut i: usize = 0;
    while i < blen
        invariant
            alo <= ahi <= a@.len(),
            ahi - alo == blen == b@.len(),
            i <= blen,
            forall|j: int|
                0 <= j < i ==> eq_ig_case_char(
                    a@.subrange(alo as int, ahi as int)[j],
                    b@[j],
                ),
        decreases blen - i,
    {
        let ca = a.get_char(alo + i) as u32;
        let cb = b.get_char(i) as u32;
        let la = if 0x41 <= ca && ca <= 0x5A {
            ca + 0x20
        } else {
            ca
        };
        let lb = if 0x41 <= cb && cb <= 0x5A {
            cb + 0x20
        } else {
            cb
        };
        if la != lb {
            proof {
                assert(!eq_ig_case_char(
                    a@.subrange(alo as int, ahi as int)[i as int],
                    b@[i as int],
                ));
            }
            return false;
        }
        i += 1;
    }
    true
}

} // verus!
