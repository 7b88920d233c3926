//! The literal forms that decide how a value is typed: the decimal and
//! special forms that `f64`'s `FromStr` accepts, and the two boolean words.

use crate::text::{find_char, lemma_find, subrange};
use vstd::prelude::*;

verus! {

pub open spec fn is_digit(c: char) -> bool {
    '0' <= c && c <= '9'
}

pub open spec fn all_digits(s: Seq<char>) -> bool {
    forall|i: int| 0 <= i < s.len() ==> is_digit(#[trigger] s[i])
}

/// `s` without one leading `+` or `-`.
pub open spec fn unsigned(s: Seq<char>) -> Seq<char> {
    if s.len() > 0 && (s[0] == '+' || s[0] == '-') {
        s.drop_first()
    } else {
        s
    }
}

/// `c` is the lower-case letter `l`, or its upper-case form.
pub open spec fn same_letter(c: char, l: char) -> bool {
    c == l || (l == 'a' && c == 'A') || (l == 'e' && c == 'E') || (l == 'f' && c == 'F') || (l
        == 'i' && c == 'I') || (l == 'n' && c == 'N') || (l == 't' && c == 'T') || (l == 'y' && c
        == 'Y')
}

/// `s` spells the lower-case word `w`, in any case.
pub open spec fn word_ci(s: Seq<char>, w: Seq<char>) -> bool {
    s.len() == w.len() && forall|i: int| 0 <= i < s.len() ==> same_letter(#[trigger] s[i], w[i])
}

/// `inf`, `infinity` or `nan`, in any case.
pub open spec fn special(s: Seq<char>) -> bool {
    word_ci(s, seq!['i', 'n', 'f']) || word_ci(s, seq!['i', 'n', 'f', 'i', 'n', 'i', 't', 'y'])
        || word_ci(s, seq!['n', 'a', 'n'])
}

/// Digits with at most one `.` among them, and at least one digit.
pub open spec fn mantissa(m: Seq<char>) -> bool {
    (m.len() > 0 && all_digits(m)) || exists|d: int|
        0 <= d < m.len() && m[d] == '.' && m.len() >= 2 && all_digits(m.take(d)) && all_digits(
            m.skip(d + 1),
        )
}

/// An optional sign followed by at least one digit.
pub open spec fn exponent(x: Seq<char>) -> bool {
    unsigned(x).len() > 0 && all_digits(unsigned(x))
}

/// A mantissa, optionally followed by `e` or `E` and an exponent.
pub open spec fn decimal(b: Seq<char>) -> bool {
    mantissa(b) || exists|e: int|
        0 <= e < b.len() && (b[e] == 'e' || b[e] == 'E') && mantissa(b.take(e)) && exponent(
            b.skip(e + 1),
        )
}

/// The texts that `str::parse::<f64>` accepts: an optional sign, then a
/// decimal or one of the words `inf`, `infinity`, `nan` in any case.
pub open spec fn float_literal(s: Seq<char>) -> bool {
    special(unsigned(s)) || decimal(unsigned(s))
}

/// The texts that `str::parse::<bool>` accepts.
pub open spec fn bool_literal(s: Seq<char>) -> bool {
    s == seq!['t', 'r', 'u', 'e'] || s == seq!['f', 'a', 'l', 's', 'e']
}

fn digits_only(v: &Vec<char>) -> (r: bool)
    ensures
        r == all_digits(v@),
{
    let mut i: usize = 0;
    while i < v.len()
        invariant
            i <= v.len(),
            forall|j: int| 0 <= j < i ==> is_digit(#[trigger] v@[j]),
        decreases v.len() - i,
    {
        if !('0' <= v[i] && v[i] <= '9') {
            return false;
        }
        i = i + 1;
    }
    true
}

fn strip_sign(v: &Vec<char>) -> (r: Vec<char>)
    ensures
        r@ == unsigned(v@),
{
    if v.len() > 0 && (v[0] == '+' || v[0] == '-') {
        let r = subrange(v, 1, v.len());
        assert(r@ == v@.drop_first());
        r
    } else {
        subrange(v, 0, v.len())
    }
}

fn spells(v: &Vec<char>, w: &Vec<char>) -> (r: bool)
    ensures
        r == word_ci(v@, w@),
{
    if v.len() != w.len() {
        return false;
    }
    let mut i: usize = 0;
    while i < v.len()
        invariant
            i <= v.len() == w.len(),
            forall|j: int| 0 <= j < i ==> same_letter(#[trigger] v@[j], w@[j]),
        decreases v.len() - i,
    {
        let c = v[i];
        let l = w[i];
        let same = c == l || (l == 'a' && c == 'A') || (l == 'e' && c == 'E') || (l == 'f' && c
            == 'F') || (l == 'i' && c == 'I') || (l == 'n' && c == 'N') || (l == 't' && c == 'T')
            || (l == 'y' && c == 'Y');
        if !same {
            return false;
        }
        i = i + 1;
    }
    true
}

fn is_special(v: &Vec<char>) -> (r: bool)
    ensures
        r == special(v@),
{
    let inf = vec!['i', 'n', 'f'];
    let infinity = vec!['i', 'n', 'f', 'i', 'n', 'i', 't', 'y'];
    let nan = vec!['n', 'a', 'n'];
    assert(inf@ == seq!['i', 'n', 'f']);
    assert(infinity@ == seq!['i', 'n', 'f', 'i', 'n', 'i', 't', 'y']);
    assert(nan@ == seq!['n', 'a', 'n']);
    spells(v, &inf) || spells(v, &infinity) || spells(v, &nan)
}

fn is_mantissa(v: &Vec<char>) -> (r: bool)
    ensures
        r == mantissa(v@),
{
    proof {
        lemma_find(v@, '.');
    }
    match find_char(v, '.') {
        None => {
            let r = v.len() > 0 && digits_only(v);
            assert(r == mantissa(v@)) by {
                if exists|d: int| 0 <= d < v@.len() && v@[d] == '.' {
                }
            }
            r
        },
        Some(d) => {
            assert(d < v.len());
            let head = subrange(v, 0, d);
            let tail = subrange(v, d + 1, v.len());
            let r = v.len() >= 2 && digits_only(&head) && digits_only(&tail);
            assert(!all_digits(v@)) by {
                assert(!is_digit(v@[d as int]));
            }
            assert(r == mantissa(v@)) by {
                if r {
                    assert(head@ == v@.take(d as int));
                    assert(tail@ == v@.skip(d + 1));
                }
                if exists|d2: int|
                    0 <= d2 < v@.len() && v@[d2] == '.' && v@.len() >= 2 && all_digits(
                        v@.take(d2),
                    ) && all_digits(v@.skip(d2 + 1)) {
                    let d2 = choose|d2: int|
                        0 <= d2 < v@.len() && v@[d2] == '.' && v@.len() >= 2 && all_digits(
                            v@.take(d2),
                        ) && all_digits(v@.skip(d2 + 1));
                    if d2 > d {
                        assert(!is_digit(v@.take(d2)[d as int]));
                    }
                    assert(d2 == d);
                    assert(head@ == v@.take(d as int));
                    assert(tail@ == v@.skip(d + 1));
                }
            }
            r
        },
    }
}

fn is_exponent(v: &Vec<char>) -> (r: bool)
    ensures
        r == exponent(v@),
{
    let u = strip_sign(v);
    u.len() > 0 && digits_only(&u)
}

fn is_decimal(v: &Vec<char>) -> (r: bool)
    ensures
        r == decimal(v@),
{
    let mut i: usize = 0;
    while i < v.len() && v[i] != 'e' && v[i] != 'E'
        invariant
            i <= v.len(),
            forall|j: int| 0 <= j < i ==> v@[j] != 'e' && v@[j] != 'E',
        decreases v.len() - i,
    {
        i = i + 1;
    }
    if i == v.len() {
        is_mantissa(v)
    } else {
        let head = subrange(v, 0, i);
        let tail = subrange(v, i + 1, v.len());
        assert(!mantissa(v@)) by {
            assert(!is_digit(v@[i as int]));
            if exists|d: int|
                0 <= d < v@.len() && v@[d] == '.' && v@.len() >= 2 && all_digits(v@.take(d))
                    && all_digits(v@.skip(d + 1)) {
                let d = choose|d: int|
                    0 <= d < v@.len() && v@[d] == '.' && v@.len() >= 2 && all_digits(v@.take(d))
                        && all_digits(v@.skip(d + 1));
                if i < d {
                    assert(!is_digit(v@.take(d)[i as int]));
                } else {
                    assert(!is_digit(v@.skip(d + 1)[i - d - 1]));
                }
            }
        }
        let r = is_mantissa(&head) && is_exponent(&tail);
        assert(r == decimal(v@)) by {
            assert(head@ == v@.take(i as int));
            assert(tail@ == v@.skip(i + 1));
            if exists|e: int|
                0 <= e < v@.len() && (v@[e] == 'e' || v@[e] == 'E') && mantissa(v@.take(e))
                    && exponent(v@.skip(e + 1)) {
                let e = choose|e: int|
                    0 <= e < v@.len() && (v@[e] == 'e' || v@[e] == 'E') && mantissa(v@.take(e))
                        && exponent(v@.skip(e + 1));
                if e > i {
                    lemma_mantissa_chars(v@.take(e), i as int);
                }
                assert(e == i);
            }
        }
        r
    }
}

proof fn lemma_mantissa_chars(m: Seq<char>, i: int)
    requires
        mantissa(m),
        0 <= i < m.len(),
    ensures
        is_digit(m[i]) || m[i] == '.',
{
    if !(m.len() > 0 && all_digits(m)) {
        let d = choose|d: int|
            0 <= d < m.len() && m[d] == '.' && m.len() >= 2 && all_digits(m.take(d)) && all_digits(
                m.skip(d + 1),
            );
        if i < d {
            assert(is_digit(m.take(d)[i]));
        } else if i > d {
            assert(is_digit(m.skip(d + 1)[i - d - 1]));
        }
    }
}

/// Whether `str::parse::<f64>` accepts the text.
pub fn is_float_literal(v: &Vec<char>) -> (r: bool)
    ensures
        r == float_literal(v@),
{
    let u = strip_sign(v);
    is_special(&u) || is_decimal(&u)
}

/// Whether `str::parse::<bool>` accepts the text.
pub fn is_bool_literal(v: &Vec<char>) -> (r: bool)
    ensures
        r == bool_literal(v@),
{
    let t = vec!['t', 'r', 'u', 'e'];
    let f = vec!['f', 'a', 'l', 's', 'e'];
    assert(t@ == seq!['t', 'r', 'u', 'e']);
    assert(f@ == seq!['f', 'a', 'l', 's', 'e']);
    same_chars(v, &t) || same_chars(v, &f)
}

/// Whether the two vectors hold the same characters.
pub fn same_chars(a: &Vec<char>, b: &Vec<char>) -> (r: bool)
    ensures
        r == (a@ == b@),
{
    if a.len() != b.len() {
        return false;
    }
    let mut i: usize = 0;
    while i < a.len()
        invariant
            i <= a.len() == b.len(),
            forall|j: int| 0 <= j < i ==> a@[j] == b@[j],
        decreases a.len() - i,
    {
        if a[i] != b[i] {
            return false;
        }
        i = i + 1;
    }
    assert(a@ =~= b@);
    true
}

} // verus!
