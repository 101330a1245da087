//! The executable parser, specified against the grammar module: every
//! function returns exactly what the corresponding spec function says,
//! both on success and on failure.
//!
//! The input is held as a vector of characters and every sub-parser takes
//! the position it starts at, returning the position it stopped at; its
//! contract speaks of the suffix `s@.skip(pos)` that the spec functions
//! consume from.

use vstd::prelude::*;
use vstd::seq_lib::lemma_seq_skip_of_skip;

use crate::grammar::{
    array_items, digit_run, exp_len, has_prefix, hex4_val, hex_val, is_digit, is_float_literal,
    is_hex_digit, lemma_number_len_le, lemma_parse_string_len, mantissa_len, number_len,
    object_items, parse_array, parse_number, parse_object, parse_string, parse_value,
    parse_value_inner, sign_len, skip_ws, string_body, unescape_char, upsert, with_ctx,
};
use crate::{items_view, pairs_view, value_view, Context, JsonVal, ParseError, Value};

verus! {

pub(crate) proof fn lemma_skip_plus(s: Seq<char>, a: int, b: int)
    requires
        0 <= a,
        0 <= b,
        a + b <= s.len(),
    ensures
        s.skip(a).skip(b) == s.skip(a + b),
{
    lemma_seq_skip_of_skip(s, a, b);
}

/// Consumes the maximal run of whitespace from `pos`.
fn js_spaces(s: &Vec<char>, pos: usize) -> (r: usize)
    requires
        pos <= s@.len(),
    ensures
        pos <= r <= s@.len(),
        s@.skip(r as int) == skip_ws(s@.skip(pos as int)),
{
    let mut i: usize = pos;
    while i < s.len() && (s[i] == ' ' || s[i] == '\n' || s[i] == '\r' || s[i] == '\t')
        invariant
            pos <= i <= s@.len(),
            skip_ws(s@.skip(pos as int)) == skip_ws(s@.skip(i as int)),
        decreases s@.len() - i,
    {
        proof {
            assert(s@.skip(i as int)[0] == s@[i as int]);
            lemma_skip_plus(s@, i as int, 1);
        }
        i = i + 1;
    }
    proof {
        if i < s@.len() {
            assert(s@.skip(i as int)[0] == s@[i as int]);
        }
        assert(skip_ws(s@.skip(i as int)) == s@.skip(i as int));
    }
    i
}

/// The characters of `s`, in order.
fn to_chars(s: &str) -> (r: Vec<char>)
    ensures
        r@ == s@,
{
    let n = s.unicode_len();
    let mut r: Vec<char> = Vec::new();
    let mut i: usize = 0;
    while i < n
        invariant
            i <= n,
            n == s@.len(),
            r@ == s@.subrange(0, i as int),
        decreases n - i,
    {
        let c = s.get_char(i);
        r.push(c);
        proof {
            assert(r@ =~= s@.subrange(0, i + 1));
        }
        i = i + 1;
    }
    proof {
        assert(s@.subrange(0, n as int) =~= s@);
    }
    r
}

/// The `null` literal, producing `Value::Null`.
fn null(s: &Vec<char>, pos: usize) -> (r: Result<(usize, Value), ParseError>)
    requires
        pos <= s@.len(),
    ensures
        match r {
            Ok(p) => {
                &&& p.0 == pos + 4 <= s@.len()
                &&& has_prefix(s@.skip(pos as int), seq!['n', 'u', 'l', 'l'])
                &&& p.1 == Value::Null
            },
            Err(e) => {
                &&& !has_prefix(s@.skip(pos as int), seq!['n', 'u', 'l', 'l'])
                &&& e == ParseError::SyntaxMismatch(Context::Unlabeled)
            },
        },
{
    if s.len() - pos >= 4 && s[pos] == 'n' && s[pos + 1] == 'u' && s[pos + 2] == 'l' && s[pos + 3]
        == 'l' {
        proof {
            assert(s@.skip(pos as int).subrange(0, 4) =~= seq!['n', 'u', 'l', 'l']);
        }
        Ok((pos + 4, Value::Null))
    } else {
        proof {
            if has_prefix(s@.skip(pos as int), seq!['n', 'u', 'l', 'l']) {
                assert(s@.skip(pos as int).subrange(0, 4)[0] == s@[pos as int]);
                assert(s@.skip(pos as int).subrange(0, 4)[1] == s@[pos + 1]);
                assert(s@.skip(pos as int).subrange(0, 4)[2] == s@[pos + 2]);
                assert(s@.skip(pos as int).subrange(0, 4)[3] == s@[pos + 3]);
            }
        }
        Err(ParseError::SyntaxMismatch(Context::Unlabeled))
    }
}

/// The `true` and `false` literals, producing `Value::Boolean`.
fn boolean(s: &Vec<char>, pos: usize) -> (r: Result<(usize, Value), ParseError>)
    requires
        pos <= s@.len(),
    ensures
        match r {
            Ok(p) => {
                &&& pos <= p.0 <= s@.len()
                &&& (p.1 == Value::Boolean(true) || p.1 == Value::Boolean(false))
                &&& (p.1 == Value::Boolean(true) ==> has_prefix(
                    s@.skip(pos as int),
                    seq!['t', 'r', 'u', 'e'],
                ) && p.0 == pos + 4)
                &&& (p.1 == Value::Boolean(false) ==> has_prefix(
                    s@.skip(pos as int),
                    seq!['f', 'a', 'l', 's', 'e'],
                ) && p.0 == pos + 5)
            },
            Err(e) => {
                &&& !has_prefix(s@.skip(pos as int), seq!['t', 'r', 'u', 'e'])
                &&& !has_prefix(s@.skip(pos as int), seq!['f', 'a', 'l', 's', 'e'])
                &&& e == ParseError::SyntaxMismatch(Context::Unlabeled)
            },
        },
{
    if s.len() - pos >= 4 && s[pos] == 't' && s[pos + 1] == 'r' && s[pos + 2] == 'u' && s[pos + 3]
        == 'e' {
        proof {
            assert(s@.skip(pos as int).subrange(0, 4) =~= seq!['t', 'r', 'u', 'e']);
        }
        Ok((pos + 4, Value::Boolean(true)))
    } else if s.len() - pos >= 5 && s[pos] == 'f' && s[pos + 1] == 'a' && s[pos + 2] == 'l' && s[pos
        + 3] == 's' && s[pos + 4] == 'e' {
        proof {
            assert(s@.skip(pos as int).subrange(0, 5) =~= seq!['f', 'a', 'l', 's', 'e']);
        }
        Ok((pos + 5, Value::Boolean(false)))
    } else {
        proof {
            if has_prefix(s@.skip(pos as int), seq!['t', 'r', 'u', 'e']) {
                assert(s@.skip(pos as int).subrange(0, 4)[0] == s@[pos as int]);
                assert(s@.skip(pos as int).subrange(0, 4)[1] == s@[pos + 1]);
                assert(s@.skip(pos as int).subrange(0, 4)[2] == s@[pos + 2]);
                assert(s@.skip(pos as int).subrange(0, 4)[3] == s@[pos + 3]);
            }
            if has_prefix(s@.skip(pos as int), seq!['f', 'a', 'l', 's', 'e']) {
                assert(s@.skip(pos as int).subrange(0, 5)[0] == s@[pos as int]);
                assert(s@.skip(pos as int).subrange(0, 5)[1] == s@[pos + 1]);
                assert(s@.skip(pos as int).subrange(0, 5)[2] == s@[pos + 2]);
                assert(s@.skip(pos as int).subrange(0, 5)[3] == s@[pos + 3]);
                assert(s@.skip(pos as int).subrange(0, 5)[4] == s@[pos + 4]);
            }
        }
        Err(ParseError::SyntaxMismatch(Context::Unlabeled))
    }
}

/// Counts the digits from `pos`, returning the position after the run.
fn digit_count(s: &Vec<char>, pos: usize) -> (r: usize)
    requires
        pos <= s@.len(),
    ensures
        pos <= r <= s@.len(),
        r - pos == digit_run(s@.skip(pos as int)),
{
    let mut i: usize = pos;
    while i < s.len() && 48 <= s[i] as u32 && s[i] as u32 <= 57
        invariant
            pos <= i <= s@.len(),
            digit_run(s@.skip(pos as int)) == (i - pos) + digit_run(s@.skip(i as int)),
        decreases s@.len() - i,
    {
        proof {
            assert(s@.skip(i as int)[0] == s@[i as int]);
            lemma_skip_plus(s@, i as int, 1);
        }
        i = i + 1;
    }
    proof {
        if i < s@.len() {
            assert(s@.skip(i as int)[0] == s@[i as int]);
        }
        assert(digit_run(s@.skip(i as int)) == 0);
    }
    i
}

proof fn lemma_digit_run_prefix(u: Seq<char>, k: int)
    requires
        digit_run(u) <= k <= u.len(),
    ensures
        digit_run(u.subrange(0, k)) == digit_run(u),
    decreases u.len(),
{
    if k == 0 {
        assert(u.subrange(0, 0) =~= Seq::<char>::empty());
    } else if u.len() > 0 && is_digit(u[0]) {
        assert(u.subrange(0, k)[0] == u[0]);
        assert(u.subrange(0, k).skip(1) =~= u.skip(1).subrange(0, k - 1));
        lemma_digit_run_prefix(u.skip(1), k - 1);
    } else {
        assert(u.subrange(0, k)[0] == u[0]);
    }
}

/// The position after the maximal float literal at `pos`, or `pos` itself
/// when no literal starts there.
#[verifier::rlimit(50)]
fn number_end(s: &Vec<char>, pos: usize) -> (r: usize)
    requires
        pos <= s@.len(),
    ensures
        pos <= r <= s@.len(),
        r > pos ==> number_len(s@.skip(pos as int)) == r - pos,
        r == pos ==> number_len(s@.skip(pos as int)) == -1,
{
    let ghost u = s@.skip(pos as int);
    let sgn: usize = if pos < s.len() && (s[pos] == '+' || s[pos] == '-') {
        1
    } else {
        0
    };
    proof {
        if pos < s@.len() {
            assert(u[0] == s@[pos as int]);
        }
        assert(sign_len(u) == sgn);
        lemma_skip_plus(s@, pos as int, sgn as int);
    }
    let p1 = pos + sgn;
    let ghost v = s@.skip(p1 as int);
    let d1_end = digit_count(s, p1);
    let ghost d1 = d1_end - p1;
    // the end of the mantissa, or p1 when there is none
    let m_end: usize = if d1_end > p1 {
        if d1_end < s.len() && s[d1_end] == '.' {
            proof {
                assert(v[d1 as int] == s@[d1_end as int]);
                lemma_skip_plus(s@, p1 as int, d1 + 1);
            }
            let de = digit_count(s, d1_end + 1);
            proof {
                assert(mantissa_len(v) == d1 + 1 + digit_run(s@.skip(d1_end + 1)));
            }
            de
        } else {
            proof {
                if d1_end < s@.len() {
                    assert(v[d1 as int] == s@[d1_end as int]);
                }
            }
            d1_end
        }
    } else {
        if s.len() - p1 >= 2 && s[p1] == '.' && 48 <= s[p1 + 1] as u32 && s[p1 + 1] as u32 <= 57 {
            proof {
                assert(v[0] == s@[p1 as int]);
                assert(v[1] == s@[p1 + 1]);
                lemma_skip_plus(s@, p1 as int, 1);
            }
            digit_count(s, p1 + 1)
        } else {
            proof {
                if v.len() >= 2 {
                    assert(v[0] == s@[p1 as int]);
                    assert(v[1] == s@[p1 + 1]);
                }
                assert(mantissa_len(v) == -1);
                assert(number_len(u) == -1);
            }
            return pos;
        }
    };
    proof {
        assert(mantissa_len(v) == m_end - p1);
        lemma_skip_plus(s@, pos as int, (sgn + (m_end - p1)) as int);
    }
    let ghost x = s@.skip(m_end as int);
    // the end of the exponent, or m_end when it is absent or has no digits
    let e_end: usize = if m_end < s.len() && (s[m_end] == 'e' || s[m_end] == 'E') {
        let es: usize = if m_end + 1 < s.len() && (s[m_end + 1] == '+' || s[m_end + 1] == '-') {
            1
        } else {
            0
        };
        proof {
            assert(x[0] == s@[m_end as int]);
            lemma_skip_plus(s@, m_end as int, 1);
            if m_end + 1 < s@.len() {
                assert(s@.skip(m_end + 1)[0] == s@[m_end + 1]);
            }
            assert(sign_len(s@.skip(m_end + 1)) == es);
            lemma_skip_plus(s@, m_end + 1, es as int);
            lemma_skip_plus(s@, m_end as int, 1 + es);
        }
        let d_end = digit_count(s, m_end + 1 + es);
        if d_end > m_end + 1 + es {
            proof {
                assert(exp_len(x) == 1 + es + (d_end - (m_end + 1 + es)));
            }
            d_end
        } else {
            proof {
                assert(exp_len(x) == 0);
            }
            m_end
        }
    } else {
        proof {
            if m_end < s@.len() {
                assert(x[0] == s@[m_end as int]);
            }
            assert(exp_len(x) == 0);
        }
        m_end
    };
    proof {
        assert(number_len(u) == e_end - pos);
    }
    e_end
}

proof fn lemma_number_len_prefix(u: Seq<char>, n: int)
    requires
        number_len(u) == n,
        n > 0,
    ensures
        is_float_literal(u.subrange(0, n)),
{
    lemma_number_len_le(u);
    let s0 = sign_len(u);
    let v = u.skip(s0);
    let m = mantissa_len(v);
    let e = exp_len(u.skip(s0 + m));
    let w = u.subrange(0, n);
    assert(w.len() == n);
    assert(w[0] == u[0]);
    assert(sign_len(w) == s0);
    let v2 = w.skip(s0);
    assert(v2 =~= v.subrange(0, m + e));
    let d1 = digit_run(v) as int;
    if d1 > 0 {
        lemma_digit_run_prefix(v, m + e);
        assert(digit_run(v2) == d1);
        if d1 < v.len() && v[d1] == '.' {
            let d2 = digit_run(v.skip(d1 + 1)) as int;
            assert(m == d1 + 1 + d2);
            assert(v2[d1] == v[d1]);
            assert(v2.skip(d1 + 1) =~= v.skip(d1 + 1).subrange(0, d2 + e));
            lemma_digit_run_prefix(v.skip(d1 + 1), d2 + e);
            assert(mantissa_len(v2) == m);
        } else {
            assert(m == d1);
            if d1 < v2.len() {
                assert(v2[d1] == v[d1]);
            }
            assert(mantissa_len(v2) == m);
        }
    } else {
        assert(v.len() >= 2 && v[0] == '.' && is_digit(v[1]));
        let d2 = digit_run(v.skip(1)) as int;
        assert(m == 1 + d2);
        assert(v2[0] == v[0]);
        assert(v2[1] == v[1]);
        assert(v2.skip(1) =~= v.skip(1).subrange(0, d2 + e));
        lemma_digit_run_prefix(v.skip(1), d2 + e);
        assert(digit_run(v2) == 0);
        assert(mantissa_len(v2) == m);
    }
    let x = u.skip(s0 + m);
    let x2 = w.skip(s0 + m);
    assert(x2 =~= x.subrange(0, e));
    if e == 0 {
        assert(exp_len(x2) == 0);
    } else {
        let es = sign_len(x.skip(1));
        let d = digit_run(x.skip(1 + es)) as int;
        assert(e == 1 + es + d);
        assert(x2[0] == x[0]);
        assert(x2.skip(1) =~= x.skip(1).subrange(0, es + d));
        if es == 1 {
            assert(x2.skip(1)[0] == x.skip(1)[0]);
        } else {
            assert(x2.skip(1)[0] == x.skip(1)[0]);
        }
        assert(sign_len(x2.skip(1)) == es);
        assert(x2.skip(1).skip(es) =~= x.skip(1 + es).subrange(0, d));
        lemma_digit_run_prefix(x.skip(1 + es), d);
        assert(x2.skip(1).skip(es) =~= x2.skip(1 + es));
        assert(exp_len(x2) == e);
    }
    assert(number_len(w) == n);
}

/// A number: the maximal float literal at `pos`, valued at its bit pattern.
fn number(s: &Vec<char>, pos: usize) -> (r: Result<(usize, Value), ParseError>)
    requires
        pos <= s@.len(),
    ensures
        match r {
            Ok(p) => pos <= p.0 <= s@.len() && parse_number(s@.skip(pos as int)) == Ok::<
                (Seq<char>, JsonVal),
                ParseError,
            >((s@.skip(p.0 as int), value_view(p.1))),
            Err(e) => parse_number(s@.skip(pos as int)) == Err::<(Seq<char>, JsonVal), ParseError>(
                e,
            ),
        },
{
    let end = number_end(s, pos);
    if end == pos {
        return Err(ParseError::SyntaxMismatch(Context::Unlabeled));
    }
    let mut lit = String::new();
    let mut i: usize = pos;
    while i < end
        invariant
            pos <= i <= end <= s@.len(),
            lit@ == s@.subrange(pos as int, i as int),
        decreases end - i,
    {
        let c = s[i];
        crate::trusted::push_char(&mut lit, c);
        proof {
            assert(lit@ =~= s@.subrange(pos as int, i + 1));
        }
        i = i + 1;
    }
    proof {
        assert(s@.subrange(pos as int, end as int) =~= s@.skip(pos as int).subrange(
            0,
            end - pos,
        ));
        lemma_number_len_prefix(s@.skip(pos as int), end - pos);
        lemma_skip_plus(s@, pos as int, end - pos);
    }
    let bits = crate::trusted::float_bits(lit.as_str());
    Ok((end, Value::Number(bits)))
}


/// The value of one hexadecimal digit, or `None` for any other character.
fn hex_digit_val(c: char) -> (r: Option<u32>)
    ensures
        match r {
            Some(v) => is_hex_digit(c) && v == hex_val(c) && v <= 15,
            None => !is_hex_digit(c),
        },
{
    let u = c as u32;
    if 48 <= u && u <= 57 {
        Some(u - 48)
    } else if 97 <= u && u <= 102 {
        Some(u - 87)
    } else if 65 <= u && u <= 70 {
        Some(u - 55)
    } else {
        None
    }
}

/// Four hexadecimal digits at `pos`, read as one code point.
fn hex(s: &Vec<char>, pos: usize) -> (r: Option<u32>)
    requires
        pos <= s@.len(),
    ensures
        match r {
            Some(n) => {
                &&& pos + 4 <= s@.len()
                &&& is_hex_digit(s@[pos as int]) && is_hex_digit(s@[pos + 1]) && is_hex_digit(
                    s@[pos + 2],
                ) && is_hex_digit(s@[pos + 3])
                &&& n == hex4_val(s@.skip(pos as int))
                &&& n <= 0xFFFF
            },
            None => !(pos + 4 <= s@.len() && is_hex_digit(s@[pos as int]) && is_hex_digit(
                s@[pos + 1],
            ) && is_hex_digit(s@[pos + 2]) && is_hex_digit(s@[pos + 3])),
        },
{
    if s.len() - pos < 4 {
        return None;
    }
    let v0 = hex_digit_val(s[pos]);
    let v1 = hex_digit_val(s[pos + 1]);
    let v2 = hex_digit_val(s[pos + 2]);
    let v3 = hex_digit_val(s[pos + 3]);
    match (v0, v1, v2, v3) {
        (Some(a), Some(b), Some(c), Some(d)) => {
            proof {
                assert(s@.skip(pos as int)[0] == s@[pos as int]);
                assert(s@.skip(pos as int)[1] == s@[pos + 1]);
                assert(s@.skip(pos as int)[2] == s@[pos + 2]);
                assert(s@.skip(pos as int)[3] == s@[pos + 3]);
            }
            Some(((a * 16 + b) * 16 + c) * 16 + d)
        },
        _ => None,
    }
}

/// What a simple escape decodes to.
fn unescape(c: char) -> (r: char)
    ensures
        r == unescape_char(c),
{
    match c {
        'n' => '\n',
        'r' => '\r',
        't' => '\t',
        _ => c,
    }
}

/// A quoted string at `pos`: decodes the body and consumes the closing
/// quote, returning the position after it and the decoded text.
fn js_string(s: &Vec<char>, pos: usize) -> (r: Result<(usize, String), ParseError>)
    requires
        pos <= s@.len(),
    ensures
        match r {
            Ok(p) => pos <= p.0 <= s@.len() && parse_string(s@.skip(pos as int)) == Ok::<
                (Seq<char>, Seq<char>),
                ParseError,
            >((s@.skip(p.0 as int), p.1@)),
            Err(e) => parse_string(s@.skip(pos as int)) == Err::<(Seq<char>, Seq<char>), ParseError>(
                e,
            ),
        },
{
    if !(pos < s.len() && s[pos] == '"') {
        proof {
            if pos < s@.len() {
                assert(s@.skip(pos as int)[0] == s@[pos as int]);
            }
        }
        return Err(ParseError::SyntaxMismatch(Context::Unlabeled));
    }
    proof {
        assert(s@.skip(pos as int)[0] == s@[pos as int]);
        lemma_skip_plus(s@, pos as int, 1);
    }
    let mut out = String::new();
    let mut i: usize = pos + 1;
    loop
        invariant
            pos < s@.len(),
            s@[pos as int] == '"',
            pos + 1 <= i <= s@.len(),
            s@.skip(pos as int)[0] == '"',
            s@.skip(pos as int).skip(1) == s@.skip(pos + 1),
            string_body(s@.skip(pos + 1), Seq::empty()) == string_body(s@.skip(i as int), out@),
        decreases s@.len() - i,
    {
        if i == s.len() {
            return Err(ParseError::TruncatedInput(Context::Unlabeled));
        }
        let ghost u = s@.skip(i as int);
        proof {
            assert(u[0] == s@[i as int]);
        }
        let c = s[i];
        if c == '"' {
            proof {
                lemma_skip_plus(s@, i as int, 1);
            }
            return Ok((i + 1, out));
        }
        if c == '\\' {
            if s.len() - i < 2 {
                return Err(ParseError::TruncatedInput(Context::Unlabeled));
            }
            proof {
                assert(u[1] == s@[i + 1]);
            }
            let c2 = s[i + 1];
            if c2 == 'u' {
                match hex(s, i + 2) {
                    Some(n) => {
                        proof {
                            lemma_skip_plus(s@, i as int, 2);
                            assert(u[2] == s@[i + 2]);
                            assert(u[3] == s@[i + 3]);
                            assert(u[4] == s@[i + 4]);
                            assert(u[5] == s@[i + 5]);
                        }
                        if 0xD800 <= n && n <= 0xDFFF {
                            return Err(ParseError::MalformedEscape(Context::Unlabeled));
                        }
                        match crate::trusted::char_from_code(n) {
                            Some(ch) => {
                                proof {
                                    vstd::utf8::char_u32_cast(ch, n);
                                    lemma_skip_plus(s@, i as int, 6);
                                }
                                crate::trusted::push_char(&mut out, ch);
                                i = i + 6;
                            },
                            None => {
                                proof {
                                    assert(false);
                                }
                                return Err(ParseError::MalformedEscape(Context::Unlabeled));
                            },
                        }
                    },
                    None => {
                        proof {
                            if s@.skip(i as int).len() >= 6 {
                                assert(u[2] == s@[i + 2]);
                                assert(u[3] == s@[i + 3]);
                                assert(u[4] == s@[i + 4]);
                                assert(u[5] == s@[i + 5]);
                            }
                        }
                        return Err(ParseError::MalformedEscape(Context::Unlabeled));
                    },
                }
            } else {
                let ch = unescape(c2);
                proof {
                    lemma_skip_plus(s@, i as int, 2);
                }
                crate::trusted::push_char(&mut out, ch);
                i = i + 2;
            }
        } else {
            proof {
                lemma_skip_plus(s@, i as int, 1);
            }
            crate::trusted::push_char(&mut out, c);
            i = i + 1;
        }
    }
}


proof fn lemma_items_view_index(items: Seq<Value>)
    ensures
        items_view(items).len() == items.len(),
        forall|i: int| 0 <= i < items.len() ==> #[trigger] items_view(items)[i] == value_view(
            items[i],
        ),
    decreases items.len(),
{
    if items.len() > 0 {
        lemma_items_view_index(items.drop_last());
    }
}

proof fn lemma_pairs_view_index(kvs: Seq<(String, Value)>)
    ensures
        pairs_view(kvs).len() == kvs.len(),
        forall|i: int| 0 <= i < kvs.len() ==> #[trigger] pairs_view(kvs)[i] == (
            kvs[i].0@,
            value_view(kvs[i].1),
        ),
    decreases kvs.len(),
{
    if kvs.len() > 0 {
        lemma_pairs_view_index(kvs.drop_last());
    }
}

proof fn lemma_upsert_at(s: Seq<(Seq<char>, JsonVal)>, j: int, k: Seq<char>, v: JsonVal)
    requires
        0 <= j < s.len(),
        s[j].0 == k,
        forall|t: int| 0 <= t < j ==> (#[trigger] s[t]).0 != k,
    ensures
        upsert(s, k, v) == s.update(j, (k, v)),
    decreases j,
{
    if j == 0 {
    } else {
        assert(s[0].0 != k);
        lemma_upsert_at(s.skip(1), j - 1, k, v);
        assert(seq![s[0]] + s.skip(1).update(j - 1, (k, v)) =~= s.update(j, (k, v)));
    }
}

proof fn lemma_upsert_absent(s: Seq<(Seq<char>, JsonVal)>, k: Seq<char>, v: JsonVal)
    requires
        forall|t: int| 0 <= t < s.len() ==> (#[trigger] s[t]).0 != k,
    ensures
        upsert(s, k, v) == s.push((k, v)),
    decreases s.len(),
{
    if s.len() == 0 {
        assert(seq![(k, v)] =~= s.push((k, v)));
    } else {
        assert(s[0].0 != k);
        lemma_upsert_absent(s.skip(1), k, v);
        assert(seq![s[0]] + s.skip(1).push((k, v)) =~= s.push((k, v)));
    }
}

/// Character-for-character equality of two strings.
fn str_eq(a: &str, b: &str) -> (r: bool)
    ensures
        r == (a@ == b@),
{
    let n = a.unicode_len();
    if n != b.unicode_len() {
        return false;
    }
    let mut i: usize = 0;
    while i < n
        invariant
            i <= n,
            n == a@.len(),
            n == b@.len(),
            forall|j: int| 0 <= j < i ==> a@[j] == b@[j],
        decreases n - i,
    {
        if a.get_char(i) != b.get_char(i) {
            return false;
        }
        i = i + 1;
    }
    proof {
        assert(a@ =~= b@);
    }
    true
}

/// Replaces the value under `k`, keeping the position of the key's first
/// occurrence, or appends a new entry.
fn upsert_entry(kvs: &mut Vec<(String, Value)>, k: String, v: Value)
    ensures
        pairs_view(final(kvs)@) == upsert(pairs_view(old(kvs)@), k@, value_view(v)),
{
    let ghost s0 = pairs_view(kvs@);
    proof {
        lemma_pairs_view_index(kvs@);
    }
    let mut j: usize = 0;
    while j < kvs.len()
        invariant
            j <= kvs@.len(),
            *kvs == *old(kvs),
            s0 == pairs_view(kvs@),
            forall|t: int| 0 <= t < j ==> (#[trigger] kvs@[t]).0@ != k@,
        decreases kvs@.len() - j,
    {
        proof {
            lemma_pairs_view_index(kvs@);
        }
        if str_eq(kvs[j].0.as_str(), k.as_str()) {
            proof {
                lemma_pairs_view_index(kvs@);
                assert(s0[j as int].0 == k@);
                assert(forall|t: int| 0 <= t < j ==> (#[trigger] s0[t]).0 != k@);
                lemma_upsert_at(s0, j as int, k@, value_view(v));
            }
            let ghost before = kvs@;
            kvs.set(j, (k, v));
            proof {
                lemma_pairs_view_index(before);
                lemma_pairs_view_index(kvs@);
                assert(pairs_view(kvs@) =~= s0.update(j as int, (k@, value_view(v))));
            }
            return;
        }
        j = j + 1;
    }
    proof {
        assert(forall|t: int| 0 <= t < s0.len() ==> (#[trigger] s0[t]).0 != k@);
        lemma_upsert_absent(s0, k@, value_view(v));
    }
    let ghost before = kvs@;
    kvs.push((k, v));
    proof {
        lemma_pairs_view_index(before);
        lemma_pairs_view_index(kvs@);
        assert(pairs_view(kvs@) =~= s0.push((k@, value_view(v))));
    }
}

/// Attaches a label to an unlabeled failure.
fn label_err(e: ParseError, c: Context) -> (r: ParseError)
    ensures
        r == with_ctx(e, c),
{
    match e {
        ParseError::SyntaxMismatch(Context::Unlabeled) => ParseError::SyntaxMismatch(c),
        ParseError::MalformedEscape(Context::Unlabeled) => ParseError::MalformedEscape(c),
        ParseError::TruncatedInput(Context::Unlabeled) => ParseError::TruncatedInput(c),
        _ => e,
    }
}

/// A whole value from `pos`: leading whitespace, one alternative, trailing
/// whitespace.
fn value_from(s: &Vec<char>, pos: usize) -> (r: Result<(usize, Value), ParseError>)
    requires
        pos <= s@.len(),
    ensures
        match r {
            Ok(p) => pos <= p.0 <= s@.len() && parse_value(s@.skip(pos as int)) == Ok::<
                (Seq<char>, JsonVal),
                ParseError,
            >((s@.skip(p.0 as int), value_view(p.1))),
            Err(e) => parse_value(s@.skip(pos as int)) == Err::<(Seq<char>, JsonVal), ParseError>(
                e,
            ),
        },
    decreases s@.len() - pos, 3int,
{
    let w = js_spaces(s, pos);
    match value_inner(s, w) {
        Ok(p) => {
            let p2 = js_spaces(s, p.0);
            Ok((p2, p.1))
        },
        Err(e) => Err(e),
    }
}

/// One of the six alternatives, told apart by the first character.
fn value_inner(s: &Vec<char>, pos: usize) -> (r: Result<(usize, Value), ParseError>)
    requires
        pos <= s@.len(),
    ensures
        match r {
            Ok(p) => pos <= p.0 <= s@.len() && parse_value_inner(s@.skip(pos as int)) == Ok::<
                (Seq<char>, JsonVal),
                ParseError,
            >((s@.skip(p.0 as int), value_view(p.1))),
            Err(e) => parse_value_inner(s@.skip(pos as int)) == Err::<
                (Seq<char>, JsonVal),
                ParseError,
            >(e),
        },
    decreases s@.len() - pos, 2int,
{
    if pos == s.len() {
        return Err(ParseError::SyntaxMismatch(Context::Unlabeled));
    }
    let ghost u = s@.skip(pos as int);
    proof {
        assert(u[0] == s@[pos as int]);
    }
    let c = s[pos];
    if c == 'n' {
        match null(s, pos) {
            Ok(p) => {
                proof {
                    lemma_skip_plus(s@, pos as int, 4);
                }
                Ok((p.0, p.1))
            },
            Err(e) => Err(e),
        }
    } else if c == 't' || c == 'f' {
        match boolean(s, pos) {
            Ok(p) => {
                proof {
                    if p.1 == Value::Boolean(true) {
                        assert(u.subrange(0, 4)[0] == u[0]);
                        lemma_skip_plus(s@, pos as int, 4);
                    } else {
                        assert(u.subrange(0, 5)[0] == u[0]);
                        lemma_skip_plus(s@, pos as int, 5);
                    }
                }
                Ok((p.0, p.1))
            },
            Err(e) => Err(e),
        }
    } else if c == '"' {
        match js_string(s, pos) {
            Ok(p) => Ok((p.0, Value::String(p.1))),
            Err(e) => Err(e),
        }
    } else if c == '[' {
        array(s, pos)
    } else if c == '{' {
        object(s, pos)
    } else {
        number(s, pos)
    }
}

/// An array from its opening bracket.
fn array(s: &Vec<char>, pos: usize) -> (r: Result<(usize, Value), ParseError>)
    requires
        pos < s@.len(),
        s@[pos as int] == '[',
    ensures
        match r {
            Ok(p) => pos <= p.0 <= s@.len() && parse_array(s@.skip(pos as int)) == Ok::<
                (Seq<char>, JsonVal),
                ParseError,
            >((s@.skip(p.0 as int), value_view(p.1))),
            Err(e) => parse_array(s@.skip(pos as int)) == Err::<(Seq<char>, JsonVal), ParseError>(
                e,
            ),
        },
    decreases s@.len() - pos, 1int,
{
    let ghost v0 = s@.skip(pos as int);
    let n = s.len();
    if pos + 1 < n && s[pos + 1] == ']' {
        proof {
            assert(v0[1] == s@[pos + 1]);
            lemma_skip_plus(s@, pos as int, 2);
        }
        return Ok((pos + 2, Value::Array(Vec::new())));
    }
    proof {
        if pos + 1 < s@.len() {
            assert(v0[1] == s@[pos + 1]);
        }
        lemma_skip_plus(s@, pos as int, 1);
    }
    let mut items: Vec<Value> = Vec::new();
    let mut cur: usize = pos + 1;
    loop
        invariant
            pos < s@.len(),
            pos + 1 <= cur <= s@.len(),
            parse_array(s@.skip(pos as int)) == array_items(
                s@.skip(pos + 1),
                Seq::<JsonVal>::empty(),
            ),
            array_items(s@.skip(pos + 1), Seq::<JsonVal>::empty()) == array_items(
                s@.skip(cur as int),
                items_view(items@),
            ),
        decreases s@.len() - cur,
    {
        let ghost u = s@.skip(cur as int);
        let ghost acc = items_view(items@);
        match value_from(s, cur) {
            Ok(p) => {
                let ghost gv = value_view(p.1);
                let ghost before = items@;
                items.push(p.1);
                proof {
                    assert(before.push(p.1).drop_last() =~= before);
                    assert(items_view(items@) == acc.push(gv));
                }
                let p2 = p.0;
                if p2 == s.len() {
                    return Err(ParseError::TruncatedInput(Context::Unlabeled));
                }
                proof {
                    assert(s@.skip(p2 as int)[0] == s@[p2 as int]);
                }
                let c = s[p2];
                if c == ']' {
                    proof {
                        lemma_skip_plus(s@, p2 as int, 1);
                    }
                    return Ok((p2 + 1, Value::Array(items)));
                }
                if c == ',' {
                    proof {
                        lemma_skip_plus(s@, p2 as int, 1);
                    }
                    cur = p2 + 1;
                } else {
                    return Err(ParseError::SyntaxMismatch(Context::Unlabeled));
                }
            },
            Err(e) => {
                return Err(e);
            },
        }
    }
}

/// An object from its opening brace.
fn object(s: &Vec<char>, pos: usize) -> (r: Result<(usize, Value), ParseError>)
    requires
        pos < s@.len(),
        s@[pos as int] == '{',
    ensures
        match r {
            Ok(p) => pos <= p.0 <= s@.len() && parse_object(s@.skip(pos as int)) == Ok::<
                (Seq<char>, JsonVal),
                ParseError,
            >((s@.skip(p.0 as int), value_view(p.1))),
            Err(e) => parse_object(s@.skip(pos as int)) == Err::<(Seq<char>, JsonVal), ParseError>(
                e,
            ),
        },
    decreases s@.len() - pos, 1int,
{
    let n = s.len();
    proof {
        lemma_skip_plus(s@, pos as int, 1);
    }
    let w0 = js_spaces(s, pos + 1);
    if w0 < n && s[w0] == '}' {
        proof {
            assert(s@.skip(w0 as int)[0] == s@[w0 as int]);
            lemma_skip_plus(s@, w0 as int, 1);
        }
        return Ok((w0 + 1, Value::Object(Vec::new())));
    }
    proof {
        if w0 < s@.len() {
            assert(s@.skip(w0 as int)[0] == s@[w0 as int]);
        }
    }
    let mut kvs: Vec<(String, Value)> = Vec::new();
    let mut cur: usize = w0;
    loop
        invariant
            pos < s@.len(),
            pos + 1 <= cur <= s@.len(),
            parse_object(s@.skip(pos as int)) == object_items(
                s@.skip(w0 as int),
                Seq::<(Seq<char>, JsonVal)>::empty(),
            ),
            object_items(s@.skip(w0 as int), Seq::<(Seq<char>, JsonVal)>::empty()) == object_items(
                s@.skip(cur as int),
                pairs_view(kvs@),
            ),
        decreases s@.len() - cur,
    {
        let ghost u = s@.skip(cur as int);
        let ghost acc = pairs_view(kvs@);
        match js_string(s, cur) {
            Ok(kp) => {
                proof {
                    lemma_parse_string_len(u);
                }
                let pk = kp.0;
                let key = kp.1;
                let ghost gkey = key@;
                let pc = js_spaces(s, pk);
                if pc == s.len() {
                    return Err(ParseError::SyntaxMismatch(Context::ObjectItem));
                }
                proof {
                    assert(s@.skip(pc as int)[0] == s@[pc as int]);
                }
                let c = s[pc];
                if c != ':' {
                    return Err(ParseError::SyntaxMismatch(Context::ObjectItem));
                }
                proof {
                    lemma_skip_plus(s@, pc as int, 1);
                }
                match value_from(s, pc + 1) {
                    Ok(p) => {
                        let ghost gv = value_view(p.1);
                        upsert_entry(&mut kvs, key, p.1);
                        proof {
                            assert(pairs_view(kvs@) == upsert(acc, gkey, gv));
                        }
                        let p2 = p.0;
                        if p2 == s.len() {
                            return Err(ParseError::TruncatedInput(Context::Object));
                        }
                        proof {
                            assert(s@.skip(p2 as int)[0] == s@[p2 as int]);
                        }
                        let c2 = s[p2];
                        if c2 == '}' {
                            proof {
                                lemma_skip_plus(s@, p2 as int, 1);
                            }
                            return Ok((p2 + 1, Value::Object(kvs)));
                        }
                        if c2 == ',' {
                            proof {
                                lemma_skip_plus(s@, p2 as int, 1);
                            }
                            let ghost old_cur = cur;
                            cur = js_spaces(s, p2 + 1);
                            proof {
                                assert(cur > old_cur);
                            }
                        } else {
                            return Err(ParseError::SyntaxMismatch(Context::Object));
                        }
                    },
                    Err(e) => {
                        return Err(label_err(e, Context::ObjectItem));
                    },
                }
            },
            Err(e) => {
                return Err(label_err(e, Context::ObjectItem));
            },
        }
    }
}

/// Parses one value from the text: leading and trailing whitespace are
/// consumed, and the suffix that follows is returned beside the tree.
/// The result is exactly what [`parse_value`] says of the input's
/// characters, both on success and on failure, and every tree returned
/// is well formed: each of its objects has unique keys.
pub fn value<'a>(i: &'a str) -> (r: Result<(&'a str, Value), ParseError>)
    ensures
        match r {
            Ok(p) => parse_value(i@) matches Ok(q) && q.0 == p.0@ && q.1 == value_view(p.1),
            Err(e) => parse_value(i@) == Err::<(Seq<char>, JsonVal), ParseError>(e),
        },
        r matches Ok(p) ==> crate::laws::wf(value_view(p.1)),
{
    let chars = to_chars(i);
    proof {
        assert(chars@.skip(0) =~= i@);
        crate::laws::lemma_parse_value_wf(i@);
    }
    match value_from(&chars, 0) {
        Ok(p) => {
            let n = i.unicode_len();
            let rem = i.substring_char(p.0, n);
            proof {
                assert(i@.subrange(p.0 as int, n as int) =~= i@.skip(p.0 as int));
            }
            Ok((rem, p.1))
        },
        Err(e) => Err(e),
    }
}

/// Parses one quoted string literal at the head of the text, with no
/// whitespace handling, returning the suffix after the closing quote and
/// the decoded text as a `Value::String`. The result is exactly what
/// [`parse_string`] says of the input's characters.
pub fn string<'a>(i: &'a str) -> (r: Result<(&'a str, Value), ParseError>)
    ensures
        match r {
            Ok(p) => parse_string(i@) matches Ok(q) && q.0 == p.0@ && value_view(p.1)
                == JsonVal::Str(q.1),
            Err(e) => parse_string(i@) == Err::<(Seq<char>, Seq<char>), ParseError>(e),
        },
{
    let chars = to_chars(i);
    proof {
        assert(chars@.skip(0) =~= i@);
    }
    match js_string(&chars, 0) {
        Ok(p) => {
            let n = i.unicode_len();
            let rem = i.substring_char(p.0, n);
            proof {
                assert(i@.subrange(p.0 as int, n as int) =~= i@.skip(p.0 as int));
            }
            Ok((rem, Value::String(p.1)))
        },
        Err(e) => Err(e),
    }
}

} // verus!
