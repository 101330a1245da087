//! The grammar, stated as spec functions over suffixes of the input.
//!
//! Every function here consumes from the front of its argument and, on
//! success, returns the unconsumed suffix together with the parsed result.
//! Failures are values of [`ParseError`]. The executable parser is
//! specified against these functions alone.

use vstd::prelude::*;

use crate::{Context, JsonVal, ParseError};

verus! {

/// The insignificant characters: space, newline, carriage return, tab.
pub open spec fn is_ws(c: char) -> bool {
    c == ' ' || c == '\n' || c == '\r' || c == '\t'
}

/// The suffix that remains after the maximal leading run of whitespace.
pub open spec fn skip_ws(u: Seq<char>) -> Seq<char>
    decreases u.len(),
{
    if u.len() > 0 && is_ws(u[0]) {
        skip_ws(u.skip(1))
    } else {
        u
    }
}

pub open spec fn is_digit(c: char) -> bool {
    48 <= c as u32 && c as u32 <= 57
}

/// The length of the maximal leading run of decimal digits.
pub open spec fn digit_run(u: Seq<char>) -> nat
    decreases u.len(),
{
    if u.len() > 0 && is_digit(u[0]) {
        1 + digit_run(u.skip(1))
    } else {
        0
    }
}

pub proof fn lemma_digit_run_le(u: Seq<char>)
    ensures
        digit_run(u) <= u.len(),
    decreases u.len(),
{
    if u.len() > 0 && is_digit(u[0]) {
        lemma_digit_run_le(u.skip(1));
    }
}

/// 1 when the head of `u` is an explicit sign, else 0.
pub open spec fn sign_len(u: Seq<char>) -> int {
    if u.len() > 0 && (u[0] == '+' || u[0] == '-') {
        1
    } else {
        0
    }
}

/// The length of the mantissa `digit+ ('.' digit*)? | '.' digit+` at the
/// head of `u`, or -1 when no such prefix exists.
pub open spec fn mantissa_len(u: Seq<char>) -> int {
    let d = digit_run(u) as int;
    if d > 0 {
        if d < u.len() && u[d] == '.' {
            d + 1 + digit_run(u.skip(d + 1)) as int
        } else {
            d
        }
    } else {
        if u.len() >= 2 && u[0] == '.' && is_digit(u[1]) {
            1 + digit_run(u.skip(1)) as int
        } else {
            -1
        }
    }
}

/// The length of the exponent `[eE] sign? digit+` at the head of `u`, or 0
/// when the exponent is absent or has no digits (it is then not part of
/// the number literal).
pub open spec fn exp_len(u: Seq<char>) -> int {
    if u.len() > 0 && (u[0] == 'e' || u[0] == 'E') {
        let s = sign_len(u.skip(1));
        let d = digit_run(u.skip(1 + s)) as int;
        if d > 0 {
            1 + s + d
        } else {
            0
        }
    } else {
        0
    }
}

/// The length of the maximal decimal floating-point literal
/// `sign? mantissa exponent?` at the head of `u`, or -1 when none exists.
pub open spec fn number_len(u: Seq<char>) -> int {
    let s = sign_len(u);
    let m = mantissa_len(u.skip(s));
    if m < 0 {
        -1
    } else {
        s + m + exp_len(u.skip(s + m))
    }
}

pub proof fn lemma_number_len_le(u: Seq<char>)
    ensures
        number_len(u) <= u.len(),
{
    let s0 = sign_len(u);
    let v = u.skip(s0);
    lemma_digit_run_le(v);
    let m = mantissa_len(v);
    if m >= 0 {
        let d = digit_run(v) as int;
        if d > 0 && d < v.len() && v[d] == '.' {
            lemma_digit_run_le(v.skip(d + 1));
        } else if d == 0 {
            lemma_digit_run_le(v.skip(1));
        }
        assert(m <= v.len());
        let x = u.skip(s0 + m);
        if x.len() > 0 && (x[0] == 'e' || x[0] == 'E') {
            let es = sign_len(x.skip(1));
            lemma_digit_run_le(x.skip(1 + es));
        }
        assert(exp_len(x) <= x.len());
    }
}

/// True when `u` is, in its whole length, one decimal floating-point literal.
pub open spec fn is_float_literal(u: Seq<char>) -> bool {
    u.len() > 0 && number_len(u) == u.len()
}

/// What a recognized simple escape `\c` decodes to: `n`, `r`, `t` map to
/// newline, carriage return and tab; any other character stands for itself.
pub open spec fn unescape_char(c: char) -> char {
    if c == 'n' {
        '\n'
    } else if c == 'r' {
        '\r'
    } else if c == 't' {
        '\t'
    } else {
        c
    }
}

pub open spec fn is_hex_digit(c: char) -> bool {
    is_digit(c) || (97 <= c as u32 && c as u32 <= 102) || (65 <= c as u32 && c as u32 <= 70)
}

/// The value of one hexadecimal digit.
pub open spec fn hex_val(c: char) -> int {
    if is_digit(c) {
        c as u32 - 48
    } else if 97 <= c as u32 {
        c as u32 - 87
    } else {
        c as u32 - 55
    }
}

/// The code point denoted by the four hexadecimal digits `u[0]..u[3]`.
pub open spec fn hex4_val(u: Seq<char>) -> int {
    ((hex_val(u[0]) * 16 + hex_val(u[1])) * 16 + hex_val(u[2])) * 16 + hex_val(u[3])
}

/// True when `n` is a Unicode scalar value among the code points four hex
/// digits can denote: everything up to 0xFFFF except the surrogate range.
pub open spec fn is_scalar_code(n: int) -> bool {
    !(0xD800 <= n <= 0xDFFF)
}

/// Attaches the label `c` to an unlabeled failure; a failure that already
/// carries a label keeps it, so the innermost construct's label survives.
pub open spec fn with_ctx(e: ParseError, c: Context) -> ParseError {
    match e {
        ParseError::SyntaxMismatch(Context::Unlabeled) => ParseError::SyntaxMismatch(c),
        ParseError::MalformedEscape(Context::Unlabeled) => ParseError::MalformedEscape(c),
        ParseError::TruncatedInput(Context::Unlabeled) => ParseError::TruncatedInput(c),
        _ => e,
    }
}

/// The body of a quoted string, from just after the opening quote. `acc`
/// holds the characters decoded so far; the result on success is the
/// suffix after the closing quote and the whole decoded text.
pub open spec fn string_body(u: Seq<char>, acc: Seq<char>) -> Result<
    (Seq<char>, Seq<char>),
    ParseError,
>
    decreases u.len(),
{
    if u.len() == 0 {
        Err(ParseError::TruncatedInput(Context::Unlabeled))
    } else if u[0] == '"' {
        Ok((u.skip(1), acc))
    } else if u[0] == '\\' {
        if u.len() == 1 {
            Err(ParseError::TruncatedInput(Context::Unlabeled))
        } else if u[1] == 'u' {
            if u.len() >= 6 && is_hex_digit(u[2]) && is_hex_digit(u[3]) && is_hex_digit(u[4])
                && is_hex_digit(u[5]) {
                let n = hex4_val(u.skip(2));
                if is_scalar_code(n) {
                    string_body(u.skip(6), acc.push(n as u32 as char))
                } else {
                    Err(ParseError::MalformedEscape(Context::Unlabeled))
                }
            } else {
                Err(ParseError::MalformedEscape(Context::Unlabeled))
            }
        } else {
            string_body(u.skip(2), acc.push(unescape_char(u[1])))
        }
    } else {
        string_body(u.skip(1), acc.push(u[0]))
    }
}

/// A quoted string: an opening quote, a body, a closing quote. On success
/// the result is the suffix after the closing quote and the decoded text.
pub open spec fn parse_string(u: Seq<char>) -> Result<(Seq<char>, Seq<char>), ParseError> {
    if u.len() > 0 && u[0] == '"' {
        string_body(u.skip(1), Seq::empty())
    } else {
        Err(ParseError::SyntaxMismatch(Context::Unlabeled))
    }
}

/// Replaces the value under `k` in the ordered key/value sequence, keeping
/// the position of the key's first occurrence, or appends a new entry.
pub open spec fn upsert(s: Seq<(Seq<char>, JsonVal)>, k: Seq<char>, v: JsonVal) -> Seq<
    (Seq<char>, JsonVal),
>
    decreases s.len(),
{
    if s.len() == 0 {
        seq![(k, v)]
    } else if s[0].0 == k {
        s.update(0, (k, v))
    } else {
        seq![s[0]] + upsert(s.skip(1), k, v)
    }
}

/// True when `p` stands letter for letter at the head of `u`.
pub open spec fn has_prefix(u: Seq<char>, p: Seq<char>) -> bool {
    p.len() <= u.len() && u.subrange(0, p.len() as int) == p
}

/// A number: the maximal float literal at the head of `u`, valued at the
/// bit pattern it denotes.
pub open spec fn parse_number(u: Seq<char>) -> Result<(Seq<char>, JsonVal), ParseError> {
    let n = number_len(u);
    if n > 0 {
        Ok((u.skip(n), JsonVal::Num(crate::trusted::float_bits_of(u.subrange(0, n)))))
    } else {
        Err(ParseError::SyntaxMismatch(Context::Unlabeled))
    }
}

pub proof fn lemma_skip_ws_len(u: Seq<char>)
    ensures
        skip_ws(u).len() <= u.len(),
    decreases u.len(),
{
    if u.len() > 0 && is_ws(u[0]) {
        lemma_skip_ws_len(u.skip(1));
    }
}

pub proof fn lemma_string_body_len(u: Seq<char>, acc: Seq<char>)
    ensures
        string_body(u, acc) matches Ok(p) ==> p.0.len() < u.len(),
    decreases u.len(),
{
    if u.len() == 0 {
    } else if u[0] == '"' {
    } else if u[0] == '\\' {
        if u.len() == 1 {
        } else if u[1] == 'u' {
            if u.len() >= 6 && is_hex_digit(u[2]) && is_hex_digit(u[3]) && is_hex_digit(u[4])
                && is_hex_digit(u[5]) {
                let n = hex4_val(u.skip(2));
                if is_scalar_code(n) {
                    lemma_string_body_len(u.skip(6), acc.push(n as u32 as char));
                }
            }
        } else {
            lemma_string_body_len(u.skip(2), acc.push(unescape_char(u[1])));
        }
    } else {
        lemma_string_body_len(u.skip(1), acc.push(u[0]));
    }
}

pub proof fn lemma_parse_string_len(u: Seq<char>)
    ensures
        parse_string(u) matches Ok(p) ==> p.0.len() < u.len(),
{
    if u.len() > 0 && u[0] == '"' {
        lemma_string_body_len(u.skip(1), Seq::empty());
    }
}

/// A whole value: leading whitespace, one of the six alternatives, and
/// trailing whitespace. This is what the entry point parses, and what
/// each array element and object member value is parsed by.
pub open spec fn parse_value(u: Seq<char>) -> Result<(Seq<char>, JsonVal), ParseError>
    decreases u.len(), 3int,
{
    proof {
        lemma_skip_ws_len(u);
    }
    match parse_value_inner(skip_ws(u)) {
        Ok(p) => Ok((skip_ws(p.0), p.1)),
        Err(e) => Err(e),
    }
}

/// The six alternatives, told apart by their first character. A number is
/// attempted wherever no other alternative's first character stands, so an
/// unrecognized character fails as a failed number. Once an alternative's
/// first character is seen, a deeper failure inside it is the failure of
/// the whole parse.
pub open spec fn parse_value_inner(v: Seq<char>) -> Result<(Seq<char>, JsonVal), ParseError>
    decreases v.len(), 2int,
{
    if v.len() == 0 {
        Err(ParseError::SyntaxMismatch(Context::Unlabeled))
    } else if v[0] == 'n' {
        if has_prefix(v, seq!['n', 'u', 'l', 'l']) {
            Ok((v.skip(4), JsonVal::Null))
        } else {
            Err(ParseError::SyntaxMismatch(Context::Unlabeled))
        }
    } else if v[0] == 't' {
        if has_prefix(v, seq!['t', 'r', 'u', 'e']) {
            Ok((v.skip(4), JsonVal::Bool(true)))
        } else {
            Err(ParseError::SyntaxMismatch(Context::Unlabeled))
        }
    } else if v[0] == 'f' {
        if has_prefix(v, seq!['f', 'a', 'l', 's', 'e']) {
            Ok((v.skip(5), JsonVal::Bool(false)))
        } else {
            Err(ParseError::SyntaxMismatch(Context::Unlabeled))
        }
    } else if v[0] == '"' {
        match parse_string(v) {
            Ok(p) => Ok((p.0, JsonVal::Str(p.1))),
            Err(e) => Err(e),
        }
    } else if v[0] == '[' {
        parse_array(v)
    } else if v[0] == '{' {
        parse_object(v)
    } else {
        parse_number(v)
    }
}

/// An array, from its opening bracket: `[]`, or `[` value (`,` value)* `]`.
/// The whitespace around each element belongs to the element's own parse.
pub open spec fn parse_array(v: Seq<char>) -> Result<(Seq<char>, JsonVal), ParseError>
    decreases v.len(), 1int,
{
    if v.len() == 0 {
        Err(ParseError::SyntaxMismatch(Context::Unlabeled))
    } else if v.len() >= 2 && v[1] == ']' {
        Ok((v.skip(2), JsonVal::Arr(Seq::empty())))
    } else {
        array_items(v.skip(1), Seq::empty())
    }
}

/// The elements of a non-empty array, from the head of the first element.
/// After each element stands either `]`, ending the array, or exactly one
/// `,` before the next element; the input ending instead is a truncation.
pub open spec fn array_items(u: Seq<char>, acc: Seq<JsonVal>) -> Result<
    (Seq<char>, JsonVal),
    ParseError,
>
    decreases u.len(), 4int,
{
    match parse_value(u) {
        Ok(p) => {
            let rest = p.0;
            if rest.len() == 0 {
                Err(ParseError::TruncatedInput(Context::Unlabeled))
            } else if rest[0] == ']' {
                Ok((rest.skip(1), JsonVal::Arr(acc.push(p.1))))
            } else if rest[0] == ',' && rest.len() <= u.len() {
                array_items(rest.skip(1), acc.push(p.1))
            } else {
                Err(ParseError::SyntaxMismatch(Context::Unlabeled))
            }
        },
        Err(e) => Err(e),
    }
}

/// An object, from its opening brace, with the brace's trailing whitespace
/// consumed: `{}`, or `{` member (`,` member)* `}`.
pub open spec fn parse_object(v: Seq<char>) -> Result<(Seq<char>, JsonVal), ParseError>
    decreases v.len(), 1int,
{
    if v.len() == 0 {
        Err(ParseError::SyntaxMismatch(Context::Unlabeled))
    } else {
        proof {
            lemma_skip_ws_len(v.skip(1));
        }
        let w = skip_ws(v.skip(1));
        if w.len() > 0 && w[0] == '}' {
            Ok((w.skip(1), JsonVal::Obj(Seq::empty())))
        } else {
            object_items(w, Seq::empty())
        }
    }
}

/// The members of a non-empty object, from the head of the first key.
/// Each member is a quoted key, whitespace, `:`, and a value; a later
/// member whose key already stands in the object overwrites that entry.
/// Failures inside a member carry the `ObjectItem` label unless a deeper
/// construct labeled them already; the object's own structural failures
/// carry `Object`.
pub open spec fn object_items(u: Seq<char>, acc: Seq<(Seq<char>, JsonVal)>) -> Result<
    (Seq<char>, JsonVal),
    ParseError,
>
    decreases u.len(), 4int,
{
    match parse_string(u) {
        Ok(kp) => {
            proof {
                lemma_parse_string_len(u);
                lemma_skip_ws_len(kp.0);
            }
            let r1 = skip_ws(kp.0);
            if r1.len() > 0 && r1[0] == ':' {
                match parse_value(r1.skip(1)) {
                    Ok(p) => {
                        let rest = p.0;
                        let acc2 = upsert(acc, kp.1, p.1);
                        if rest.len() == 0 {
                            Err(ParseError::TruncatedInput(Context::Object))
                        } else if rest[0] == '}' {
                            Ok((rest.skip(1), JsonVal::Obj(acc2)))
                        } else if rest[0] == ',' && skip_ws(rest.skip(1)).len() < u.len() {
                            object_items(skip_ws(rest.skip(1)), acc2)
                        } else {
                            Err(ParseError::SyntaxMismatch(Context::Object))
                        }
                    },
                    Err(e) => Err(with_ctx(e, Context::ObjectItem)),
                }
            } else {
                Err(ParseError::SyntaxMismatch(Context::ObjectItem))
            }
        },
        Err(e) => Err(with_ctx(e, Context::ObjectItem)),
    }
}

} // verus!
