//! Properties of the grammar that hold beyond any single parse: what the
//! escape decoder gives back, how insignificant whitespace around a
//! document leaves its value untouched, and the invariant that every
//! object a parse produces has unique keys.

use vstd::prelude::*;

use crate::grammar::{
    array_items, digit_run, exp_len, has_prefix, hex4_val, is_digit, is_hex_digit, is_scalar_code,
    is_ws, lemma_digit_run_le, lemma_number_len_le, lemma_parse_string_len, lemma_skip_ws_len,
    mantissa_len, number_len, object_items, parse_array, parse_number, parse_object, parse_string,
    parse_value, parse_value_inner, sign_len, skip_ws, string_body, unescape_char, upsert,
};
use crate::{JsonVal, ParseError};

verus! {

/// True when every character of `w` is insignificant whitespace.
pub open spec fn all_ws(w: Seq<char>) -> bool {
    forall|i: int| 0 <= i < w.len() ==> is_ws(#[trigger] w[i])
}

proof fn lemma_skip_ws_all(w: Seq<char>)
    requires
        all_ws(w),
    ensures
        skip_ws(w) == Seq::<char>::empty(),
    decreases w.len(),
{
    if w.len() > 0 {
        lemma_skip_ws_all(w.skip(1));
    }
}

pub proof fn lemma_skip_ws_prepend(w: Seq<char>, t: Seq<char>)
    requires
        all_ws(w),
    ensures
        skip_ws(w + t) == skip_ws(t),
    decreases w.len(),
{
    if w.len() == 0 {
        assert(w + t =~= t);
    } else {
        assert((w + t)[0] == w[0]);
        assert((w + t).skip(1) =~= w.skip(1) + t);
        lemma_skip_ws_prepend(w.skip(1), t);
    }
}

/// Whitespace inserted before the document does not change what is
/// parsed, nor what remains.
pub proof fn lemma_leading_whitespace(w: Seq<char>, t: Seq<char>)
    requires
        all_ws(w),
    ensures
        parse_value(w + t) == parse_value(t),
{
    lemma_skip_ws_prepend(w, t);
}

/// Decoding the escape `\c` inside a string literal yields exactly the
/// mapped character: `\n`, `\r`, `\t` become newline, carriage return and
/// tab, and `\"`, `\\` and every other simple escape become the character
/// itself, with nothing left of the input.
pub proof fn lemma_simple_escape_decodes(c: char)
    requires
        c != 'u',
    ensures
        parse_string(seq!['"', '\\', c, '"']) == Ok::<(Seq<char>, Seq<char>), ParseError>(
            (Seq::empty(), seq![unescape_char(c)]),
        ),
{
    let lit = seq!['"', '\\', c, '"'];
    let b = seq!['\\', c, '"'];
    assert(lit.skip(1) =~= b);
    assert(b.skip(2) =~= seq!['"']);
    assert(seq!['"'].skip(1) =~= Seq::<char>::empty());
    assert(Seq::<char>::empty().push(unescape_char(c)) =~= seq![unescape_char(c)]);
    assert(string_body(seq!['"'], seq![unescape_char(c)]) == Ok::<
        (Seq<char>, Seq<char>),
        ParseError,
    >((Seq::empty(), seq![unescape_char(c)])));
}

/// Decoding the escape `\uXXXX` yields exactly the character whose code
/// point the four hexadecimal digits denote, with nothing left.
pub proof fn lemma_hex_escape_decodes(h0: char, h1: char, h2: char, h3: char)
    requires
        is_hex_digit(h0),
        is_hex_digit(h1),
        is_hex_digit(h2),
        is_hex_digit(h3),
        is_scalar_code(hex4_val(seq![h0, h1, h2, h3])),
    ensures
        parse_string(seq!['"', '\\', 'u', h0, h1, h2, h3, '"']) == Ok::<
            (Seq<char>, Seq<char>),
            ParseError,
        >((Seq::empty(), seq![(hex4_val(seq![h0, h1, h2, h3]) as u32) as char])),
{
    let code = hex4_val(seq![h0, h1, h2, h3]);
    let lit = seq!['"', '\\', 'u', h0, h1, h2, h3, '"'];
    let b = seq!['\\', 'u', h0, h1, h2, h3, '"'];
    assert(lit.skip(1) =~= b);
    assert(b.skip(2)[0] == h0);
    assert(b.skip(2)[1] == h1);
    assert(b.skip(2)[2] == h2);
    assert(b.skip(2)[3] == h3);
    assert(hex4_val(b.skip(2)) == code);
    assert(b.skip(6) =~= seq!['"']);
    assert(seq!['"'].skip(1) =~= Seq::<char>::empty());
    assert(Seq::<char>::empty().push((code as u32) as char) =~= seq![(code as u32) as char]);
    assert(string_body(seq!['"'], seq![(code as u32) as char]) == Ok::<
        (Seq<char>, Seq<char>),
        ParseError,
    >((Seq::empty(), seq![(code as u32) as char])));
}

proof fn lemma_skip_ws_head(x: Seq<char>)
    ensures
        skip_ws(x).len() > 0 ==> !is_ws(skip_ws(x)[0]),
    decreases x.len(),
{
    if x.len() > 0 && is_ws(x[0]) {
        lemma_skip_ws_head(x.skip(1));
    }
}

/// Skipping whitespace looks only at the head: pre-stripping the left part
/// changes nothing.
proof fn lemma_skip_ws_restrip(a: Seq<char>, w: Seq<char>)
    ensures
        skip_ws(a + w) == skip_ws(skip_ws(a) + w),
    decreases a.len(),
{
    if a.len() == 0 {
        assert(a + w =~= w);
        assert(skip_ws(a) + w =~= w);
    } else if is_ws(a[0]) {
        assert((a + w)[0] == a[0]);
        assert((a + w).skip(1) =~= a.skip(1) + w);
        lemma_skip_ws_restrip(a.skip(1), w);
    } else {
        assert(skip_ws(a) + w =~= a + w);
    }
}

proof fn lemma_digit_run_append(u: Seq<char>, w: Seq<char>)
    requires
        all_ws(w),
    ensures
        digit_run(u + w) == digit_run(u),
    decreases u.len(),
{
    if u.len() == 0 {
        assert(u + w =~= w);
        if w.len() > 0 {
            assert(is_ws(w[0]));
        }
    } else {
        assert((u + w)[0] == u[0]);
        if is_digit(u[0]) {
            assert((u + w).skip(1) =~= u.skip(1) + w);
            lemma_digit_run_append(u.skip(1), w);
        }
    }
}

proof fn lemma_sign_len_append(u: Seq<char>, w: Seq<char>)
    requires
        all_ws(w),
    ensures
        sign_len(u + w) == sign_len(u),
{
    if u.len() == 0 {
        assert(u + w =~= w);
        if w.len() > 0 {
            assert(is_ws(w[0]));
        }
    } else {
        assert((u + w)[0] == u[0]);
    }
}

proof fn lemma_number_len_append(u: Seq<char>, w: Seq<char>)
    requires
        all_ws(w),
    ensures
        number_len(u + w) == number_len(u),
{
    lemma_sign_len_append(u, w);
    let s0 = sign_len(u);
    let v = u.skip(s0);
    assert((u + w).skip(s0) =~= v + w);
    lemma_digit_run_append(v, w);
    let d = digit_run(v) as int;
    if d > 0 {
        if d < v.len() {
            assert((v + w)[d] == v[d]);
            if v[d] == '.' {
                assert((v + w).skip(d + 1) =~= v.skip(d + 1) + w);
                lemma_digit_run_append(v.skip(d + 1), w);
            }
        } else {
            lemma_digit_run_le(v);
            if d < (v + w).len() {
                assert((v + w)[d] == w[d - v.len()]);
                assert(is_ws((v + w)[d]));
            }
        }
    } else {
        if v.len() == 0 {
            assert(v + w =~= w);
            if w.len() >= 2 {
                assert(is_ws(w[0]));
            }
        } else if v.len() == 1 {
            assert((v + w)[0] == v[0]);
            if (v + w).len() >= 2 {
                assert((v + w)[1] == w[0]);
                assert(is_ws(w[0]));
            }
        } else {
            assert((v + w)[0] == v[0]);
            assert((v + w)[1] == v[1]);
            if v[0] == '.' && is_digit(v[1]) {
                assert((v + w).skip(1) =~= v.skip(1) + w);
                lemma_digit_run_append(v.skip(1), w);
            }
        }
    }
    assert(mantissa_len(v + w) == mantissa_len(v));
    let m = mantissa_len(v);
    if m >= 0 {
        lemma_number_len_le(u);
        let x = u.skip(s0 + m);
        assert((u + w).skip(s0 + m) =~= x + w);
        if x.len() == 0 {
            assert(x + w =~= w);
            if w.len() > 0 {
                assert(is_ws(w[0]));
            }
        } else {
            assert((x + w)[0] == x[0]);
            if x[0] == 'e' || x[0] == 'E' {
                assert((x + w).skip(1) =~= x.skip(1) + w);
                lemma_sign_len_append(x.skip(1), w);
                let es = sign_len(x.skip(1));
                assert((x + w).skip(1 + es) =~= x.skip(1 + es) + w);
                lemma_digit_run_append(x.skip(1 + es), w);
            }
        }
        assert(exp_len(x + w) == exp_len(x));
    }
}

proof fn lemma_string_body_append(u: Seq<char>, acc: Seq<char>, w: Seq<char>)
    ensures
        string_body(u, acc) matches Ok(p) ==> string_body(u + w, acc) == Ok::<
            (Seq<char>, Seq<char>),
            ParseError,
        >((p.0 + w, p.1)),
    decreases u.len(),
{
    if string_body(u, acc) is Ok {
        assert((u + w)[0] == u[0]);
        if u[0] == '"' {
            assert((u + w).skip(1) =~= u.skip(1) + w);
        } else if u[0] == '\\' {
            assert((u + w)[1] == u[1]);
            if u[1] == 'u' {
                assert((u + w)[2] == u[2]);
                assert((u + w)[3] == u[3]);
                assert((u + w)[4] == u[4]);
                assert((u + w)[5] == u[5]);
                assert((u + w).skip(2)[0] == u.skip(2)[0]);
                assert((u + w).skip(2)[1] == u.skip(2)[1]);
                assert((u + w).skip(2)[2] == u.skip(2)[2]);
                assert((u + w).skip(2)[3] == u.skip(2)[3]);
                assert(hex4_val((u + w).skip(2)) == hex4_val(u.skip(2)));
                let n = hex4_val(u.skip(2));
                assert((u + w).skip(6) =~= u.skip(6) + w);
                lemma_string_body_append(u.skip(6), acc.push(((n as u32) as char)), w);
            } else {
                assert((u + w).skip(2) =~= u.skip(2) + w);
                lemma_string_body_append(u.skip(2), acc.push(unescape_char(u[1])), w);
            }
        } else {
            assert((u + w).skip(1) =~= u.skip(1) + w);
            lemma_string_body_append(u.skip(1), acc.push(u[0]), w);
        }
    }
}

proof fn lemma_parse_string_append(u: Seq<char>, w: Seq<char>)
    ensures
        parse_string(u) matches Ok(p) ==> parse_string(u + w) == Ok::<
            (Seq<char>, Seq<char>),
            ParseError,
        >((p.0 + w, p.1)),
{
    if parse_string(u) is Ok {
        assert((u + w)[0] == u[0]);
        assert((u + w).skip(1) =~= u.skip(1) + w);
        lemma_string_body_append(u.skip(1), Seq::empty(), w);
    }
}

proof fn lemma_parse_number_append(u: Seq<char>, w: Seq<char>)
    requires
        all_ws(w),
    ensures
        parse_number(u) matches Ok(p) ==> parse_number(u + w) == Ok::<
            (Seq<char>, JsonVal),
            ParseError,
        >((p.0 + w, p.1)),
{
    if parse_number(u) is Ok {
        lemma_number_len_append(u, w);
        let n = number_len(u);
        lemma_number_len_le(u);
        assert((u + w).skip(n) =~= u.skip(n) + w);
        assert((u + w).subrange(0, n) =~= u.subrange(0, n));
    }
}

/// Appending insignificant whitespace to a successfully parsed text moves
/// it, untouched, into the unconsumed remainder.
pub proof fn lemma_value_append_ws(u: Seq<char>, w: Seq<char>)
    requires
        all_ws(w),
    ensures
        parse_value(u) matches Ok(p) ==> parse_value(u + w) == Ok::<
            (Seq<char>, JsonVal),
            ParseError,
        >((skip_ws(p.0 + w), p.1)),
    decreases u.len(), 3int,
{
    if parse_value(u) is Ok {
        let v = skip_ws(u);
        lemma_skip_ws_len(u);
        lemma_skip_ws_restrip(u, w);
        lemma_inner_append_ws(v, w);
        let p0 = parse_value_inner(v)->Ok_0;
        assert(parse_value_inner(v + w) == Ok::<(Seq<char>, JsonVal), ParseError>(
            (p0.0 + w, p0.1),
        ));
        assert(skip_ws(u + w) == skip_ws(v + w));
        if v.len() > 0 && !is_ws(v[0]) {
            assert(skip_ws(v + w) == v + w);
        } else {
            lemma_skip_ws_head(u);
            if v.len() == 0 {
                assert(parse_value_inner(v) is Err);
                assert(false);
            }
        }
        assert((v + w)[0] == v[0]);
        lemma_skip_ws_restrip(p0.0, w);
        assert(skip_ws(p0.0 + w) == skip_ws(skip_ws(p0.0) + w));
    }
}

proof fn lemma_inner_append_ws(v: Seq<char>, w: Seq<char>)
    requires
        all_ws(w),
    ensures
        parse_value_inner(v) matches Ok(p) ==> parse_value_inner(v + w) == Ok::<
            (Seq<char>, JsonVal),
            ParseError,
        >((p.0 + w, p.1)),
    decreases v.len(), 2int,
{
    if parse_value_inner(v) is Ok {
        assert((v + w)[0] == v[0]);
        if v[0] == 'n' {
            assert(has_prefix(v, seq!['n', 'u', 'l', 'l']));
            assert((v + w).subrange(0, 4) =~= v.subrange(0, 4));
            assert((v + w).skip(4) =~= v.skip(4) + w);
        } else if v[0] == 't' {
            assert(has_prefix(v, seq!['t', 'r', 'u', 'e']));
            assert((v + w).subrange(0, 4) =~= v.subrange(0, 4));
            assert((v + w).skip(4) =~= v.skip(4) + w);
        } else if v[0] == 'f' {
            assert(has_prefix(v, seq!['f', 'a', 'l', 's', 'e']));
            assert((v + w).subrange(0, 5) =~= v.subrange(0, 5));
            assert((v + w).skip(5) =~= v.skip(5) + w);
        } else if v[0] == '"' {
            lemma_parse_string_append(v, w);
        } else if v[0] == '[' {
            lemma_array_append_ws(v, w);
        } else if v[0] == '{' {
            lemma_object_append_ws(v, w);
        } else {
            lemma_parse_number_append(v, w);
        }
    }
}

proof fn lemma_array_append_ws(v: Seq<char>, w: Seq<char>)
    requires
        all_ws(w),
        v.len() > 0,
    ensures
        parse_array(v) matches Ok(p) ==> parse_array(v + w) == Ok::<
            (Seq<char>, JsonVal),
            ParseError,
        >((p.0 + w, p.1)),
    decreases v.len(), 1int,
{
    if parse_array(v) is Ok {
        if v.len() >= 2 && v[1] == ']' {
            assert((v + w)[1] == v[1]);
            assert((v + w).skip(2) =~= v.skip(2) + w);
        } else {
            if v.len() == 1 {
                assert(v.skip(1) =~= Seq::<char>::empty());
                assert(skip_ws(v.skip(1)) == v.skip(1));
                assert(parse_value(v.skip(1)) is Err);
                assert(false);
            }
            assert((v + w)[1] == v[1]);
            assert((v + w).skip(1) =~= v.skip(1) + w);
            lemma_array_items_append_ws(v.skip(1), Seq::empty(), w);
        }
    }
}

proof fn lemma_array_items_append_ws(u: Seq<char>, acc: Seq<JsonVal>, w: Seq<char>)
    requires
        all_ws(w),
    ensures
        array_items(u, acc) matches Ok(p) ==> array_items(u + w, acc) == Ok::<
            (Seq<char>, JsonVal),
            ParseError,
        >((p.0 + w, p.1)),
    decreases u.len(), 4int,
{
    if array_items(u, acc) is Ok {
        let pv = parse_value(u)->Ok_0;
        let rest = pv.0;
        lemma_value_append_ws(u, w);
        assert(rest.len() > 0);
        lemma_value_rest_stripped(u);
        assert(!is_ws(rest[0]));
        assert(skip_ws(rest + w) == rest + w) by {
            assert((rest + w)[0] == rest[0]);
        }
        assert((rest + w)[0] == rest[0]);
        if rest[0] == ']' {
            assert((rest + w).skip(1) =~= rest.skip(1) + w);
        } else {
            assert(rest[0] == ',' && rest.len() <= u.len());
            assert((rest + w).skip(1) =~= rest.skip(1) + w);
            lemma_array_items_append_ws(rest.skip(1), acc.push(pv.1), w);
        }
    }
}

proof fn lemma_object_append_ws(v: Seq<char>, w: Seq<char>)
    requires
        all_ws(w),
        v.len() > 0,
    ensures
        parse_object(v) matches Ok(p) ==> parse_object(v + w) == Ok::<
            (Seq<char>, JsonVal),
            ParseError,
        >((p.0 + w, p.1)),
    decreases v.len(), 1int,
{
    if parse_object(v) is Ok {
        let w0 = skip_ws(v.skip(1));
        lemma_skip_ws_len(v.skip(1));
        assert((v + w).skip(1) =~= v.skip(1) + w);
        lemma_skip_ws_restrip(v.skip(1), w);
        assert(skip_ws((v + w).skip(1)) == skip_ws(w0 + w));
        if w0.len() == 0 {
            assert(parse_string(w0) is Err);
            assert(object_items(w0, Seq::empty()) is Err);
            assert(false);
        }
        lemma_skip_ws_head(v.skip(1));
        assert(!is_ws(w0[0]));
        assert(skip_ws(w0 + w) == w0 + w) by {
            assert((w0 + w)[0] == w0[0]);
        }
        assert((w0 + w)[0] == w0[0]);
        if w0[0] == '}' {
            assert((w0 + w).skip(1) =~= w0.skip(1) + w);
        } else {
            lemma_object_items_append_ws(w0, Seq::empty(), w);
        }
    }
}

proof fn lemma_object_items_append_ws(
    u: Seq<char>,
    acc: Seq<(Seq<char>, JsonVal)>,
    w: Seq<char>,
)
    requires
        all_ws(w),
    ensures
        object_items(u, acc) matches Ok(p) ==> object_items(u + w, acc) == Ok::<
            (Seq<char>, JsonVal),
            ParseError,
        >((p.0 + w, p.1)),
    decreases u.len(), 4int,
{
    if object_items(u, acc) is Ok {
        let kp = parse_string(u)->Ok_0;
        lemma_parse_string_append(u, w);
        lemma_parse_string_len(u);
        let r1 = skip_ws(kp.0);
        lemma_skip_ws_len(kp.0);
        lemma_skip_ws_restrip(kp.0, w);
        assert(r1.len() > 0 && r1[0] == ':');
        lemma_skip_ws_head(kp.0);
        assert(skip_ws(r1 + w) == r1 + w) by {
            assert((r1 + w)[0] == r1[0]);
        }
        assert(skip_ws(kp.0 + w) == r1 + w);
        assert((r1 + w)[0] == ':');
        assert((r1 + w).skip(1) =~= r1.skip(1) + w);
        let pv = parse_value(r1.skip(1))->Ok_0;
        let rest = pv.0;
        lemma_value_append_ws(r1.skip(1), w);
        assert(rest.len() > 0);
        lemma_value_rest_stripped(r1.skip(1));
        assert(!is_ws(rest[0]));
        assert(skip_ws(rest + w) == rest + w) by {
            assert((rest + w)[0] == rest[0]);
        }
        assert((rest + w)[0] == rest[0]);
        if rest[0] == '}' {
            assert((rest + w).skip(1) =~= rest.skip(1) + w);
        } else {
            let r3 = skip_ws(rest.skip(1));
            assert(rest[0] == ',' && r3.len() < u.len());
            assert((rest + w).skip(1) =~= rest.skip(1) + w);
            lemma_skip_ws_restrip(rest.skip(1), w);
            assert(skip_ws(rest.skip(1) + w) == skip_ws(r3 + w));
            if r3.len() == 0 {
                assert(parse_string(r3) is Err);
                assert(object_items(r3, upsert(acc, kp.1, pv.1)) is Err);
                assert(false);
            }
            lemma_skip_ws_head(rest.skip(1));
            assert(skip_ws(r3 + w) == r3 + w) by {
                assert((r3 + w)[0] == r3[0]);
            }
            assert((r3 + w).len() < (u + w).len());
            lemma_object_items_append_ws(r3, upsert(acc, kp.1, pv.1), w);
        }
    }
}

/// What a successful whole-value parse leaves behind never starts with
/// whitespace: the parse consumed it.
pub proof fn lemma_value_rest_stripped(u: Seq<char>)
    ensures
        parse_value(u) matches Ok(p) ==> (p.0.len() > 0 ==> !is_ws(p.0[0])),
{
    if parse_value(u) is Ok {
        let p0 = parse_value_inner(skip_ws(u))->Ok_0;
        lemma_skip_ws_head(p0.0);
    }
}

/// A successfully parsed alternative starts at a significant character.
proof fn lemma_inner_head_not_ws(d: Seq<char>)
    ensures
        parse_value_inner(d) matches Ok(p) ==> d.len() > 0 && !is_ws(d[0]),
{
    if parse_value_inner(d) is Ok {
        if d[0] == 'n' || d[0] == 't' || d[0] == 'f' || d[0] == '"' || d[0] == '[' || d[0]
            == '{' {
        } else {
            assert(parse_number(d) is Ok);
            assert(number_len(d) > 0);
            let s0 = sign_len(d);
            if s0 == 1 {
            } else {
                let v = d.skip(0);
                assert(v =~= d);
                assert(mantissa_len(d) >= 0);
                if digit_run(d) > 0 {
                    assert(is_digit(d[0]));
                } else {
                    assert(d[0] == '.');
                }
            }
        }
    }
}

/// A valid document, surrounded by nothing but whitespace, parses as a
/// whole: the value is produced and no input is left.
pub proof fn lemma_whole_document(w1: Seq<char>, d: Seq<char>, w2: Seq<char>)
    requires
        all_ws(w1),
        all_ws(w2),
        parse_value_inner(d) matches Ok(p) && p.0 == Seq::<char>::empty(),
    ensures
        parse_value(w1 + d + w2) == Ok::<(Seq<char>, JsonVal), ParseError>(
            (Seq::empty(), parse_value_inner(d)->Ok_0.1),
        ),
{
    let jv = parse_value_inner(d)->Ok_0.1;
    lemma_inner_head_not_ws(d);
    lemma_inner_append_ws(d, w2);
    assert(Seq::<char>::empty() + w2 =~= w2);
    assert(parse_value_inner(d + w2) == Ok::<(Seq<char>, JsonVal), ParseError>((w2, jv)));
    assert(w1 + d + w2 =~= w1 + (d + w2));
    lemma_skip_ws_prepend(w1, d + w2);
    assert((d + w2)[0] == d[0]);
    assert(skip_ws(d + w2) == d + w2);
    lemma_skip_ws_all(w2);
    assert(parse_value(w1 + (d + w2)) == Ok::<(Seq<char>, JsonVal), ParseError>(
        (Seq::empty(), jv),
    ));
}


/// No key occurs twice among an object's entries.
pub open spec fn keys_unique(s: Seq<(Seq<char>, JsonVal)>) -> bool {
    forall|i: int, j: int| 0 <= i < j < s.len() ==> (#[trigger] s[i]).0 != (#[trigger] s[j]).0
}

proof fn lemma_upsert_keys(s: Seq<(Seq<char>, JsonVal)>, k: Seq<char>, v: JsonVal)
    ensures
        forall|i: int|
            0 <= i < upsert(s, k, v).len() ==> ((#[trigger] upsert(s, k, v)[i]).0 == k
                || exists|j: int| 0 <= j < s.len() && (#[trigger] s[j]).0 == upsert(s, k, v)[i].0),
    decreases s.len(),
{
    if s.len() == 0 {
    } else if s[0].0 == k {
        assert(forall|i: int|
            0 < i < s.len() ==> (#[trigger] s.update(0, (k, v))[i]).0 == s[i].0);
    } else {
        lemma_upsert_keys(s.skip(1), k, v);
        let u = seq![s[0]] + upsert(s.skip(1), k, v);
        assert(forall|i: int|
            0 < i < u.len() ==> (#[trigger] u[i]) == upsert(s.skip(1), k, v)[i - 1]);
        assert forall|i: int| 0 <= i < u.len() implies ((#[trigger] u[i]).0 == k || exists|j: int|
            0 <= j < s.len() && (#[trigger] s[j]).0 == u[i].0) by {
            if i == 0 {
                assert(s[0].0 == u[0].0);
            } else {
                let e = upsert(s.skip(1), k, v)[i - 1];
                if e.0 != k {
                    let j = choose|j: int| 0 <= j < s.skip(1).len() && (#[trigger] s.skip(1)[j]).0
                        == e.0;
                    assert(s[j + 1].0 == e.0);
                }
            }
        }
    }
}

/// Replacing or adding an entry keeps the object's keys unique: this is
/// the invariant every parsed object carries, and why a duplicate key in
/// the text leaves one entry only.
pub proof fn lemma_upsert_keys_unique(s: Seq<(Seq<char>, JsonVal)>, k: Seq<char>, v: JsonVal)
    requires
        keys_unique(s),
    ensures
        keys_unique(upsert(s, k, v)),
    decreases s.len(),
{
    if s.len() == 0 {
    } else if s[0].0 == k {
        let u = s.update(0, (k, v));
        assert forall|i: int, j: int| 0 <= i < j < u.len() implies (#[trigger] u[i]).0 != (
        #[trigger] u[j]).0 by {
            assert(u[j].0 == s[j].0);
            if i > 0 {
                assert(u[i].0 == s[i].0);
            } else {
                assert(u[0].0 == s[0].0);
            }
        }
    } else {
        assert(forall|i: int, j: int|
            0 <= i < j < s.skip(1).len() ==> (#[trigger] s.skip(1)[i]).0 != (
            #[trigger] s.skip(1)[j]).0) by {
            assert(forall|i: int|
                0 <= i < s.skip(1).len() ==> (#[trigger] s.skip(1)[i]) == s[i + 1]);
        }
        lemma_upsert_keys_unique(s.skip(1), k, v);
        lemma_upsert_keys(s.skip(1), k, v);
        let r = upsert(s.skip(1), k, v);
        let u = seq![s[0]] + r;
        assert forall|i: int, j: int| 0 <= i < j < u.len() implies (#[trigger] u[i]).0 != (
        #[trigger] u[j]).0 by {
            if i == 0 {
                assert(u[j] == r[j - 1]);
                if r[j - 1].0 == k {
                } else {
                    let t = choose|t: int| 0 <= t < s.skip(1).len() && (#[trigger] s.skip(1)[t]).0
                        == r[j - 1].0;
                    assert(s[t + 1].0 == r[j - 1].0);
                    assert(s[0].0 != s[t + 1].0);
                }
            } else {
                assert(u[i] == r[i - 1]);
                assert(u[j] == r[j - 1]);
            }
        }
    }
}


/// Well-formedness of a parsed tree: every object in it, at every depth,
/// has unique keys.
pub open spec fn wf(v: JsonVal) -> bool
    decreases v,
{
    match v {
        JsonVal::Obj(s) => keys_unique(s) && (forall|i: int|
            0 <= i < s.len() ==> wf((#[trigger] s[i]).1)),
        JsonVal::Arr(a) => forall|i: int| 0 <= i < a.len() ==> wf(#[trigger] a[i]),
        _ => true,
    }
}

proof fn lemma_upsert_entries(s: Seq<(Seq<char>, JsonVal)>, k: Seq<char>, v: JsonVal)
    ensures
        forall|i: int|
            0 <= i < upsert(s, k, v).len() ==> ((#[trigger] upsert(s, k, v)[i]) == (k, v)
                || exists|j: int| 0 <= j < s.len() && (#[trigger] s[j]) == upsert(s, k, v)[i]),
    decreases s.len(),
{
    if s.len() == 0 {
    } else if s[0].0 == k {
        assert(forall|i: int|
            0 < i < s.len() ==> (#[trigger] s.update(0, (k, v))[i]) == s[i]);
    } else {
        lemma_upsert_entries(s.skip(1), k, v);
        let u = seq![s[0]] + upsert(s.skip(1), k, v);
        assert(forall|i: int|
            0 < i < u.len() ==> (#[trigger] u[i]) == upsert(s.skip(1), k, v)[i - 1]);
        assert forall|i: int| 0 <= i < u.len() implies ((#[trigger] u[i]) == (k, v) || exists|j: int|
            0 <= j < s.len() && (#[trigger] s[j]) == u[i]) by {
            if i == 0 {
                assert(s[0] == u[0]);
            } else {
                let e = upsert(s.skip(1), k, v)[i - 1];
                if e != (k, v) {
                    let j = choose|j: int| 0 <= j < s.skip(1).len() && (#[trigger] s.skip(1)[j])
                        == e;
                    assert(s[j + 1] == e);
                }
            }
        }
    }
}

/// Every tree the parser returns is well formed.
pub proof fn lemma_parse_value_wf(u: Seq<char>)
    ensures
        parse_value(u) matches Ok(p) ==> wf(p.1),
    decreases u.len(), 3int,
{
    if parse_value(u) is Ok {
        lemma_skip_ws_len(u);
        lemma_inner_wf(skip_ws(u));
    }
}

proof fn lemma_inner_wf(v: Seq<char>)
    ensures
        parse_value_inner(v) matches Ok(p) ==> wf(p.1),
    decreases v.len(), 2int,
{
    if parse_value_inner(v) is Ok {
        if v[0] == '[' {
            lemma_array_wf(v);
        } else if v[0] == '{' {
            lemma_object_wf(v);
        }
    }
}

proof fn lemma_array_wf(v: Seq<char>)
    requires
        v.len() > 0,
    ensures
        parse_array(v) matches Ok(p) ==> wf(p.1),
    decreases v.len(), 1int,
{
    if parse_array(v) is Ok {
        if v.len() >= 2 && v[1] == ']' {
        } else {
            lemma_array_items_wf(v.skip(1), Seq::empty());
        }
    }
}

proof fn lemma_array_items_wf(u: Seq<char>, acc: Seq<JsonVal>)
    requires
        forall|i: int| 0 <= i < acc.len() ==> wf(#[trigger] acc[i]),
    ensures
        array_items(u, acc) matches Ok(p) ==> wf(p.1),
    decreases u.len(), 4int,
{
    if array_items(u, acc) is Ok {
        let pv = parse_value(u)->Ok_0;
        lemma_parse_value_wf(u);
        let acc2 = acc.push(pv.1);
        assert(forall|i: int| 0 <= i < acc.len() ==> acc2[i] == (#[trigger] acc[i]));
        assert(forall|i: int| 0 <= i < acc2.len() ==> wf(#[trigger] acc2[i]));
        let rest = pv.0;
        if rest.len() > 0 && rest[0] == ']' {
        } else {
            lemma_array_items_wf(rest.skip(1), acc2);
        }
    }
}

proof fn lemma_object_wf(v: Seq<char>)
    requires
        v.len() > 0,
    ensures
        parse_object(v) matches Ok(p) ==> wf(p.1),
    decreases v.len(), 1int,
{
    if parse_object(v) is Ok {
        let w0 = skip_ws(v.skip(1));
        lemma_skip_ws_len(v.skip(1));
        if w0.len() > 0 && w0[0] == '}' {
        } else {
            lemma_object_items_wf(w0, Seq::empty());
        }
    }
}

proof fn lemma_object_items_wf(u: Seq<char>, acc: Seq<(Seq<char>, JsonVal)>)
    requires
        keys_unique(acc),
        forall|i: int| 0 <= i < acc.len() ==> wf((#[trigger] acc[i]).1),
    ensures
        object_items(u, acc) matches Ok(p) ==> wf(p.1),
    decreases u.len(), 4int,
{
    if object_items(u, acc) is Ok {
        let kp = parse_string(u)->Ok_0;
        lemma_parse_string_len(u);
        let r1 = skip_ws(kp.0);
        lemma_skip_ws_len(kp.0);
        let pv = parse_value(r1.skip(1))->Ok_0;
        lemma_parse_value_wf(r1.skip(1));
        let acc2 = upsert(acc, kp.1, pv.1);
        lemma_upsert_keys_unique(acc, kp.1, pv.1);
        lemma_upsert_entries(acc, kp.1, pv.1);
        assert forall|i: int| 0 <= i < acc2.len() implies wf((#[trigger] acc2[i]).1) by {
            if acc2[i] == (kp.1, pv.1) {
            } else {
                let j = choose|j: int| 0 <= j < acc.len() && (#[trigger] acc[j]) == acc2[i];
                assert(wf(acc[j].1));
            }
        }
        let rest = pv.0;
        if rest.len() > 0 && rest[0] == '}' {
        } else {
            lemma_object_items_wf(skip_ws(rest.skip(1)), acc2);
        }
    }
}

} // verus!
