//! The JSON subset that envelopes are written in, as spec functions over the
//! characters of a frame.
//!
//! Each parsing function takes the text still to be read and returns what it
//! read together with the text that follows it.
use vstd::prelude::*;

verus! {

/// The text of `s` from position `i` on.
pub open spec fn suffix(s: Seq<char>, i: int) -> Seq<char> {
    s.subrange(i, s.len() as int)
}

pub open spec fn is_ws(c: char) -> bool {
    c == ' ' || c == '\t' || c == '\n' || c == '\r'
}

/// `s` without its leading whitespace.
pub open spec fn skip_ws(s: Seq<char>) -> Seq<char>
    decreases s.len(),
{
    if s.len() > 0 && is_ws(s[0]) {
        skip_ws(s.drop_first())
    } else {
        s
    }
}

/// The value of a hexadecimal digit.
pub open spec fn hex_val(c: char) -> Option<u32> {
    if '0' <= c && c <= '9' {
        Some((c as u32 - 48) as u32)
    } else if 'a' <= c && c <= 'f' {
        Some((c as u32 - 87) as u32)
    } else if 'A' <= c && c <= 'F' {
        Some((c as u32 - 55) as u32)
    } else {
        None
    }
}

/// The value of four hexadecimal digits.
pub open spec fn hex4(a: char, b: char, c: char, d: char) -> Option<u32> {
    match (hex_val(a), hex_val(b), hex_val(c), hex_val(d)) {
        (Some(x), Some(y), Some(z), Some(w)) => Some((x * 4096 + y * 256 + z * 16 + w) as u32),
        _ => None,
    }
}

/// The character that a one-letter escape stands for.
pub open spec fn unescape(c: char) -> Option<char> {
    if c == '"' {
        Some('"')
    } else if c == '\\' {
        Some('\\')
    } else if c == '/' {
        Some('/')
    } else if c == 'b' {
        Some('\x08')
    } else if c == 'f' {
        Some('\x0c')
    } else if c == 'n' {
        Some('\n')
    } else if c == 'r' {
        Some('\r')
    } else if c == 't' {
        Some('\t')
    } else {
        None
    }
}

pub open spec fn prepend<T>(c: T, r: Option<(Seq<T>, Seq<char>)>) -> Option<(Seq<T>, Seq<char>)> {
    match r {
        Some((v, rest)) => Some((seq![c] + v, rest)),
        None => None,
    }
}

pub open spec fn is_high_surrogate(v: u32) -> bool {
    0xD800 <= v && v < 0xDC00
}

pub open spec fn is_low_surrogate(v: u32) -> bool {
    0xDC00 <= v && v < 0xE000
}

/// The scalar value that a UTF-16 surrogate pair stands for.
pub open spec fn surrogate_pair(high: u32, low: u32) -> u32 {
    (0x10000 + (high - 0xD800) * 0x400 + (low - 0xDC00)) as u32
}

/// The body of a string literal up to and including its closing quote.
/// A `\u` escape of a surrogate must be a high one followed by a low one.
pub open spec fn str_body(s: Seq<char>) -> Option<(Seq<char>, Seq<char>)>
    decreases s.len(),
{
    if s.len() == 0 {
        None
    } else if s[0] == '"' {
        Some((Seq::empty(), s.drop_first()))
    } else if s[0] == '\\' {
        if s.len() < 2 {
            None
        } else if s[1] == 'u' {
            if s.len() < 6 {
                None
            } else {
                match hex4(s[2], s[3], s[4], s[5]) {
                    None => None,
                    Some(v) => if is_high_surrogate(v) {
                        if s.len() >= 12 && s[6] == '\\' && s[7] == 'u' {
                            match hex4(s[8], s[9], s[10], s[11]) {
                                Some(w) => if is_low_surrogate(w) {
                                    prepend(surrogate_pair(v, w) as char, str_body(s.subrange(12, s.len() as int)))
                                } else {
                                    None
                                },
                                None => None,
                            }
                        } else {
                            None
                        }
                    } else if is_low_surrogate(v) {
                        None
                    } else {
                        prepend(v as char, str_body(s.subrange(6, s.len() as int)))
                    },
                }
            }
        } else {
            match unescape(s[1]) {
                Some(c) => prepend(c, str_body(s.subrange(2, s.len() as int))),
                None => None,
            }
        }
    } else if (s[0] as u32) < 0x20 {
        None
    } else {
        prepend(s[0], str_body(s.drop_first()))
    }
}

/// A string literal.
pub open spec fn json_string(s: Seq<char>) -> Option<(Seq<char>, Seq<char>)> {
    if s.len() > 0 && s[0] == '"' {
        str_body(s.drop_first())
    } else {
        None
    }
}

/// The items of a non-empty array of string literals, up to and including `]`.
pub open spec fn list_items(s: Seq<char>) -> Option<(Seq<Seq<char>>, Seq<char>)>
    decreases s.len(),
{
    match json_string(s) {
        None => None,
        Some((v, r)) => {
            let r1 = skip_ws(r);
            if r1.len() > 0 && r1[0] == ']' {
                Some((seq![v], r1.drop_first()))
            } else if r1.len() > 0 && r1[0] == ',' {
                let t = skip_ws(r1.drop_first());
                if t.len() < s.len() {
                    prepend(v, list_items(t))
                } else {
                    None
                }
            } else {
                None
            }
        }
    }
}

/// A member value as far as an envelope reads it.
pub enum JsonField {
    Null,
    Text(Seq<char>),
    List(Seq<Seq<char>>),
    /// Any other JSON value.
    Other,
}

/// `null`, a string literal, or an array of string literals.
pub open spec fn typed_value(s: Seq<char>) -> Option<(JsonField, Seq<char>)> {
    if s.len() >= 4 && s[0] == 'n' && s[1] == 'u' && s[2] == 'l' && s[3] == 'l' {
        Some((JsonField::Null, s.subrange(4, s.len() as int)))
    } else if s.len() > 0 && s[0] == '"' {
        match json_string(s) {
            Some((v, r)) => Some((JsonField::Text(v), r)),
            None => None,
        }
    } else if s.len() > 0 && s[0] == '[' {
        let t = skip_ws(s.drop_first());
        if t.len() > 0 && t[0] == ']' {
            Some((JsonField::List(Seq::empty()), t.drop_first()))
        } else {
            match list_items(t) {
                Some((l, r)) => Some((JsonField::List(l), r)),
                None => None,
            }
        }
    } else {
        None
    }
}

/// How deeply arrays and objects may nest inside a member value.
pub const MAX_NESTING: u32 = 127;

pub open spec fn is_digit(c: char) -> bool {
    '0' <= c && c <= '9'
}

/// `s` without its leading digits.
pub open spec fn skip_digits(s: Seq<char>) -> Seq<char>
    decreases s.len(),
{
    if s.len() > 0 && is_digit(s[0]) {
        skip_digits(s.drop_first())
    } else {
        s
    }
}

/// The exponent of a number, if any.
pub open spec fn skip_exponent(c: Seq<char>) -> Option<Seq<char>> {
    if c.len() > 0 && (c[0] == 'e' || c[0] == 'E') {
        let e = c.drop_first();
        let e2 = if e.len() > 0 && (e[0] == '+' || e[0] == '-') { e.drop_first() } else { e };
        if e2.len() > 0 && is_digit(e2[0]) {
            Some(skip_digits(e2))
        } else {
            None
        }
    } else {
        Some(c)
    }
}

/// The text after a JSON number.
pub open spec fn skip_number(s: Seq<char>) -> Option<Seq<char>> {
    let a = if s.len() > 0 && s[0] == '-' { s.drop_first() } else { s };
    if !(a.len() > 0 && is_digit(a[0])) {
        None
    } else {
        let b = if a[0] == '0' { a.drop_first() } else { skip_digits(a) };
        if b.len() > 0 && b[0] == '.' {
            if b.len() > 1 && is_digit(b[1]) {
                skip_exponent(skip_digits(b.drop_first()))
            } else {
                None
            }
        } else {
            skip_exponent(b)
        }
    }
}

/// The text after `lit`, where `s` starts with it.
pub open spec fn skip_literal(s: Seq<char>, lit: Seq<char>) -> Option<Seq<char>> {
    if s.len() >= lit.len() && s.subrange(0, lit.len() as int) == lit {
        Some(s.subrange(lit.len() as int, s.len() as int))
    } else {
        None
    }
}

/// The text after one JSON value, with at most `d` levels of arrays and
/// objects inside it.
pub open spec fn skip_value(s: Seq<char>, d: nat) -> Option<Seq<char>>
    decreases d, s.len(), 0nat,
{
    if s.len() == 0 {
        None
    } else if s[0] == '"' {
        match json_string(s) {
            Some((_, r)) => Some(r),
            None => None,
        }
    } else if s[0] == '[' || s[0] == '{' {
        if d == 0 {
            None
        } else {
            let t = skip_ws(s.drop_first());
            let close = if s[0] == '[' { ']' } else { '}' };
            if t.len() > 0 && t[0] == close {
                Some(t.drop_first())
            } else if s[0] == '[' {
                skip_items(t, (d - 1) as nat)
            } else {
                skip_members(t, (d - 1) as nat)
            }
        }
    } else if s[0] == 'n' {
        skip_literal(s, seq!['n', 'u', 'l', 'l'])
    } else if s[0] == 't' {
        skip_literal(s, seq!['t', 'r', 'u', 'e'])
    } else if s[0] == 'f' {
        skip_literal(s, seq!['f', 'a', 'l', 's', 'e'])
    } else {
        skip_number(s)
    }
}

/// The text after the items of a non-empty array and its `]`.
pub open spec fn skip_items(s: Seq<char>, d: nat) -> Option<Seq<char>>
    decreases d, s.len(), 1nat,
{
    match skip_value(s, d) {
        None => None,
        Some(r) => {
            let r1 = skip_ws(r);
            if r1.len() > 0 && r1[0] == ']' {
                Some(r1.drop_first())
            } else if r1.len() > 0 && r1[0] == ',' {
                let t = skip_ws(r1.drop_first());
                if t.len() < s.len() {
                    skip_items(t, d)
                } else {
                    None
                }
            } else {
                None
            }
        },
    }
}

/// The text after the members of a non-empty object and its `}`.
pub open spec fn skip_members(s: Seq<char>, d: nat) -> Option<Seq<char>>
    decreases d, s.len(), 1nat,
{
    match json_string(s) {
        None => None,
        Some((_, r)) => {
            let r1 = skip_ws(r);
            let v = skip_ws(r1.drop_first());
            if r1.len() > 0 && r1[0] == ':' && v.len() < s.len() {
                match skip_value(v, d) {
                    None => None,
                    Some(r2) => {
                        let r3 = skip_ws(r2);
                        if r3.len() > 0 && r3[0] == '}' {
                            Some(r3.drop_first())
                        } else if r3.len() > 0 && r3[0] == ',' {
                            let t = skip_ws(r3.drop_first());
                            if t.len() < s.len() {
                                skip_members(t, d)
                            } else {
                                None
                            }
                        } else {
                            None
                        }
                    },
                }
            } else {
                None
            }
        },
    }
}

/// A member value: read as `null`, a string or an array of strings where it
/// is one, else skipped as any other JSON value.
pub open spec fn field_value(s: Seq<char>) -> Option<(JsonField, Seq<char>)> {
    match typed_value(s) {
        Some(v) => Some(v),
        None => match skip_value(s, MAX_NESTING as nat) {
            Some(r) => Some((JsonField::Other, r)),
            None => None,
        },
    }
}

/// The members of a non-empty object, up to its closing `}` and the end of the text.
pub open spec fn members(s: Seq<char>) -> Option<Seq<(Seq<char>, JsonField)>>
    decreases s.len(),
{
    match json_string(s) {
        None => None,
        Some((k, r)) => {
            let r1 = skip_ws(r);
            if r1.len() > 0 && r1[0] == ':' {
                match field_value(skip_ws(r1.drop_first())) {
                    None => None,
                    Some((v, r2)) => {
                        let r3 = skip_ws(r2);
                        if r3.len() > 0 && r3[0] == '}' {
                            if skip_ws(r3.drop_first()).len() == 0 {
                                Some(seq![(k, v)])
                            } else {
                                None
                            }
                        } else if r3.len() > 0 && r3[0] == ',' {
                            let t = skip_ws(r3.drop_first());
                            if t.len() < s.len() {
                                match members(t) {
                                    Some(ms) => Some(seq![(k, v)] + ms),
                                    None => None,
                                }
                            } else {
                                None
                            }
                        } else {
                            None
                        }
                    },
                }
            } else {
                None
            }
        },
    }
}

/// A whole frame read as one object: its members in order.
pub open spec fn parse_object(s: Seq<char>) -> Option<Seq<(Seq<char>, JsonField)>> {
    let t = skip_ws(s);
    if t.len() > 0 && t[0] == '{' {
        let u = skip_ws(t.drop_first());
        if u.len() > 0 && u[0] == '}' {
            if skip_ws(u.drop_first()).len() == 0 {
                Some(Seq::empty())
            } else {
                None
            }
        } else {
            members(u)
        }
    } else {
        None
    }
}

} // verus!
