//! Executable reading of the grammar in `grammar`, position by position.
use vstd::prelude::*;
use crate::grammar::{
    field_value, hex4, is_digit, skip_digits, skip_exponent, skip_items, skip_literal, skip_members,
    skip_number, skip_value, typed_value, MAX_NESTING, hex_val, json_string, list_items, members, parse_object, prepend, skip_ws,
    str_body, suffix, unescape, JsonField,
};
use crate::text::{char_from_u32, string_of_chars};

verus! {

/// A member value as read from a frame.
pub enum Field {
    Null,
    Text(String),
    List(Vec<String>),
    Other,
}

impl View for Field {
    type V = JsonField;

    open spec fn view(&self) -> JsonField {
        match self {
            Field::Null => JsonField::Null,
            Field::Text(t) => JsonField::Text(t@),
            Field::List(l) => JsonField::List(l.deep_view()),
            Field::Other => JsonField::Other,
        }
    }
}

pub open spec fn members_view(v: Seq<(String, Field)>) -> Seq<(Seq<char>, JsonField)> {
    v.map_values(|m: (String, Field)| (m.0@, m.1@))
}

/// `a` put in front of what `r` read.
pub open spec fn prepend_all<T>(a: Seq<T>, r: Option<(Seq<T>, Seq<char>)>) -> Option<(Seq<T>, Seq<char>)> {
    match r {
        Some((v, rest)) => Some((a + v, rest)),
        None => None,
    }
}

proof fn lemma_prepend_all<T>(a: Seq<T>, c: T, r: Option<(Seq<T>, Seq<char>)>)
    ensures
        prepend_all(a, prepend(c, r)) == prepend_all(a.push(c), r),
{
    match r {
        Some((v, rest)) => {
            assert(a + (seq![c] + v) =~= a.push(c) + v);
        },
        None => {},
    }
}

proof fn lemma_suffix_drop(s: Seq<char>, i: int, d: int)
    requires
        0 <= i,
        0 <= d,
        i + d <= s.len(),
    ensures
        suffix(s, i).subrange(d, suffix(s, i).len() as int) == suffix(s, i + d),
        d == 1 ==> suffix(s, i).drop_first() == suffix(s, i + 1),
{
    assert(suffix(s, i).subrange(d, suffix(s, i).len() as int) =~= suffix(s, i + d));
    if d == 1 {
        assert(suffix(s, i).drop_first() =~= suffix(s, i + 1));
    }
}

/// The first position at or after `i` that holds no whitespace.
pub fn skip_ws_at(s: &Vec<char>, i: usize) -> (j: usize)
    requires
        i <= s@.len(),
    ensures
        i <= j <= s@.len(),
        suffix(s@, j as int) == skip_ws(suffix(s@, i as int)),
{
    let mut k = i;
    while k < s.len() && (s[k] == ' ' || s[k] == '\t' || s[k] == '\n' || s[k] == '\r')
        invariant
            i <= k <= s@.len(),
            skip_ws(suffix(s@, i as int)) == skip_ws(suffix(s@, k as int)),
        decreases s@.len() - k,
    {
        proof {
            lemma_suffix_drop(s@, k as int, 1);
        }
        k = k + 1;
    }
    k
}

fn hex_val_exec(c: char) -> (r: Option<u32>)
    ensures
        r == hex_val(c),
{
    if '0' <= c && c <= '9' {
        Some(c as u32 - 48)
    } else if 'a' <= c && c <= 'f' {
        Some(c as u32 - 87)
    } else if 'A' <= c && c <= 'F' {
        Some(c as u32 - 55)
    } else {
        None
    }
}

fn unescape_exec(c: char) -> (r: Option<char>)
    ensures
        r == unescape(c),
{
    if c == '"' {
        Some('"')
    } else if c == '\\' {
        Some('\\')
    } else if c == '/' {
        Some('/')
    } else if c == 'b' {
        Some('\x08')
    } else if c == 'f' {
        Some('\x0c')
    } else if c == 'n' {
        Some('\n')
    } else if c == 'r' {
        Some('\r')
    } else if c == 't' {
        Some('\t')
    } else {
        None
    }
}

fn hex4_exec(a: char, b: char, c: char, d: char) -> (r: Option<u32>)
    ensures
        r == hex4(a, b, c, d),
{
    match (hex_val_exec(a), hex_val_exec(b), hex_val_exec(c), hex_val_exec(d)) {
        (Some(x), Some(y), Some(z), Some(w)) => Some(x * 4096 + y * 256 + z * 16 + w),
        _ => None,
    }
}

/// Reads the body of a string literal that starts at `i`, just after its opening quote.
pub fn parse_str_body(s: &Vec<char>, i: usize) -> (r: Option<(Vec<char>, usize)>)
    requires
        i <= s@.len(),
    ensures
        match r {
            Some((v, j)) => i < j <= s@.len() && str_body(suffix(s@, i as int)) == Some((v@, suffix(s@, j as int))),
            None => str_body(suffix(s@, i as int)) is None,
        },
{
    let mut acc: Vec<char> = Vec::new();
    let mut k = i;
    assert(acc@ + Seq::<char>::empty() =~= Seq::<char>::empty());
    loop
        invariant
            i <= k <= s@.len(),
            str_body(suffix(s@, i as int)) == prepend_all(acc@, str_body(suffix(s@, k as int))),
        decreases s@.len() - k,
    {
        let ghost cur = suffix(s@, k as int);
        if k >= s.len() {
            return None;
        }
        let c = s[k];
        assert(cur[0] == c);
        if c == '"' {
            proof {
                lemma_suffix_drop(s@, k as int, 1);
                assert(acc@ + Seq::<char>::empty() =~= acc@);
            }
            return Some((acc, k + 1));
        } else if c == '\\' {
            if k + 1 >= s.len() {
                return None;
            }
            let c1 = s[k + 1];
            assert(cur[1] == c1);
            if c1 == 'u' {
                if s.len() - k < 6 {
                    return None;
                }
                assert(cur[2] == s@[k + 2] && cur[3] == s@[k + 3] && cur[4] == s@[k + 4] && cur[5] == s@[k + 5]);
                let v = match hex4_exec(s[k + 2], s[k + 3], s[k + 4], s[k + 5]) {
                    Some(v) => v,
                    None => {
                        return None;
                    },
                };
                if 0xD800 <= v && v < 0xDC00 {
                    if !(s.len() - k >= 12 && s[k + 6] == '\\' && s[k + 7] == 'u') {
                        if s.len() - k >= 12 {
                            assert(cur[6] == s@[k + 6] && cur[7] == s@[k + 7]);
                        }
                        return None;
                    }
                    assert(cur[6] == s@[k + 6] && cur[7] == s@[k + 7]);
                    assert(cur[8] == s@[k + 8] && cur[9] == s@[k + 9] && cur[10] == s@[k + 10] && cur[11] == s@[k + 11]);
                    let w = match hex4_exec(s[k + 8], s[k + 9], s[k + 10], s[k + 11]) {
                        Some(w) => w,
                        None => {
                            return None;
                        },
                    };
                    if !(0xDC00 <= w && w < 0xE000) {
                        return None;
                    }
                    let code = 0x10000 + (v - 0xD800) * 0x400 + (w - 0xDC00);
                    let ch = match char_from_u32(code) {
                        Some(ch) => ch,
                        None => {
                            return None;
                        },
                    };
                    proof {
                        lemma_suffix_drop(s@, k as int, 12);
                        lemma_prepend_all(acc@, ch, str_body(suffix(s@, k + 12)));
                    }
                    acc.push(ch);
                    k = k + 12;
                } else if 0xDC00 <= v && v < 0xE000 {
                    return None;
                } else {
                    let ch = match char_from_u32(v) {
                        Some(ch) => ch,
                        None => {
                            return None;
                        },
                    };
                    proof {
                        lemma_suffix_drop(s@, k as int, 6);
                        lemma_prepend_all(acc@, ch, str_body(suffix(s@, k + 6)));
                    }
                    acc.push(ch);
                    k = k + 6;
                }
            } else {
                match unescape_exec(c1) {
                    Some(ch) => {
                        proof {
                            lemma_suffix_drop(s@, k as int, 2);
                            lemma_prepend_all(acc@, ch, str_body(suffix(s@, k + 2)));
                        }
                        acc.push(ch);
                        k = k + 2;
                    },
                    None => {
                        return None;
                    },
                }
            }
        } else if (c as u32) < 0x20 {
            return None;
        } else {
            proof {
                lemma_suffix_drop(s@, k as int, 1);
                lemma_prepend_all(acc@, c, str_body(suffix(s@, k + 1)));
            }
            acc.push(c);
            k = k + 1;
        }
    }
}

/// Reads a string literal that starts at `i`.
pub fn parse_string(s: &Vec<char>, i: usize) -> (r: Option<(String, usize)>)
    requires
        i <= s@.len(),
    ensures
        match r {
            Some((v, j)) => i < j <= s@.len() && json_string(suffix(s@, i as int)) == Some((v@, suffix(s@, j as int))),
            None => json_string(suffix(s@, i as int)) is None,
        },
{
    if i < s.len() && s[i] == '"' {
        proof {
            lemma_suffix_drop(s@, i as int, 1);
        }
        match parse_str_body(s, i + 1) {
            Some((v, j)) => Some((string_of_chars(&v), j)),
            None => None,
        }
    } else {
        None
    }
}

/// Reads the items of a non-empty array of string literals from `i` on.
pub fn parse_list_items(s: &Vec<char>, i: usize) -> (r: Option<(Vec<String>, usize)>)
    requires
        i <= s@.len(),
    ensures
        match r {
            Some((v, j)) => i < j <= s@.len() && list_items(suffix(s@, i as int)) == Some((v.deep_view(), suffix(s@, j as int))),
            None => list_items(suffix(s@, i as int)) is None,
        },
{
    let mut acc: Vec<String> = Vec::new();
    let mut k = i;
    assert(acc.deep_view() + Seq::<Seq<char>>::empty() =~= Seq::<Seq<char>>::empty());
    loop
        invariant
            i <= k <= s@.len(),
            list_items(suffix(s@, i as int)) == prepend_all(acc.deep_view(), list_items(suffix(s@, k as int))),
            acc@.len() > 0 ==> k > i,
        decreases s@.len() - k,
    {
        match parse_string(s, k) {
            None => {
                return None;
            },
            Some((v, p)) => {
                let r1 = skip_ws_at(s, p);
                let ghost rest1 = suffix(s@, r1 as int);
                if r1 < s.len() && s[r1] == ']' {
                    assert(rest1[0] == s@[r1 as int]);
                    proof {
                        lemma_suffix_drop(s@, r1 as int, 1);
                    }
                    let ghost before = acc.deep_view();
                    acc.push(v);
                    assert(acc.deep_view() =~= before + seq![v@]);
                    return Some((acc, r1 + 1));
                } else if r1 < s.len() && s[r1] == ',' {
                    assert(rest1[0] == s@[r1 as int]);
                    proof {
                        lemma_suffix_drop(s@, r1 as int, 1);
                    }
                    let t = skip_ws_at(s, r1 + 1);
                    proof {
                        lemma_prepend_all(acc.deep_view(), v@, list_items(suffix(s@, t as int)));
                    }
                    let ghost before = acc.deep_view();
                    acc.push(v);
                    assert(acc.deep_view() =~= before.push(v@));
                    k = t;
                } else {
                    if r1 < s.len() {
                        assert(rest1[0] == s@[r1 as int]);
                    }
                    return None;
                }
            },
        }
    }
}

/// Reads `null`, a string literal, or an array of them from `i` on.
pub fn parse_typed_value(s: &Vec<char>, i: usize) -> (r: Option<(Field, usize)>)
    requires
        i <= s@.len(),
    ensures
        match r {
            Some((v, j)) => i < j <= s@.len() && typed_value(suffix(s@, i as int)) == Some((v@, suffix(s@, j as int))),
            None => typed_value(suffix(s@, i as int)) is None,
        },
{
    let ghost cur = suffix(s@, i as int);
    if s.len() - i >= 4 && s[i] == 'n' && s[i + 1] == 'u' && s[i + 2] == 'l' && s[i + 3] == 'l' {
        proof {
            lemma_suffix_drop(s@, i as int, 4);
        }
        return Some((Field::Null, i + 4));
    }
    proof {
        if s@.len() - i >= 4 {
            assert(cur[0] == s@[i as int] && cur[1] == s@[i + 1] && cur[2] == s@[i + 2] && cur[3] == s@[i + 3]);
        }
    }
    if i < s.len() && s[i] == '"' {
        match parse_string(s, i) {
            Some((v, j)) => Some((Field::Text(v), j)),
            None => None,
        }
    } else if i < s.len() && s[i] == '[' {
        proof {
            lemma_suffix_drop(s@, i as int, 1);
        }
        let t = skip_ws_at(s, i + 1);
        if t < s.len() && s[t] == ']' {
            proof {
                lemma_suffix_drop(s@, t as int, 1);
            }
            let empty: Vec<String> = Vec::new();
            assert(empty.deep_view() =~= Seq::<Seq<char>>::empty());
            Some((Field::List(empty), t + 1))
        } else {
            match parse_list_items(s, t) {
                Some((l, j)) => Some((Field::List(l), j)),
                None => None,
            }
        }
    } else {
        None
    }
}

fn skip_digits_at(s: &Vec<char>, i: usize) -> (j: usize)
    requires
        i <= s@.len(),
    ensures
        i <= j <= s@.len(),
        suffix(s@, j as int) == skip_digits(suffix(s@, i as int)),
{
    let mut k = i;
    while k < s.len() && '0' <= s[k] && s[k] <= '9'
        invariant
            i <= k <= s@.len(),
            skip_digits(suffix(s@, i as int)) == skip_digits(suffix(s@, k as int)),
        decreases s@.len() - k,
    {
        proof {
            lemma_suffix_drop(s@, k as int, 1);
        }
        k = k + 1;
    }
    k
}

fn is_digit_at(s: &Vec<char>, i: usize) -> (r: bool)
    requires
        i <= s@.len(),
    ensures
        r == (suffix(s@, i as int).len() > 0 && is_digit(suffix(s@, i as int)[0])),
{
    i < s.len() && '0' <= s[i] && s[i] <= '9'
}

fn skip_exponent_at(s: &Vec<char>, i: usize) -> (r: Option<usize>)
    requires
        i <= s@.len(),
    ensures
        match r {
            Some(j) => i <= j <= s@.len() && skip_exponent(suffix(s@, i as int)) == Some(suffix(s@, j as int)),
            None => skip_exponent(suffix(s@, i as int)) is None,
        },
{
    if i < s.len() && (s[i] == 'e' || s[i] == 'E') {
        proof {
            lemma_suffix_drop(s@, i as int, 1);
        }
        let mut e = i + 1;
        if e < s.len() && (s[e] == '+' || s[e] == '-') {
            proof {
                lemma_suffix_drop(s@, e as int, 1);
            }
            e = e + 1;
        }
        if is_digit_at(s, e) {
            Some(skip_digits_at(s, e))
        } else {
            None
        }
    } else {
        Some(i)
    }
}

fn skip_number_at(s: &Vec<char>, i: usize) -> (r: Option<usize>)
    requires
        i <= s@.len(),
    ensures
        match r {
            Some(j) => i < j <= s@.len() && skip_number(suffix(s@, i as int)) == Some(suffix(s@, j as int)),
            None => skip_number(suffix(s@, i as int)) is None,
        },
{
    let mut a = i;
    if i < s.len() && s[i] == '-' {
        proof {
            lemma_suffix_drop(s@, i as int, 1);
        }
        a = i + 1;
    }
    if !is_digit_at(s, a) {
        return None;
    }
    let b = if s[a] == '0' {
        proof {
            lemma_suffix_drop(s@, a as int, 1);
        }
        a + 1
    } else {
        proof {
            lemma_suffix_drop(s@, a as int, 1);
        }
        skip_digits_at(s, a + 1)
    };
    if b < s.len() && s[b] == '.' {
        proof {
            lemma_suffix_drop(s@, b as int, 1);
        }
        if b + 1 < s.len() && '0' <= s[b + 1] && s[b + 1] <= '9' {
            let c = skip_digits_at(s, b + 1);
            skip_exponent_at(s, c)
        } else {
            None
        }
    } else {
        skip_exponent_at(s, b)
    }
}

fn skip_literal_at(s: &Vec<char>, i: usize, lit: &Vec<char>) -> (r: Option<usize>)
    requires
        i <= s@.len(),
        lit@.len() > 0,
    ensures
        match r {
            Some(j) => i < j <= s@.len() && skip_literal(suffix(s@, i as int), lit@) == Some(suffix(s@, j as int)),
            None => skip_literal(suffix(s@, i as int), lit@) is None,
        },
{
    let ghost cur = suffix(s@, i as int);
    if s.len() - i < lit.len() {
        return None;
    }
    let mut k: usize = 0;
    let mut at: usize = i;
    while k < lit.len() && at < s.len()
        invariant
            k <= lit@.len(),
            at == i + k,
            i + lit@.len() <= s@.len(),
            cur == suffix(s@, i as int),
            cur.subrange(0, k as int) == lit@.subrange(0, k as int),
        decreases lit@.len() - k,
    {
        if s[at] != lit[k] {
            assert(cur.subrange(0, lit@.len() as int)[k as int] != lit@[k as int]);
            return None;
        }
        k = k + 1;
        at = at + 1;
        assert(cur.subrange(0, k as int) =~= lit@.subrange(0, k as int));
    }
    assert(lit@.subrange(0, lit@.len() as int) =~= lit@);
    proof {
        lemma_suffix_drop(s@, i as int, lit@.len() as int);
    }
    Some(i + lit.len())
}

/// Skips one JSON value from `i` on, with at most `d` levels of nesting.
pub fn skip_value_at(s: &Vec<char>, i: usize, d: u32) -> (r: Option<usize>)
    requires
        i <= s@.len(),
    ensures
        match r {
            Some(j) => i < j <= s@.len() && skip_value(suffix(s@, i as int), d as nat) == Some(suffix(s@, j as int)),
            None => skip_value(suffix(s@, i as int), d as nat) is None,
        },
    decreases d, 0nat,
{
    let ghost cur = suffix(s@, i as int);
    if i >= s.len() {
        return None;
    }
    let c = s[i];
    assert(cur[0] == c);
    if c == '"' {
        match parse_string(s, i) {
            Some((_, j)) => Some(j),
            None => None,
        }
    } else if c == '[' || c == '{' {
        if d == 0 {
            return None;
        }
        proof {
            lemma_suffix_drop(s@, i as int, 1);
        }
        let t = skip_ws_at(s, i + 1);
        let close = if c == '[' { ']' } else { '}' };
        if t < s.len() && s[t] == close {
            assert(suffix(s@, t as int)[0] == s@[t as int]);
            proof {
                lemma_suffix_drop(s@, t as int, 1);
            }
            Some(t + 1)
        } else {
            if t < s.len() {
                assert(suffix(s@, t as int)[0] == s@[t as int]);
            }
            if c == '[' {
                skip_items_at(s, t, d - 1)
            } else {
                skip_members_at(s, t, d - 1)
            }
        }
    } else if c == 'n' {
        let lit = crate::text::chars_of("null");
        proof {
            reveal_strlit("null");
            assert(lit@ =~= seq!['n', 'u', 'l', 'l']);
        }
        skip_literal_at(s, i, &lit)
    } else if c == 't' {
        let lit = crate::text::chars_of("true");
        proof {
            reveal_strlit("true");
            assert(lit@ =~= seq!['t', 'r', 'u', 'e']);
        }
        skip_literal_at(s, i, &lit)
    } else if c == 'f' {
        let lit = crate::text::chars_of("false");
        proof {
            reveal_strlit("false");
            assert(lit@ =~= seq!['f', 'a', 'l', 's', 'e']);
        }
        skip_literal_at(s, i, &lit)
    } else {
        skip_number_at(s, i)
    }
}

fn skip_items_at(s: &Vec<char>, i: usize, d: u32) -> (r: Option<usize>)
    requires
        i <= s@.len(),
    ensures
        match r {
            Some(j) => i < j <= s@.len() && skip_items(suffix(s@, i as int), d as nat) == Some(suffix(s@, j as int)),
            None => skip_items(suffix(s@, i as int), d as nat) is None,
        },
    decreases d, 1nat,
{
    let mut k = i;
    loop
        invariant
            i <= k <= s@.len(),
            skip_items(suffix(s@, i as int), d as nat) == skip_items(suffix(s@, k as int), d as nat),
        decreases s@.len() - k,
    {
        let p = match skip_value_at(s, k, d) {
            Some(p) => p,
            None => {
                return None;
            },
        };
        let r1 = skip_ws_at(s, p);
        if r1 < s.len() && s[r1] == ']' {
            assert(suffix(s@, r1 as int)[0] == s@[r1 as int]);
            proof {
                lemma_suffix_drop(s@, r1 as int, 1);
            }
            return Some(r1 + 1);
        } else if r1 < s.len() && s[r1] == ',' {
            assert(suffix(s@, r1 as int)[0] == s@[r1 as int]);
            proof {
                lemma_suffix_drop(s@, r1 as int, 1);
            }
            k = skip_ws_at(s, r1 + 1);
        } else {
            if r1 < s.len() {
                assert(suffix(s@, r1 as int)[0] == s@[r1 as int]);
            }
            return None;
        }
    }
}

fn skip_members_at(s: &Vec<char>, i: usize, d: u32) -> (r: Option<usize>)
    requires
        i <= s@.len(),
    ensures
        match r {
            Some(j) => i < j <= s@.len() && skip_members(suffix(s@, i as int), d as nat) == Some(suffix(s@, j as int)),
            None => skip_members(suffix(s@, i as int), d as nat) is None,
        },
    decreases d, 1nat,
{
    let mut k = i;
    loop
        invariant
            i <= k <= s@.len(),
            skip_members(suffix(s@, i as int), d as nat) == skip_members(suffix(s@, k as int), d as nat),
        decreases s@.len() - k,
    {
        let p = match parse_string(s, k) {
            Some((_, p)) => p,
            None => {
                return None;
            },
        };
        let r1 = skip_ws_at(s, p);
        if !(r1 < s.len() && s[r1] == ':') {
            if r1 < s.len() {
                assert(suffix(s@, r1 as int)[0] == s@[r1 as int]);
            }
            return None;
        }
        assert(suffix(s@, r1 as int)[0] == s@[r1 as int]);
        proof {
            lemma_suffix_drop(s@, r1 as int, 1);
        }
        let vstart = skip_ws_at(s, r1 + 1);
        let p2 = match skip_value_at(s, vstart, d) {
            Some(p2) => p2,
            None => {
                return None;
            },
        };
        let r3 = skip_ws_at(s, p2);
        if r3 < s.len() && s[r3] == '}' {
            assert(suffix(s@, r3 as int)[0] == s@[r3 as int]);
            proof {
                lemma_suffix_drop(s@, r3 as int, 1);
            }
            return Some(r3 + 1);
        } else if r3 < s.len() && s[r3] == ',' {
            assert(suffix(s@, r3 as int)[0] == s@[r3 as int]);
            proof {
                lemma_suffix_drop(s@, r3 as int, 1);
            }
            k = skip_ws_at(s, r3 + 1);
        } else {
            if r3 < s.len() {
                assert(suffix(s@, r3 as int)[0] == s@[r3 as int]);
            }
            return None;
        }
    }
}

/// Reads a member value from `i` on: `null`, a string literal or an array of
/// them where it is one, else any other JSON value, skipped.
pub fn parse_field_value(s: &Vec<char>, i: usize) -> (r: Option<(Field, usize)>)
    requires
        i <= s@.len(),
    ensures
        match r {
            Some((v, j)) => i < j <= s@.len() && field_value(suffix(s@, i as int)) == Some((v@, suffix(s@, j as int))),
            None => field_value(suffix(s@, i as int)) is None,
        },
{
    match parse_typed_value(s, i) {
        Some(v) => Some(v),
        None => match skip_value_at(s, i, MAX_NESTING) {
            Some(j) => Some((Field::Other, j)),
            None => None,
        },
    }
}

/// Reads the members of a non-empty object from `i` on, up to the end of the text.
pub fn parse_members(s: &Vec<char>, i: usize) -> (r: Option<Vec<(String, Field)>>)
    requires
        i <= s@.len(),
    ensures
        match r {
            Some(v) => members(suffix(s@, i as int)) == Some(members_view(v@)),
            None => members(suffix(s@, i as int)) is None,
        },
{
    let mut acc: Vec<(String, Field)> = Vec::new();
    let mut k = i;
    assert(members_view(acc@) =~= Seq::<(Seq<char>, JsonField)>::empty());
    loop
        invariant
            i <= k <= s@.len(),
            members(suffix(s@, i as int)) == match members(suffix(s@, k as int)) {
                Some(ms) => Some(members_view(acc@) + ms),
                None => None,
            },
        decreases s@.len() - k,
    {
        let ghost before = members_view(acc@);
        match parse_string(s, k) {
            None => {
                return None;
            },
            Some((key, p)) => {
                let r1 = skip_ws_at(s, p);
                if !(r1 < s.len() && s[r1] == ':') {
                    if r1 < s.len() {
                        assert(suffix(s@, r1 as int)[0] == s@[r1 as int]);
                    }
                    return None;
                }
                assert(suffix(s@, r1 as int)[0] == s@[r1 as int]);
                proof {
                    lemma_suffix_drop(s@, r1 as int, 1);
                }
                let vstart = skip_ws_at(s, r1 + 1);
                match parse_field_value(s, vstart) {
                    None => {
                        return None;
                    },
                    Some((v, p2)) => {
                        let r3 = skip_ws_at(s, p2);
                        let ghost m = (key@, v@);
                        if r3 < s.len() && s[r3] == '}' {
                            assert(suffix(s@, r3 as int)[0] == s@[r3 as int]);
                            proof {
                                lemma_suffix_drop(s@, r3 as int, 1);
                            }
                            let e = skip_ws_at(s, r3 + 1);
                            if e == s.len() {
                                acc.push((key, v));
                                assert(members_view(acc@) =~= before + seq![m]);
                                return Some(acc);
                            } else {
                                return None;
                            }
                        } else if r3 < s.len() && s[r3] == ',' {
                            assert(suffix(s@, r3 as int)[0] == s@[r3 as int]);
                            proof {
                                lemma_suffix_drop(s@, r3 as int, 1);
                            }
                            let t = skip_ws_at(s, r3 + 1);
                            acc.push((key, v));
                            proof {
                                assert(members_view(acc@) =~= before.push(m));
                                match members(suffix(s@, t as int)) {
                                    Some(ms) => {
                                        assert(before + (seq![m] + ms) =~= before.push(m) + ms);
                                    },
                                    None => {},
                                }
                            }
                            k = t;
                        } else {
                            if r3 < s.len() {
                                assert(suffix(s@, r3 as int)[0] == s@[r3 as int]);
                            }
                            return None;
                        }
                    },
                }
            },
        }
    }
}

/// Reads a whole frame as one object.
pub fn parse_object_text(s: &Vec<char>) -> (r: Option<Vec<(String, Field)>>)
    ensures
        match r {
            Some(v) => parse_object(s@) == Some(members_view(v@)),
            None => parse_object(s@) is None,
        },
{
    assert(suffix(s@, 0) =~= s@);
    let t = skip_ws_at(s, 0);
    if t < s.len() && s[t] == '{' {
        assert(suffix(s@, t as int)[0] == s@[t as int]);
        proof {
            lemma_suffix_drop(s@, t as int, 1);
        }
        let u = skip_ws_at(s, t + 1);
        if u < s.len() && s[u] == '}' {
            assert(suffix(s@, u as int)[0] == s@[u as int]);
            proof {
                lemma_suffix_drop(s@, u as int, 1);
            }
            let e = skip_ws_at(s, u + 1);
            if e == s.len() {
                let empty: Vec<(String, Field)> = Vec::new();
                assert(members_view(empty@) =~= Seq::<(Seq<char>, JsonField)>::empty());
                Some(empty)
            } else {
                None
            }
        } else {
            if u < s.len() {
                assert(suffix(s@, u as int)[0] == s@[u as int]);
            }
            parse_members(s, u)
        }
    } else {
        if t < s.len() {
            assert(suffix(s@, t as int)[0] == s@[t as int]);
        }
        None
    }
}

} // verus!
